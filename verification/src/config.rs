//! The suppressions of a workspace's `koyashi.toml`.
//!
//! The file maps a `Struct::field` name to the classifications suppressed for
//! it. Reading and decoding the file is done by the caller; this module holds
//! the decoded table and answers whether a finding is suppressed.

use vstd::prelude::*;

use crate::model::Classification;
use crate::text::same_text;

verus! {

/// The classifications suppressed for one field.
#[derive(Debug)]
pub struct Suppression {
    /// The `Struct::field` name.
    pub field: String,
    pub classes: Vec<Classification>,
}

/// Contents of a workspace's `koyashi.toml`.
#[derive(Debug)]
pub struct KoyashiConfig {
    /// One entry per field name; no name occurs twice. A vector rather than
    /// a `BTreeMap` keyed by the name: vstd specifies `BTreeMap` only for key
    /// types whose ordering it models (`key_obeys_cmp_spec`), and `String`
    /// is not one of them.
    suppressions: Vec<Suppression>,
}

/// The table that a list of entries with distinct names stands for.
pub open spec fn table_of(entries: Seq<Suppression>) -> Map<Seq<char>, Seq<Classification>>
    decreases entries.len(),
{
    if entries.len() == 0 {
        Map::empty()
    } else {
        table_of(entries.drop_last()).insert(entries.last().field@, entries.last().classes@)
    }
}

pub open spec fn distinct_names(entries: Seq<Suppression>) -> bool {
    forall|i: int, j: int|
        0 <= i < j < entries.len() ==> (#[trigger] entries[i]).field@ != (#[trigger] entries[j]).field@
}

proof fn lemma_table_of_lookup(entries: Seq<Suppression>)
    requires
        distinct_names(entries),
    ensures
        forall|i: int|
            0 <= i < entries.len() ==> #[trigger] table_of(entries).contains_key(entries[i].field@)
                && table_of(entries)[entries[i].field@] == entries[i].classes@,
        forall|k: Seq<char>|
            #[trigger] table_of(entries).contains_key(k) ==> exists|i: int|
                0 <= i < entries.len() && entries[i].field@ == k,
    decreases entries.len(),
{
    if entries.len() > 0 {
        let p = entries.drop_last();
        assert(distinct_names(p));
        lemma_table_of_lookup(p);
        assert forall|k: Seq<char>| #[trigger] table_of(entries).contains_key(k) implies exists|
            i: int,
        | 0 <= i < entries.len() && entries[i].field@ == k by {
            if k != entries.last().field@ {
                assert(table_of(p).contains_key(k));
                let i = choose|i: int| 0 <= i < p.len() && p[i].field@ == k;
                assert(entries[i] == p[i]);
            } else {
                assert(entries[entries.len() - 1].field@ == k);
            }
        }
        assert forall|i: int| 0 <= i < entries.len() implies #[trigger] table_of(
            entries,
        ).contains_key(entries[i].field@) && table_of(entries)[entries[i].field@]
            == entries[i].classes@ by {
            if i < entries.len() - 1 {
                assert(entries[i] == p[i]);
                assert(table_of(p).contains_key(p[i].field@));
                assert(entries[i].field@ != entries[entries.len() - 1].field@);
            }
        }
    }
}

proof fn lemma_table_of_update(entries: Seq<Suppression>, i: int, e: Suppression)
    requires
        distinct_names(entries),
        0 <= i < entries.len(),
        entries[i].field@ == e.field@,
    ensures
        table_of(entries.update(i, e)) == table_of(entries).insert(e.field@, e.classes@),
        distinct_names(entries.update(i, e)),
    decreases entries.len(),
{
    let u = entries.update(i, e);
    assert(distinct_names(u)) by {
        assert forall|a: int, b: int| 0 <= a < b < u.len() implies (#[trigger] u[a]).field@ != (
        #[trigger] u[b]).field@ by {
            assert(entries[a].field@ != entries[b].field@);
        }
    }
    if i == entries.len() - 1 {
        assert(u.drop_last() =~= entries.drop_last());
        assert(table_of(entries.drop_last()).insert(e.field@, e.classes@) =~= table_of(
            entries,
        ).insert(e.field@, e.classes@));
    } else {
        let p = entries.drop_last();
        lemma_table_of_update(p, i, e);
        assert(u.drop_last() =~= p.update(i, e));
        assert(entries.last().field@ != e.field@);
        assert(table_of(u) =~= table_of(entries).insert(e.field@, e.classes@));
    }
}

impl KoyashiConfig {
    #[verifier::type_invariant]
    spec fn names_distinct(self) -> bool {
        distinct_names(self.suppressions@)
    }

    /// The table: a field name, and the classifications suppressed for it.
    pub closed spec fn table(self) -> Map<Seq<char>, Seq<Classification>> {
        table_of(self.suppressions@)
    }

    /// A configuration that suppresses nothing.
    pub fn new() -> (r: KoyashiConfig)
        ensures
            r.table() == Map::<Seq<char>, Seq<Classification>>::empty(),
    {
        KoyashiConfig { suppressions: Vec::new() }
    }

    fn position(&self, field: &str) -> (r: Option<usize>)
        ensures
            match r {
                Some(i) => i < self.suppressions@.len() && self.suppressions@[i as int].field@
                    == field@,
                None => forall|i: int|
                    0 <= i < self.suppressions@.len() ==> (#[trigger] self.suppressions@[i]).field@
                        != field@,
            },
    {
        let n = self.suppressions.len();
        let mut i: usize = 0;
        while i < n
            invariant
                n == self.suppressions@.len(),
                i <= n,
                forall|j: int| 0 <= j < i ==> (#[trigger] self.suppressions@[j]).field@ != field@,
            decreases n - i,
        {
            if same_text(self.suppressions[i].field.as_str(), field) {
                return Some(i);
            }
            i = i + 1;
        }
        None
    }

    /// Suppress `classes` for the field named `field`, in place of what was
    /// suppressed for it before.
    pub fn insert(&mut self, field: String, classes: Vec<Classification>)
        ensures
            final(self).table() == old(self).table().insert(field@, classes@),
    {
        proof {
            use_type_invariant(&*self);
        }
        match self.position(field.as_str()) {
            Some(i) => {
                let ghost before = self.suppressions@;
                let e = Suppression { field, classes };
                proof {
                    lemma_table_of_update(before, i as int, e);
                }
                let mut entries: Vec<Suppression> = Vec::new();
                std::mem::swap(&mut entries, &mut self.suppressions);
                entries.set(i, e);
                self.suppressions = entries;
            },
            None => {
                let ghost before = self.suppressions@;
                let e = Suppression { field, classes };
                let mut entries: Vec<Suppression> = Vec::new();
                std::mem::swap(&mut entries, &mut self.suppressions);
                entries.push(e);
                proof {
                    assert(entries@.drop_last() =~= before);
                    assert(distinct_names(entries@)) by {
                        assert forall|a: int, b: int| 0 <= a < b < entries@.len() implies (
                        #[trigger] entries@[a]).field@ != (#[trigger] entries@[b]).field@ by {
                            if b == entries@.len() - 1 {
                                assert(entries@[a] == before[a]);
                            } else {
                                assert(entries@[a] == before[a] && entries@[b] == before[b]);
                            }
                        }
                    }
                }
                self.suppressions = entries;
            },
        }
    }

    /// Whether `classification` is suppressed for the field named `field`.
    pub fn is_suppressed(&self, field: &str, classification: Classification) -> (r: bool)
        ensures
            r == (self.table().contains_key(field@) && self.table()[field@].contains(
                classification,
            )),
    {
        proof {
            use_type_invariant(self);
            lemma_table_of_lookup(self.suppressions@);
        }
        match self.position(field) {
            Some(i) => {
                assert(self.table().contains_key(self.suppressions@[i as int].field@));
                let classes = &self.suppressions[i].classes;
                let n = classes.len();
                let mut k: usize = 0;
                assert(self.table()[field@] == classes@);
                while k < n
                    invariant
                        n == classes@.len(),
                        self.table().contains_key(field@),
                        self.table()[field@] == classes@,
                        k <= n,
                        forall|j: int| 0 <= j < k ==> classes@[j] != classification,
                    decreases n - k,
                {
                    if classes[k] == classification {
                        assert(classes@[k as int] == classification);
                        assert(classes@.contains(classification));
                        return true;
                    }
                    k = k + 1;
                }
                false
            },
            None => {
                assert(!self.table().contains_key(field@));
                false
            },
        }
    }
}

impl Default for KoyashiConfig {
    fn default() -> (r: Self)
        ensures
            r.table() == Map::<Seq<char>, Seq<Classification>>::empty(),
    {
        KoyashiConfig::new()
    }
}

/// A configuration suppresses nothing until an entry is inserted for a field.
pub proof fn lemma_empty_config_suppresses_nothing(
    config: KoyashiConfig,
    field: Seq<char>,
    c: Classification,
)
    requires
        config.table() == Map::<Seq<char>, Seq<Classification>>::empty(),
    ensures
        !config.table().contains_key(field),
{
}

/// What an insertion reads back: the inserted field suppresses exactly the
/// inserted classifications, and every other field what it suppressed before.
pub proof fn lemma_suppression_after_insert(
    before: KoyashiConfig,
    after: KoyashiConfig,
    field: Seq<char>,
    classes: Seq<Classification>,
    other: Seq<char>,
    c: Classification,
)
    requires
        after.table() == before.table().insert(field, classes),
    ensures
        (after.table().contains_key(field) && after.table()[field].contains(c)) == classes.contains(
            c,
        ),
        other != field ==> ((after.table().contains_key(other) && after.table()[other].contains(c))
            == (before.table().contains_key(other) && before.table()[other].contains(c))),
{
}

} // verus!
