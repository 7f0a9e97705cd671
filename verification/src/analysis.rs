//! Turns aggregated reference counts into a [`Classification`].

use vstd::prelude::*;

use crate::model::{Classification, FieldStats, ReferenceKind, ReferenceSite};

use crate::order::{lemma_sort_spec, sort_spec, sort_stable, is_sorted, Ordered};

verus! {

/// How many of `sites` have the kind `k`.
pub open spec fn count_kind(sites: Seq<ReferenceSite>, k: ReferenceKind) -> nat
    decreases sites.len(),
{
    if sites.len() == 0 {
        0
    } else {
        count_kind(sites.drop_last(), k) + if sites.last().kind == k {
            1nat
        } else {
            0nat
        }
    }
}

/// Whether a reference of kind `k` reads the field: a read or a mutable borrow.
pub open spec fn reads_value(k: ReferenceKind) -> bool {
    k == ReferenceKind::Read || k == ReferenceKind::MutBorrow
}

/// Whether a reference of kind `k` writes the field: a write or a mutable borrow.
pub open spec fn writes_value(k: ReferenceKind) -> bool {
    k == ReferenceKind::Write || k == ReferenceKind::MutBorrow
}

/// The lines of the sites that write the field, in the order of `sites`.
pub open spec fn write_lines_of(sites: Seq<ReferenceSite>) -> Seq<u32>
    decreases sites.len(),
{
    if sites.len() == 0 {
        seq![]
    } else if writes_value(sites.last().kind) {
        write_lines_of(sites.drop_last()).push(sites.last().location.line)
    } else {
        write_lines_of(sites.drop_last())
    }
}

/// Whether `stats` are the aggregate of `sites`: initializers, reads (a mutable
/// borrow counts as one), writes (a mutable borrow counts as one too), and the
/// lines of the writes in ascending order.
pub open spec fn aggregates(stats: FieldStats, sites: Seq<ReferenceSite>) -> bool {
    &&& stats.initializers == count_kind(sites, ReferenceKind::Initializer)
    &&& stats.reads == count_kind(sites, ReferenceKind::Read) + count_kind(
        sites,
        ReferenceKind::MutBorrow,
    )
    &&& stats.writes == count_kind(sites, ReferenceKind::Write) + count_kind(
        sites,
        ReferenceKind::MutBorrow,
    )
    &&& stats.write_lines@ == sort_spec(write_lines_of(sites))
}

proof fn lemma_counts_bounded(sites: Seq<ReferenceSite>)
    ensures
        count_kind(sites, ReferenceKind::Initializer) + count_kind(sites, ReferenceKind::Read)
            + count_kind(sites, ReferenceKind::Write) + count_kind(sites, ReferenceKind::MutBorrow)
            == sites.len(),
        write_lines_of(sites).len() == count_kind(sites, ReferenceKind::Write) + count_kind(
            sites,
            ReferenceKind::MutBorrow,
        ),
    decreases sites.len(),
{
    if sites.len() > 0 {
        lemma_counts_bounded(sites.drop_last());
    }
}

/// Aggregate a field's reference sites into counts.
pub fn aggregate(sites: &[ReferenceSite]) -> (stats: FieldStats)
    requires
        sites@.len() <= u32::MAX,
    ensures
        aggregates(stats, sites@),
{
    let mut stats = FieldStats::default();
    let n = sites.len();
    let mut i: usize = 0;
    while i < n
        invariant
            n == sites@.len(),
            n <= u32::MAX,
            i <= n,
            stats.initializers == count_kind(sites@.take(i as int), ReferenceKind::Initializer),
            stats.reads == count_kind(sites@.take(i as int), ReferenceKind::Read) + count_kind(
                sites@.take(i as int),
                ReferenceKind::MutBorrow,
            ),
            stats.writes == count_kind(sites@.take(i as int), ReferenceKind::Write) + count_kind(
                sites@.take(i as int),
                ReferenceKind::MutBorrow,
            ),
            stats.write_lines@ == write_lines_of(sites@.take(i as int)),
        decreases n - i,
    {
        proof {
            let t = sites@.take(i + 1);
            assert(t.drop_last() =~= sites@.take(i as int));
            lemma_counts_bounded(sites@.take(i as int));
        }
        let site = &sites[i];
        match site.kind {
            ReferenceKind::Initializer => stats.initializers += 1,
            ReferenceKind::Read => stats.reads += 1,
            ReferenceKind::Write => {
                stats.writes += 1;
                stats.write_lines.push(site.location.line);
            },
            ReferenceKind::MutBorrow => {
                stats.reads += 1;
                stats.writes += 1;
                stats.write_lines.push(site.location.line);
            },
        }
        i = i + 1;
    }
    assert(sites@.take(n as int) =~= sites@);
    let FieldStats { initializers, reads, writes, write_lines } = stats;
    FieldStats { initializers, reads, writes, write_lines: sort_stable(write_lines) }
}

/// The write lines of an aggregate are ascending, one per write.
pub proof fn lemma_write_lines_sorted(stats: FieldStats, sites: Seq<ReferenceSite>)
    requires
        aggregates(stats, sites),
    ensures
        is_sorted(stats.write_lines@),
        stats.write_lines@.len() == stats.writes,
        stats.write_lines@.to_multiset() == write_lines_of(sites).to_multiset(),
        stats.initializers + stats.reads + stats.writes == sites.len() + count_kind(
            sites,
            ReferenceKind::MutBorrow,
        ),
{
    lemma_sort_spec(write_lines_of(sites));
    lemma_counts_bounded(sites);
}

proof fn lemma_concat_sites(a: Seq<ReferenceSite>, b: Seq<ReferenceSite>)
    ensures
        forall|k: ReferenceKind| #[trigger]
            count_kind(a + b, k) == count_kind(a, k) + count_kind(b, k),
        write_lines_of(a + b) == write_lines_of(a) + write_lines_of(b),
    decreases b.len(),
{
    if b.len() == 0 {
        assert(a + b =~= a);
        assert(write_lines_of(a) + write_lines_of(b) =~= write_lines_of(a));
    } else {
        lemma_concat_sites(a, b.drop_last());
        assert((a + b).drop_last() =~= a + b.drop_last());
        assert((a + b).last() == b.last());
        assert forall|k: ReferenceKind| #[trigger]
            count_kind(a + b, k) == count_kind(a, k) + count_kind(b, k) by {
            assert(count_kind(a + b.drop_last(), k) == count_kind(a, k) + count_kind(
                b.drop_last(),
                k,
            ));
        }
        if writes_value(b.last().kind) {
            assert(write_lines_of(a) + write_lines_of(b) =~= (write_lines_of(a)
                + write_lines_of(b.drop_last())).push(b.last().location.line));
        }
    }
}

proof fn lemma_permuted_sites(s1: Seq<ReferenceSite>, s2: Seq<ReferenceSite>)
    requires
        s1.to_multiset() == s2.to_multiset(),
    ensures
        forall|k: ReferenceKind| #[trigger] count_kind(s1, k) == count_kind(s2, k),
        write_lines_of(s1).to_multiset() == write_lines_of(s2).to_multiset(),
    decreases s1.len(),
{
    broadcast use vstd::seq_lib::group_to_multiset_ensures;
    broadcast use vstd::multiset::group_multiset_axioms;

    if s1.len() == 0 {
        assert(s1.to_multiset().len() == 0);
        assert(s2.to_multiset().len() == s2.len());
        assert(s2.len() == 0);
        assert(s1 =~= s2);
    } else {
        let x = s1.last();
        let d = s1.drop_last();
        assert(s1 =~= d.push(x));
        assert(s2.to_multiset().count(x) > 0);
        assert(s2.contains(x));
        let j = choose|j: int| 0 <= j < s2.len() && s2[j] == x;
        let r = s2.remove(j);
        assert(d.to_multiset() =~= s1.to_multiset().remove(x));
        assert(r.to_multiset() =~= s2.to_multiset().remove(x));
        lemma_permuted_sites(d, r);
        let t = s2.take(j);
        let u = s2.skip(j + 1);
        let one = seq![x];
        assert(r =~= t + u);
        assert(s2 =~= t + one + u);
        assert(s1 =~= d + one);
        lemma_concat_sites(t, one);
        lemma_concat_sites(t + one, u);
        lemma_concat_sites(t, u);
        lemma_concat_sites(d, one);
        assert(one.drop_last() =~= Seq::<ReferenceSite>::empty());
        vstd::seq_lib::lemma_multiset_commutative(write_lines_of(t), write_lines_of(one));
        vstd::seq_lib::lemma_multiset_commutative(
            write_lines_of(t) + write_lines_of(one),
            write_lines_of(u),
        );
        vstd::seq_lib::lemma_multiset_commutative(write_lines_of(t), write_lines_of(u));
        vstd::seq_lib::lemma_multiset_commutative(write_lines_of(d), write_lines_of(one));
        assert(write_lines_of(s1).to_multiset() =~= write_lines_of(s2).to_multiset());
    }
}

/// The order of a field's reference sites does not matter: any two
/// aggregates of the same sites, in whatever order, agree in every count and
/// in the write lines.
pub proof fn lemma_aggregate_order_free(
    a: FieldStats,
    b: FieldStats,
    sites_a: Seq<ReferenceSite>,
    sites_b: Seq<ReferenceSite>,
)
    requires
        aggregates(a, sites_a),
        aggregates(b, sites_b),
        sites_a.to_multiset() == sites_b.to_multiset(),
    ensures
        a.initializers == b.initializers,
        a.reads == b.reads,
        a.writes == b.writes,
        a.write_lines@ == b.write_lines@,
{
    lemma_permuted_sites(sites_a, sites_b);
    assert(count_kind(sites_a, ReferenceKind::Initializer) == count_kind(sites_b, ReferenceKind::Initializer));
    assert(count_kind(sites_a, ReferenceKind::Read) == count_kind(sites_b, ReferenceKind::Read));
    assert(count_kind(sites_a, ReferenceKind::Write) == count_kind(sites_b, ReferenceKind::Write));
    assert(count_kind(sites_a, ReferenceKind::MutBorrow) == count_kind(sites_b, ReferenceKind::MutBorrow));
    lemma_write_lines_sorted(a, sites_a);
    lemma_write_lines_sorted(b, sites_b);
    let leq = |x: u32, y: u32| x <= y;
    let wa = a.write_lines@;
    let wb = b.write_lines@;
    assert forall|i: int, j: int| 0 <= i < j < wa.len() implies #[trigger] leq(wa[i], wa[j]) by {
        assert(wa[i].ord_le(wa[j]));
    }
    assert forall|i: int, j: int| 0 <= i < j < wb.len() implies #[trigger] leq(wb[i], wb[j]) by {
        assert(wb[i].ord_le(wb[j]));
    }
    assert(vstd::relations::total_ordering(leq));
    vstd::seq_lib::lemma_sorted_unique(a.write_lines@, b.write_lines@, leq);
}

/// The classification of a field with the given counts; `None` for a healthy
/// field, which is both read and written.
pub open spec fn classification_of_counts(
    initializers: nat,
    reads: nat,
    writes: nat,
    used_by_derive: bool,
) -> Option<Classification> {
    if initializers == 0 && reads == 0 && writes == 0 {
        Some(Classification::Unused)
    } else if reads == 0 {
        if used_by_derive {
            Some(Classification::DeriveOnly)
        } else {
            Some(Classification::WriteOnly)
        }
    } else if writes == 0 {
        Some(Classification::ReadOnly)
    } else {
        None
    }
}

/// The classification table: a field is unused exactly when it has no
/// initializer, read or write; a field that is read but never written is
/// read-only, whatever its initializers and derives; a field that is placed
/// (initialized or written) but never read is derive-only when a derive
/// reads it and write-only otherwise; a field both read and written is
/// healthy.
pub proof fn lemma_classification_table(
    initializers: nat,
    reads: nat,
    writes: nat,
    used_by_derive: bool,
)
    ensures
        classification_of_counts(initializers, reads, writes, used_by_derive) == Some(
            Classification::Unused,
        ) <==> (initializers == 0 && reads == 0 && writes == 0),
        reads > 0 && writes == 0 ==> classification_of_counts(
            initializers,
            reads,
            writes,
            used_by_derive,
        ) == Some(Classification::ReadOnly),
        reads == 0 && (initializers > 0 || writes > 0) && used_by_derive
            ==> classification_of_counts(initializers, reads, writes, used_by_derive) == Some(
            Classification::DeriveOnly,
        ),
        reads == 0 && (initializers > 0 || writes > 0) && !used_by_derive
            ==> classification_of_counts(initializers, reads, writes, used_by_derive) == Some(
            Classification::WriteOnly,
        ),
        reads > 0 && writes > 0 ==> classification_of_counts(
            initializers,
            reads,
            writes,
            used_by_derive,
        ) is None,
{
}

/// Classify a field from its counts.
///
/// `used_by_derive` is true when the field's struct has a derive macro that
/// reads every field. Returns `None` for healthy fields, which are both read
/// and written.
pub fn classify(stats: &FieldStats, used_by_derive: bool) -> (r: Option<Classification>)
    ensures
        r == classification_of_counts(
            stats.initializers as nat,
            stats.reads as nat,
            stats.writes as nat,
            used_by_derive,
        ),
        r is None <==> stats.reads > 0 && stats.writes > 0,
        r == Some(Classification::Unused) <==> (stats.initializers == 0 && stats.reads == 0
            && stats.writes == 0),
        stats.reads > 0 && stats.writes == 0 ==> r == Some(Classification::ReadOnly),
        stats.reads == 0 && (stats.initializers > 0 || stats.writes > 0) ==> r == Some(
            if used_by_derive {
                Classification::DeriveOnly
            } else {
                Classification::WriteOnly
            },
        ),
{
    if stats.initializers == 0 && stats.reads == 0 && stats.writes == 0 {
        return Some(Classification::Unused);
    }
    if stats.reads == 0 {
        // The value is placed (initialized or written) but never read in code.
        if used_by_derive {
            return Some(Classification::DeriveOnly);
        }
        return Some(Classification::WriteOnly);
    }
    if stats.writes == 0 {
        return Some(Classification::ReadOnly);
    }
    None
}

/// A human-readable explanation for a classification.
pub open spec fn message_text(c: Classification) -> Seq<char> {
    match c {
        Classification::Unused => "no references found"@,
        Classification::WriteOnly => "field is written but its value is never observed"@,
        Classification::ReadOnly => "field is set once at construction and never mutated"@,
        Classification::DeriveOnly => "field is read only through a derive macro"@,
    }
}

/// A human-readable explanation for a classification.
pub fn message_for(classification: Classification) -> (r: &'static str)
    ensures
        r@ == message_text(classification),
{
    match classification {
        Classification::Unused => "no references found",
        Classification::WriteOnly => "field is written but its value is never observed",
        Classification::ReadOnly => "field is set once at construction and never mutated",
        Classification::DeriveOnly => "field is read only through a derive macro",
    }
}

} // verus!
