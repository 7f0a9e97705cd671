//! Orderings on text and paths, and a stable sort.
//!
//! Text is ordered byte by byte on its UTF-8 encoding, as `str` is. A path is
//! ordered component by component, as `Path` is: a root first, then `.` at the
//! start, `..`, and the names, each name byte by byte; repeated separators,
//! a trailing separator and `.` after the start are not components.

use vstd::prelude::*;
use vstd::utf8::encode_utf8;

verus! {

/// Three-way lexicographic comparison of two integer sequences: negative,
/// zero or positive as `a` sorts before, equal to, or after `b`.
pub open spec fn lex_order(a: Seq<int>, b: Seq<int>) -> int
    decreases a.len(),
{
    if a.len() == 0 && b.len() == 0 {
        0
    } else if a.len() == 0 {
        -1
    } else if b.len() == 0 {
        1
    } else if a[0] < b[0] {
        -1
    } else if a[0] > b[0] {
        1
    } else {
        lex_order(a.drop_first(), b.drop_first())
    }
}

/// The sort key of text: its UTF-8 bytes.
pub open spec fn text_key(s: Seq<char>) -> Seq<int> {
    encode_utf8(s).map_values(|b: u8| b as int)
}

/// The parts of a byte string between its separators `/`, in order; there
/// is always at least one, possibly empty.
pub open spec fn split_parts(b: Seq<u8>) -> Seq<Seq<u8>>
    decreases b.len(),
{
    if b.len() == 0 {
        seq![Seq::<u8>::empty()]
    } else {
        let r = split_parts(b.drop_last());
        if b.last() == 0x2f {
            r.push(Seq::<u8>::empty())
        } else {
            r.update(r.len() - 1, r.last().push(b.last()))
        }
    }
}

proof fn lemma_split_parts_nonempty(b: Seq<u8>)
    ensures
        split_parts(b).len() >= 1,
    decreases b.len(),
{
    if b.len() > 0 {
        lemma_split_parts_nonempty(b.drop_last());
    }
}

/// The code of the part at `index` of a path's parts: a name is `4`, its
/// bytes shifted up by one, and `0`; `..` is `3, 0`; `.` is `2, 0` as the
/// first part of a relative path and nothing elsewhere; an empty part (a
/// repeated, leading or trailing separator) is nothing.
pub open spec fn part_code(part: Seq<u8>, index: int, absolute: bool) -> Seq<int> {
    if part.len() == 0 {
        seq![]
    } else if part == seq![0x2eu8] {
        if index == 0 && !absolute {
            seq![2int, 0int]
        } else {
            seq![]
        }
    } else if part == seq![0x2eu8, 0x2eu8] {
        seq![3int, 0int]
    } else {
        seq![4int] + part.map_values(|x: u8| x as int + 1) + seq![0int]
    }
}

/// The codes of a path's parts, in order.
pub open spec fn parts_key(parts: Seq<Seq<u8>>, absolute: bool) -> Seq<int>
    decreases parts.len(),
{
    if parts.len() == 0 {
        seq![]
    } else {
        parts_key(parts.drop_last(), absolute) + part_code(
            parts.last(),
            parts.len() - 1,
            absolute,
        )
    }
}

/// The sort key of a path's bytes: its components, each coded so that
/// comparing keys compares the components in order (a root is `1, 0`).
pub open spec fn bytes_path_key(b: Seq<u8>) -> Seq<int> {
    let absolute = b.len() > 0 && b[0] == 0x2f;
    (if absolute {
        seq![1int, 0int]
    } else {
        seq![]
    }) + parts_key(split_parts(b), absolute)
}

/// The sort key of a path.
pub open spec fn path_key(s: Seq<char>) -> Seq<int> {
    bytes_path_key(encode_utf8(s))
}

pub open spec fn bytes_key(s: Seq<u8>) -> Seq<int> {
    s.map_values(|b: u8| b as int)
}

/// Three-way comparison of two texts.
pub open spec fn text_order(a: Seq<char>, b: Seq<char>) -> int {
    lex_order(text_key(a), text_key(b))
}

/// Three-way comparison of two paths.
pub open spec fn path_order(a: Seq<char>, b: Seq<char>) -> int {
    lex_order(path_key(a), path_key(b))
}

/// `lex_order` is antisymmetric, and zero exactly on equal sequences.
pub proof fn lemma_lex_order_antisymmetric(a: Seq<int>, b: Seq<int>)
    ensures
        lex_order(a, b) == -lex_order(b, a),
        lex_order(a, b) == 0 <==> a == b,
    decreases a.len(),
{
    if a.len() > 0 && b.len() > 0 && a[0] == b[0] {
        lemma_lex_order_antisymmetric(a.drop_first(), b.drop_first());
        if a.drop_first() == b.drop_first() {
            assert(a =~= seq![a[0]] + a.drop_first());
            assert(b =~= seq![b[0]] + b.drop_first());
        }
    }
    if a == b && a.len() > 0 {
        assert(a.drop_first() == b.drop_first());
    }
    if a.len() == 0 && b.len() == 0 {
        assert(a =~= b);
    }
}

/// `lex_order` is transitive on the order it induces.
pub proof fn lemma_lex_order_transitive(a: Seq<int>, b: Seq<int>, c: Seq<int>)
    requires
        lex_order(a, b) <= 0,
        lex_order(b, c) <= 0,
    ensures
        lex_order(a, c) <= 0,
        lex_order(a, b) < 0 || lex_order(b, c) < 0 ==> lex_order(a, c) < 0,
    decreases a.len(),
{
    if a.len() > 0 && b.len() > 0 && c.len() > 0 && a[0] == b[0] && b[0] == c[0] {
        lemma_lex_order_transitive(a.drop_first(), b.drop_first(), c.drop_first());
    }
}

/// Compare two byte strings lexicographically.
pub fn compare_bytes(a: &[u8], b: &[u8]) -> (r: i8)
    ensures
        r as int == lex_order(bytes_key(a@), bytes_key(b@)),
{
    let ghost ka = bytes_key(a@);
    let ghost kb = bytes_key(b@);
    let mut i: usize = 0;
    assert(ka.skip(0) =~= ka);
    assert(kb.skip(0) =~= kb);
    while i < a.len() && i < b.len()
        invariant
            i <= a@.len(),
            i <= b@.len(),
            ka == bytes_key(a@),
            kb == bytes_key(b@),
            lex_order(ka, kb) == lex_order(ka.skip(i as int), kb.skip(i as int)),
        decreases a@.len() - i,
    {
        let x: u8 = a[i];
        let y: u8 = b[i];
        let kx: i16 = x as i16;
        let ky: i16 = y as i16;
        assert(ka.skip(i as int)[0] == kx);
        assert(kb.skip(i as int)[0] == ky);
        if kx < ky {
            return -1;
        }
        if kx > ky {
            return 1;
        }
        assert(ka.skip(i as int).drop_first() =~= ka.skip(i + 1));
        assert(kb.skip(i as int).drop_first() =~= kb.skip(i + 1));
        i = i + 1;
    }
    if i == a.len() && i == b.len() {
        0
    } else if i == a.len() {
        -1
    } else {
        1
    }
}

/// Three-way comparison of two texts, byte by byte.
pub fn compare_text(a: &str, b: &str) -> (r: i8)
    ensures
        r as int == text_order(a@, b@),
{
    let ba = a.as_bytes();
    let bb = b.as_bytes();
    let r = compare_bytes(ba, bb);
    assert(bytes_key(ba@) =~= text_key(a@));
    assert(bytes_key(bb@) =~= text_key(b@));
    r
}

/// Three-way comparison of two key sequences.
fn compare_keys(a: &Vec<i16>, b: &Vec<i16>) -> (r: i8)
    ensures
        r as int == lex_order(ints(a@), ints(b@)),
{
    let ghost ka = ints(a@);
    let ghost kb = ints(b@);
    let mut i: usize = 0;
    assert(ka.skip(0) =~= ka);
    assert(kb.skip(0) =~= kb);
    while i < a.len() && i < b.len()
        invariant
            i <= a@.len(),
            i <= b@.len(),
            ka == ints(a@),
            kb == ints(b@),
            lex_order(ka, kb) == lex_order(ka.skip(i as int), kb.skip(i as int)),
        decreases a@.len() - i,
    {
        assert(ka.skip(i as int)[0] == a@[i as int]);
        assert(kb.skip(i as int)[0] == b@[i as int]);
        if a[i] < b[i] {
            return -1;
        }
        if a[i] > b[i] {
            return 1;
        }
        assert(ka.skip(i as int).drop_first() =~= ka.skip(i + 1));
        assert(kb.skip(i as int).drop_first() =~= kb.skip(i + 1));
        i = i + 1;
    }
    if i == a.len() && i == b.len() {
        0
    } else if i == a.len() {
        -1
    } else {
        1
    }
}

pub open spec fn ints(s: Seq<i16>) -> Seq<int> {
    s.map_values(|x: i16| x as int)
}

/// Append the code of the part `part` at `index` to `key`.
fn push_part_code(key: &mut Vec<i16>, part: &Vec<u8>, index: usize, absolute: bool)
    ensures
        ints(final(key)@) == ints(old(key)@) + part_code(part@, index as int, absolute),
{
    let ghost before = ints(key@);
    let n = part.len();
    if n == 0 {
        assert(ints(key@) =~= before + part_code(part@, index as int, absolute));
        return;
    }
    if n == 1 && part[0] == 0x2e {
        assert(part@ =~= seq![0x2eu8]);
        if index == 0 && !absolute {
            key.push(2);
            key.push(0);
        }
        assert(ints(key@) =~= before + part_code(part@, index as int, absolute));
        return;
    }
    if n == 2 && part[0] == 0x2e && part[1] == 0x2e {
        assert(part@ =~= seq![0x2eu8, 0x2eu8]);
        key.push(3);
        key.push(0);
        assert(ints(key@) =~= before + part_code(part@, index as int, absolute));
        return;
    }
    assert(part@ != seq![0x2eu8]) by {
        if n == 1 { assert(part@[0] != 0x2e); }
    }
    assert(part@ != seq![0x2eu8, 0x2eu8]) by {
        if n == 2 { assert(part@[0] != 0x2e || part@[1] != 0x2e); }
    }
    key.push(4);
    let mut i: usize = 0;
    while i < n
        invariant
            n == part@.len(),
            i <= n,
            ints(key@) == before + seq![4int] + part@.take(i as int).map_values(|x: u8| x as int + 1),
        decreases n - i,
    {
        let ghost k0 = ints(key@);
        key.push(part[i] as i16 + 1);
        assert(part@.take(i + 1).map_values(|x: u8| x as int + 1) =~= part@.take(i as int).map_values(|x: u8| x as int + 1).push(part@[i as int] as int + 1));
        assert(ints(key@) =~= k0.push(part@[i as int] as int + 1));
        i = i + 1;
    }
    let ghost k1 = ints(key@);
    key.push(0);
    assert(part@.take(n as int) =~= part@);
    assert(ints(key@) =~= k1.push(0));
    assert(part_code(part@, index as int, absolute) == seq![4int] + part@.map_values(
        |x: u8| x as int + 1,
    ) + seq![0int]);
    assert(ints(key@) =~= before + part_code(part@, index as int, absolute));
}

/// The sort key of a path's bytes.
fn path_key_of(bytes: &[u8]) -> (r: Vec<i16>)
    ensures
        ints(r@) == bytes_path_key(bytes@),
{
    let n = bytes.len();
    let absolute = n > 0 && bytes[0] == 0x2f;
    let mut key: Vec<i16> = Vec::new();
    if absolute {
        key.push(1);
        key.push(0);
    }
    let ghost start = ints(key@);
    assert(start =~= (if absolute { seq![1int, 0int] } else { Seq::<int>::empty() }));
    let mut part: Vec<u8> = Vec::new();
    let mut index: usize = 0;
    let mut i: usize = 0;
    assert(bytes@.take(0) =~= Seq::<u8>::empty());
    assert(split_parts(Seq::<u8>::empty()).drop_last() =~= Seq::<Seq<u8>>::empty());
    while i < n
        invariant
            n == bytes@.len(),
            i <= n,
            absolute == (bytes@.len() > 0 && bytes@[0] == 0x2f),
            index == split_parts(bytes@.take(i as int)).len() - 1,
            part@ == split_parts(bytes@.take(i as int)).last(),
            ints(key@) == start + parts_key(split_parts(bytes@.take(i as int)).drop_last(), absolute),
            index <= i,
        decreases n - i,
    {
        let ghost p = split_parts(bytes@.take(i as int));
        proof {
            lemma_split_parts_nonempty(bytes@.take(i as int));
            assert(bytes@.take(i + 1).drop_last() =~= bytes@.take(i as int));
        }
        if bytes[i] == 0x2f {
            let ghost k0 = ints(key@);
            push_part_code(&mut key, &part, index, absolute);
            part = Vec::new();
            index = index + 1;
            proof {
                let q = split_parts(bytes@.take(i + 1));
                assert(q == p.push(Seq::<u8>::empty()));
                assert(q.drop_last() =~= p);
                assert(p.drop_last().push(p.last()) =~= p);
                assert(parts_key(p, absolute) == parts_key(p.drop_last(), absolute) + part_code(p.last(), p.len() - 1, absolute));
                assert(ints(key@) =~= start + parts_key(q.drop_last(), absolute));
            }
        } else {
            part.push(bytes[i]);
            proof {
                let q = split_parts(bytes@.take(i + 1));
                assert(q == p.update(p.len() - 1, p.last().push(bytes@[i as int])));
                assert(q.drop_last() =~= p.drop_last());
            }
        }
        i = i + 1;
    }
    assert(bytes@.take(n as int) =~= bytes@);
    let ghost p = split_parts(bytes@);
    proof {
        lemma_split_parts_nonempty(bytes@);
    }
    push_part_code(&mut key, &part, index, absolute);
    assert(p.drop_last().push(p.last()) =~= p);
    assert(ints(key@) =~= bytes_path_key(bytes@));
    key
}

/// Three-way comparison of two paths, component by component.
pub fn compare_paths(a: &str, b: &str) -> (r: i8)
    ensures
        r as int == path_order(a@, b@),
{
    let ka = path_key_of(a.as_bytes());
    let kb = path_key_of(b.as_bytes());
    compare_keys(&ka, &kb)
}

/// A total preorder: the order in which a stable sort arranges values.
pub trait Ordered: Sized {
    spec fn ord_le(self, other: Self) -> bool;

    proof fn lemma_ord_total(a: Self, b: Self)
        ensures
            a.ord_le(b) || b.ord_le(a),
    ;

    proof fn lemma_ord_transitive(a: Self, b: Self, c: Self)
        requires
            a.ord_le(b),
            b.ord_le(c),
        ensures
            a.ord_le(c),
    ;

    fn le(&self, other: &Self) -> (r: bool)
        ensures
            r == self.ord_le(*other),
    ;
}

/// `x` inserted into `s` after the last element that sorts no later than it.
pub open spec fn sorted_insert<T: Ordered>(s: Seq<T>, x: T) -> Seq<T>
    decreases s.len(),
{
    if s.len() == 0 {
        seq![x]
    } else if s.last().ord_le(x) {
        s.push(x)
    } else {
        sorted_insert(s.drop_last(), x).push(s.last())
    }
}

/// The stable sort of `s`: elements in order, equal ones in their original order.
pub open spec fn sort_spec<T: Ordered>(s: Seq<T>) -> Seq<T>
    decreases s.len(),
{
    if s.len() == 0 {
        seq![]
    } else {
        sorted_insert(sort_spec(s.drop_last()), s.last())
    }
}

pub open spec fn is_sorted<T: Ordered>(s: Seq<T>) -> bool {
    forall|i: int, j: int| 0 <= i < j < s.len() ==> #[trigger] s[i].ord_le(#[trigger] s[j])
}

proof fn lemma_sorted_insert<T: Ordered>(s: Seq<T>, x: T)
    requires
        is_sorted(s),
    ensures
        is_sorted(sorted_insert(s, x)),
        sorted_insert(s, x).to_multiset() == s.to_multiset().insert(x),
        sorted_insert(s, x).len() == s.len() + 1,
    decreases s.len(),
{
    broadcast use vstd::seq_lib::group_seq_properties;
    broadcast use vstd::multiset::group_multiset_axioms;

    if s.len() == 0 {
        assert(seq![x] =~= Seq::<T>::empty().push(x));
    } else if s.last().ord_le(x) {
        let r = s.push(x);
        assert forall|i: int, j: int| 0 <= i < j < r.len() implies #[trigger] r[i].ord_le(
            #[trigger] r[j],
        ) by {
            if j == s.len() {
                if i < s.len() - 1 {
                    T::lemma_ord_transitive(s[i], s.last(), x);
                }
            }
        }
    } else {
        let p = s.drop_last();
        let l = s.last();
        assert(is_sorted(p));
        lemma_sorted_insert(p, x);
        let q = sorted_insert(p, x);
        let r = q.push(l);
        T::lemma_ord_total(l, x);
        assert(s =~= p.push(l));
        // every element of q sorts no later than l
        assert forall|k: int| 0 <= k < q.len() implies #[trigger] q[k].ord_le(l) by {
            assert(q.to_multiset().count(q[k]) > 0);
            assert(q.contains(q[k]));
            if q[k] == x {
            } else {
                assert(p.to_multiset().count(q[k]) > 0);
                assert(p.contains(q[k]));
                let m = choose|m: int| 0 <= m < p.len() && p[m] == q[k];
                assert(s[m] == p[m]);
                assert(s[m].ord_le(s[s.len() - 1]));
            }
        }
        assert forall|i: int, j: int| 0 <= i < j < r.len() implies #[trigger] r[i].ord_le(
            #[trigger] r[j],
        ) by {
            if j == q.len() {
                assert(r[i] == q[i]);
            } else {
                assert(r[i] == q[i] && r[j] == q[j]);
            }
        }
    }
}

/// The stable sort is sorted, and holds the same elements as its input.
pub proof fn lemma_sort_spec<T: Ordered>(s: Seq<T>)
    ensures
        is_sorted(sort_spec(s)),
        sort_spec(s).to_multiset() == s.to_multiset(),
        sort_spec(s).len() == s.len(),
    decreases s.len(),
{
    broadcast use vstd::seq_lib::group_seq_properties;
    broadcast use vstd::multiset::group_multiset_axioms;

    if s.len() > 0 {
        lemma_sort_spec(s.drop_last());
        lemma_sorted_insert(sort_spec(s.drop_last()), s.last());
        assert(s =~= s.drop_last().push(s.last()));
    }
}

proof fn lemma_filter_push<T>(s: Seq<T>, x: T, p: spec_fn(T) -> bool)
    ensures
        s.push(x).filter(p) == (if p(x) {
            s.filter(p).push(x)
        } else {
            s.filter(p)
        }),
{
    reveal(Seq::filter);
    assert(s.push(x).drop_last() =~= s);
}

proof fn lemma_filter_all_le<T: Ordered>(t: Seq<T>, x: T, p: spec_fn(T) -> bool)
    requires
        forall|i: int| 0 <= i < t.len() ==> (#[trigger] t[i]).ord_le(x),
    ensures
        forall|i: int| 0 <= i < t.filter(p).len() ==> (#[trigger] t.filter(p)[i]).ord_le(x),
    decreases t.len(),
{
    if t.len() > 0 {
        let d = t.drop_last();
        assert(t =~= d.push(t.last()));
        assert forall|i: int| 0 <= i < d.len() implies (#[trigger] d[i]).ord_le(x) by {
            assert(d[i] == t[i]);
        }
        lemma_filter_all_le(d, x, p);
        lemma_filter_push(d, t.last(), p);
        assert(t[t.len() - 1].ord_le(x));
    } else {
        reveal(Seq::filter);
    }
}

proof fn lemma_insert_filtered_out<T: Ordered>(t: Seq<T>, x: T, p: spec_fn(T) -> bool)
    requires
        !p(x),
    ensures
        sorted_insert(t, x).filter(p) == t.filter(p),
    decreases t.len(),
{
    if t.len() == 0 {
        lemma_filter_push(t, x, p);
        assert(seq![x] =~= t.push(x));
    } else if t.last().ord_le(x) {
        lemma_filter_push(t, x, p);
    } else {
        let d = t.drop_last();
        assert(t =~= d.push(t.last()));
        lemma_insert_filtered_out(d, x, p);
        lemma_filter_push(sorted_insert(d, x), t.last(), p);
        lemma_filter_push(d, t.last(), p);
    }
}

proof fn lemma_insert_filtered_in<T: Ordered>(t: Seq<T>, x: T, p: spec_fn(T) -> bool)
    requires
        p(x),
        is_sorted(t),
    ensures
        sorted_insert(t, x).filter(p) == sorted_insert(t.filter(p), x),
    decreases t.len(),
{
    if t.len() == 0 {
        lemma_filter_push(t, x, p);
        assert(seq![x] =~= t.push(x));
        reveal(Seq::filter);
    } else if t.last().ord_le(x) {
        lemma_filter_push(t, x, p);
        assert forall|i: int| 0 <= i < t.len() implies (#[trigger] t[i]).ord_le(x) by {
            if i < t.len() - 1 {
                assert(t[i].ord_le(t[t.len() - 1]));
                T::lemma_ord_transitive(t[i], t.last(), x);
            }
        }
        lemma_filter_all_le(t, x, p);
        let f = t.filter(p);
        if f.len() == 0 {
            assert(seq![x] =~= f.push(x));
        } else {
            assert(f[f.len() - 1].ord_le(x));
        }
    } else {
        let d = t.drop_last();
        let l = t.last();
        assert(t =~= d.push(l));
        assert(is_sorted(d));
        lemma_insert_filtered_in(d, x, p);
        lemma_filter_push(sorted_insert(d, x), l, p);
        lemma_filter_push(d, l, p);
        if p(l) {
            assert(d.filter(p).push(l).drop_last() =~= d.filter(p));
        }
    }
}

/// Sorting and then keeping the elements that satisfy `p` gives what keeping
/// them and then sorting gives.
pub proof fn lemma_sort_filter<T: Ordered>(s: Seq<T>, p: spec_fn(T) -> bool)
    ensures
        sort_spec(s.filter(p)) == sort_spec(s).filter(p),
    decreases s.len(),
{
    if s.len() == 0 {
        reveal(Seq::filter);
    } else {
        let d = s.drop_last();
        let x = s.last();
        assert(s =~= d.push(x));
        lemma_sort_filter(d, p);
        lemma_filter_push(d, x, p);
        lemma_sort_spec(d);
        if p(x) {
            lemma_insert_filtered_in(sort_spec(d), x, p);
            let f = d.filter(p).push(x);
            assert(f.drop_last() =~= d.filter(p));
        } else {
            lemma_insert_filtered_out(sort_spec(d), x, p);
        }
    }
}

proof fn lemma_sorted_insert_split<T: Ordered>(s: Seq<T>, x: T, j: int)
    requires
        0 <= j <= s.len(),
        forall|k: int| j <= k < s.len() ==> !(#[trigger] s[k]).ord_le(x),
    ensures
        sorted_insert(s, x) == sorted_insert(s.take(j), x) + s.skip(j),
    decreases s.len() - j,
{
    if j < s.len() {
        lemma_sorted_insert_split(s, x, j + 1);
        let t = s.take(j + 1);
        assert(t.last() == s[j]);
        assert(t.drop_last() =~= s.take(j));
        assert(sorted_insert(t, x) == sorted_insert(s.take(j), x).push(s[j]));
        assert(sorted_insert(s.take(j), x).push(s[j]) + s.skip(j + 1) =~= sorted_insert(
            s.take(j),
            x,
        ) + s.skip(j));
    } else {
        assert(s.take(j) =~= s);
        assert(s.skip(j) =~= Seq::<T>::empty());
        assert(sorted_insert(s, x) + Seq::<T>::empty() =~= sorted_insert(s, x));
    }
}

/// Insert `x` into the sorted vector `v` after every element that sorts no later.
fn insert_sorted<T: Ordered>(v: &mut Vec<T>, x: T)
    ensures
        final(v)@ == sorted_insert(old(v)@, x),
{
    let mut j = v.len();
    while j > 0 && !v[j - 1].le(&x)
        invariant
            j <= v@.len(),
            v@ == old(v)@,
            forall|k: int| j <= k < v@.len() ==> !(#[trigger] v@[k]).ord_le(x),
        decreases j,
    {
        j = j - 1;
    }
    proof {
        lemma_sorted_insert_split(v@, x, j as int);
        let t = v@.take(j as int);
        if j > 0 {
            assert(t.last() == v@[j - 1]);
            assert(t.drop_last().push(t.last()) =~= t);
        }
    }
    let ghost before = v@;
    v.insert(j, x);
    assert(v@ =~= sorted_insert(before.take(j as int), x) + before.skip(j as int));
}

/// Sort `v` stably: see `sort_spec`.
pub fn sort_stable<T: Ordered>(v: Vec<T>) -> (r: Vec<T>)
    ensures
        r@ == sort_spec(v@),
{
    let mut input = v;
    let ghost orig = input@;
    let mut out: Vec<T> = Vec::new();
    let n = input.len();
    let mut i: usize = 0;
    while i < n
        invariant
            n == orig.len(),
            i <= n,
            input@ == orig.skip(i as int),
            out@ == sort_spec(orig.take(i as int)),
        decreases n - i,
    {
        let x = input.remove(0);
        proof {
            let t = orig.take(i + 1);
            assert(t.drop_last() =~= orig.take(i as int));
            assert(t.last() == x);
        }
        insert_sorted(&mut out, x);
        assert(input@ =~= orig.skip(i + 1));
        i = i + 1;
    }
    assert(orig.take(n as int) =~= orig);
    out
}

impl Ordered for u32 {
    open spec fn ord_le(self, other: Self) -> bool {
        self <= other
    }

    proof fn lemma_ord_total(a: Self, b: Self) {
    }

    proof fn lemma_ord_transitive(a: Self, b: Self, c: Self) {
    }

    fn le(&self, other: &Self) -> (r: bool) {
        *self <= *other
    }
}

} // verus!
