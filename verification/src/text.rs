//! Building text: characters, decimal numbers, padding and joining.

use vstd::prelude::*;
use vstd::string::*;
use vstd::utf8::{encode_utf8, encode_utf8_decode_utf8};

use crate::order::{compare_text, lemma_lex_order_antisymmetric, text_key};

verus! {

/// `std`'s `String::push`: appends one character.
#[verifier::external_body]
pub(crate) fn push_char(s: &mut String, c: char)
    ensures
        final(s)@ == old(s)@.push(c),
{
    s.push(c);
}

/// Append the text `t` to `s`.
pub fn push_text(s: &mut String, t: &str)
    ensures
        final(s)@ == old(s)@ + t@,
{
    s.append(t);
}

/// The character of the decimal digit `d`.
pub open spec fn digit_char(d: int) -> char {
    (48 + d) as char
}

/// The decimal representation of `n`, without leading zeros.
pub open spec fn decimal(n: nat) -> Seq<char>
    decreases n,
{
    if n < 10 {
        seq![digit_char(n as int)]
    } else {
        decimal(n / 10).push(digit_char((n % 10) as int))
    }
}

/// Every character of a decimal representation is an ASCII digit.
pub proof fn lemma_decimal_digits(n: nat)
    ensures
        decimal(n).len() >= 1,
        forall|i: int| 0 <= i < decimal(n).len() ==> '0' <= #[trigger] decimal(n)[i] <= '9',
    decreases n,
{
    if n >= 10 {
        lemma_decimal_digits(n / 10);
    }
}

fn digit(d: u64) -> (c: char)
    requires
        d < 10,
    ensures
        c == digit_char(d as int),
{
    let b: u8 = 48 + d as u8;
    b as char
}

/// The decimal text of `n`.
pub fn decimal_text(n: u64) -> (s: String)
    ensures
        s@ == decimal(n as nat),
    decreases n,
{
    if n < 10 {
        let mut s = String::new();
        push_char(&mut s, digit(n));
        s
    } else {
        let mut s = decimal_text(n / 10);
        push_char(&mut s, digit(n % 10));
        s
    }
}

/// `n` spaces.
pub open spec fn spaces(n: int) -> Seq<char>
    decreases n,
{
    if n <= 0 {
        seq![]
    } else {
        spaces(n - 1).push(' ')
    }
}

/// `t` padded with spaces on the right to at least `width` characters,
/// as the format `{:<width}` lays it out.
pub open spec fn pad_right(t: Seq<char>, width: int) -> Seq<char> {
    t + spaces(width - t.len())
}

/// Lay out `t` left-aligned in a field of `width` characters.
pub fn padded(t: &str, width: usize) -> (s: String)
    ensures
        s@ == pad_right(t@, width as int),
{
    let mut s = String::from_str(t);
    let len = t.unicode_len();
    let mut k = len;
    assert(spaces(0) =~= Seq::<char>::empty());
    while k < width
        invariant
            len == t@.len(),
            len <= k <= width || (k == len && len >= width),
            s@ == t@ + spaces(k - len),
        decreases width - k,
    {
        push_char(&mut s, ' ');
        k = k + 1;
        assert(s@ =~= t@ + spaces(k - len));
    }
    if len >= width {
        assert(spaces(width - len) =~= spaces(0));
    }
    s
}

/// The parts joined with `sep` between each two of them.
pub open spec fn join(parts: Seq<Seq<char>>, sep: Seq<char>) -> Seq<char>
    decreases parts.len(),
{
    if parts.len() == 0 {
        seq![]
    } else if parts.len() == 1 {
        parts[0]
    } else {
        join(parts.drop_last(), sep) + sep + parts.last()
    }
}

/// The pieces of `s` between the occurrences of `c`, in order; there is
/// always at least one, possibly empty.
pub open spec fn split_on(s: Seq<char>, c: char) -> Seq<Seq<char>>
    decreases s.len(),
{
    if s.len() == 0 {
        seq![Seq::<char>::empty()]
    } else {
        let r = split_on(s.drop_last(), c);
        if s.last() == c {
            r.push(Seq::<char>::empty())
        } else {
            r.update(r.len() - 1, r.last().push(s.last()))
        }
    }
}

/// Whether `c` does not occur in `s`.
pub open spec fn lacks(s: Seq<char>, c: char) -> bool {
    forall|i: int| 0 <= i < s.len() ==> s[i] != c
}

proof fn lemma_split_tail(a: Seq<char>, b: Seq<char>, c: char)
    requires
        lacks(b, c),
    ensures
        split_on(a + seq![c] + b, c) == split_on(a, c).push(b),
    decreases b.len(),
{
    if b.len() == 0 {
        assert(b =~= Seq::<char>::empty());
        assert(a + seq![c] + b =~= a.push(c));
        assert((a.push(c)).drop_last() =~= a);
    } else {
        let d = b.drop_last();
        assert(lacks(d, c));
        lemma_split_tail(a, d, c);
        let s = a + seq![c] + b;
        assert(s.drop_last() =~= a + seq![c] + d);
        assert(s.last() == b.last());
        assert(b[b.len() - 1] != c);
        assert(b =~= d.push(b.last()));
        assert(split_on(a, c).push(d).update(split_on(a, c).len() as int, d.push(b.last()))
            =~= split_on(a, c).push(b));
    }
}

proof fn lemma_split_plain(b: Seq<char>, c: char)
    requires
        lacks(b, c),
    ensures
        split_on(b, c) == seq![b],
    decreases b.len(),
{
    if b.len() == 0 {
        assert(b =~= Seq::<char>::empty());
    } else {
        let d = b.drop_last();
        assert(lacks(d, c));
        lemma_split_plain(d, c);
        assert(b[b.len() - 1] != c);
        assert(b =~= d.push(b.last()));
        assert(seq![d].update(0, d.push(b.last())) =~= seq![b]);
    }
}

/// Splitting a joined list of pieces on the separator, where no piece holds
/// the separator, gives the pieces back.
pub proof fn lemma_split_join(parts: Seq<Seq<char>>, c: char)
    requires
        parts.len() >= 1,
        forall|i: int| 0 <= i < parts.len() ==> lacks(#[trigger] parts[i], c),
    ensures
        split_on(join(parts, seq![c]), c) == parts,
    decreases parts.len(),
{
    if parts.len() == 1 {
        lemma_split_plain(parts[0], c);
        assert(seq![parts[0]] =~= parts);
    } else {
        let d = parts.drop_last();
        assert forall|i: int| 0 <= i < d.len() implies lacks(#[trigger] d[i], c) by {
            assert(d[i] == parts[i]);
        }
        lemma_split_join(d, c);
        assert(lacks(parts[parts.len() - 1], c));
        lemma_split_tail(join(d, seq![c]), parts.last(), c);
        assert(d.push(parts.last()) =~= parts);
    }
}

/// The views of a sequence of strings.
pub open spec fn views(v: Seq<String>) -> Seq<Seq<char>> {
    v.map_values(|s: String| s@)
}

/// Join `parts` with `sep` between each two of them.
pub fn join_strings(parts: &Vec<String>, sep: &str) -> (s: String)
    ensures
        s@ == join(views(parts@), sep@),
{
    let mut s = String::new();
    let n = parts.len();
    let mut i: usize = 0;
    while i < n
        invariant
            n == parts@.len(),
            i <= n,
            s@ == join(views(parts@).take(i as int), sep@),
        decreases n - i,
    {
        let ghost prev = views(parts@).take(i as int);
        if i > 0 {
            push_text(&mut s, sep);
        }
        push_text(&mut s, parts[i].as_str());
        proof {
            let next = views(parts@).take(i + 1);
            assert(next.drop_last() =~= prev);
            assert(next.last() == parts@[i as int]@);
            if i == 0 {
                assert(prev =~= Seq::<Seq<char>>::empty());
                assert(next.len() == 1);
            }
        }
        i = i + 1;
    }
    assert(views(parts@).take(n as int) =~= views(parts@));
    s
}

/// Whether two texts are equal.
pub fn same_text(a: &str, b: &str) -> (r: bool)
    ensures
        r == (a@ == b@),
{
    let c = compare_text(a, b);
    proof {
        lemma_lex_order_antisymmetric(text_key(a@), text_key(b@));
        if text_key(a@) == text_key(b@) {
            let (ea, eb) = (encode_utf8(a@), encode_utf8(b@));
            assert(ea.len() == text_key(a@).len());
            assert forall|i: int| 0 <= i < ea.len() implies ea[i] == eb[i] by {
                assert(text_key(a@)[i] == text_key(b@)[i]);
            }
            assert(ea =~= eb);
            encode_utf8_decode_utf8(a@);
            encode_utf8_decode_utf8(b@);
        }
    }
    c == 0
}

} // verus!
