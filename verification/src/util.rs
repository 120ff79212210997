//! Shared helpers: character scanning, decimal digits, the inverted
//! prefix comparator, and the delimiter-inclusive splitter.

use vstd::prelude::*;
use vstd::string::*;
use core::cmp::Ordering;

verus! {

/// First index `j` with `i <= j < s.len()` such that `s[j] == d`,
/// or `s.len()` when no such index exists (or `i` is out of range).
pub open spec fn scan_eq(s: Seq<char>, i: int, d: char) -> int
    decreases s.len() - i,
{
    if i < 0 || i >= s.len() {
        s.len() as int
    } else if s[i] == d {
        i
    } else {
        scan_eq(s, i + 1, d)
    }
}

/// `scan_eq` stays within bounds, skips only other characters, and ends
/// on the sought character unless it ran off the end.
pub proof fn lemma_scan_eq(s: Seq<char>, i: int, d: char)
    requires
        0 <= i <= s.len(),
    ensures
        i <= scan_eq(s, i, d) <= s.len(),
        forall|k: int| i <= k < scan_eq(s, i, d) ==> #[trigger] s[k] != d,
        scan_eq(s, i, d) < s.len() ==> s[scan_eq(s, i, d)] == d,
    decreases s.len() - i,
{
    if i < s.len() && s[i] != d {
        lemma_scan_eq(s, i + 1, d);
    }
}

/// A position with the characteristic properties of `scan_eq` is its result.
pub proof fn lemma_scan_eq_is(s: Seq<char>, i: int, d: char, j: int)
    requires
        0 <= i <= j <= s.len(),
        forall|k: int| i <= k < j ==> #[trigger] s[k] != d,
        j < s.len() ==> s[j] == d,
    ensures
        scan_eq(s, i, d) == j,
    decreases j - i,
{
    if i < j {
        lemma_scan_eq_is(s, i + 1, d, j);
    }
}

/// Whether `c` is an ASCII decimal digit.
pub open spec fn is_digit(c: char) -> bool {
    '0' <= c && c <= '9'
}

/// The numeric value of a digit character.
pub open spec fn digit_val(c: char) -> nat {
    (c as int - '0' as int) as nat
}

/// The digit character for a value below ten.
pub open spec fn digit_char(d: nat) -> char {
    if d == 0 { '0' }
    else if d == 1 { '1' }
    else if d == 2 { '2' }
    else if d == 3 { '3' }
    else if d == 4 { '4' }
    else if d == 5 { '5' }
    else if d == 6 { '6' }
    else if d == 7 { '7' }
    else if d == 8 { '8' }
    else { '9' }
}

/// The value of a run of digit characters, most significant first.
pub open spec fn digits_val(s: Seq<char>) -> nat
    decreases s.len(),
{
    if s.len() == 0 {
        0
    } else {
        digits_val(s.drop_last()) * 10 + digit_val(s.last())
    }
}

/// The canonical decimal rendering of `n`: no sign, no leading zeros.
pub open spec fn spec_dec(n: nat) -> Seq<char>
    decreases n,
{
    if n < 10 {
        seq![digit_char(n)]
    } else {
        spec_dec(n / 10).push(digit_char(n % 10))
    }
}

/// The decimal rendering consists of digits, is non-empty, never starts
/// with a superfluous zero, and parses back to the rendered value.
pub proof fn lemma_dec(n: nat)
    ensures
        spec_dec(n).len() >= 1,
        forall|k: int| 0 <= k < spec_dec(n).len() ==> is_digit(#[trigger] spec_dec(n)[k]),
        n >= 10 ==> spec_dec(n).len() >= 2,
        spec_dec(n)[0] == '0' ==> n == 0,
        digits_val(spec_dec(n)) == n,
    decreases n,
{
    if n < 10 {
        assert(seq![digit_char(n)].drop_last() =~= Seq::<char>::empty());
        assert(digits_val(spec_dec(n)) == digits_val(Seq::<char>::empty()) * 10 + digit_val(digit_char(n)));
    } else {
        lemma_dec(n / 10);
        let s = spec_dec(n);
        assert(s.drop_last() =~= spec_dec(n / 10));
        assert(s[0] == spec_dec(n / 10)[0]);
        assert(digits_val(s) == (n / 10) * 10 + digit_val(digit_char(n % 10)));
    }
}

/// A digit run's value never shrinks as the run is extended.
pub proof fn lemma_digits_val_mono(s: Seq<char>, i: int, m1: int, m2: int)
    requires
        0 <= i <= m1 <= m2 <= s.len(),
    ensures
        digits_val(s.subrange(i, m1)) <= digits_val(s.subrange(i, m2)),
    decreases m2 - m1,
{
    if m1 < m2 {
        lemma_digits_val_mono(s, i, m1, m2 - 1);
        assert(s.subrange(i, m2).drop_last() =~= s.subrange(i, m2 - 1));
        let x = digits_val(s.subrange(i, m2 - 1));
        assert(digits_val(s.subrange(i, m2)) == x * 10 + digit_val(s.subrange(i, m2).last()));
        assert(x * 10 >= x);
    }
}

/// A one-character string slice for a digit value.
fn digit_str(d: u32) -> (r: &'static str)
    requires
        d < 10,
    ensures
        r@ =~= seq![digit_char(d as nat)],
{
    proof {
        reveal_strlit("0");
        reveal_strlit("1");
        reveal_strlit("2");
        reveal_strlit("3");
        reveal_strlit("4");
        reveal_strlit("5");
        reveal_strlit("6");
        reveal_strlit("7");
        reveal_strlit("8");
        reveal_strlit("9");
    }
    match d {
        0 => "0",
        1 => "1",
        2 => "2",
        3 => "3",
        4 => "4",
        5 => "5",
        6 => "6",
        7 => "7",
        8 => "8",
        _ => "9",
    }
}

/// Renders `n` in decimal.
pub fn u32_to_dec(n: u32) -> (r: String)
    ensures
        r@ == spec_dec(n as nat),
    decreases n,
{
    if n < 10 {
        String::from_str(digit_str(n))
    } else {
        let mut s = u32_to_dec(n / 10);
        s.append(digit_str(n % 10));
        proof {
            assert(s@ =~= spec_dec(n as nat));
        }
        s
    }
}

/// The inverted comparator as a specification: ordinary lexicographic
/// comparison over the shared length; on a tie the shorter string sorts
/// after the longer one.
pub open spec fn spec_str_cmp(a: Seq<char>, b: Seq<char>) -> Ordering
    decreases a.len(),
{
    if a.len() == 0 && b.len() == 0 {
        Ordering::Equal
    } else if a.len() == 0 {
        Ordering::Greater
    } else if b.len() == 0 {
        Ordering::Less
    } else if (a[0] as int) < (b[0] as int) {
        Ordering::Less
    } else if (a[0] as int) > (b[0] as int) {
        Ordering::Greater
    } else {
        spec_str_cmp(a.drop_first(), b.drop_first())
    }
}

/// The inverted comparison is `Equal` exactly on equal strings.
pub proof fn lemma_str_cmp_eq(a: Seq<char>, b: Seq<char>)
    ensures
        spec_str_cmp(a, b) == Ordering::Equal <==> a == b,
    decreases a.len(),
{
    if a.len() == 0 && b.len() == 0 {
        assert(a =~= b);
    } else if a.len() != 0 && b.len() != 0 && a[0] == b[0] {
        lemma_str_cmp_eq(a.drop_first(), b.drop_first());
        if spec_str_cmp(a, b) == Ordering::Equal {
            assert(a =~= seq![a[0]] + a.drop_first());
            assert(b =~= seq![b[0]] + b.drop_first());
        } else {
            if a == b {
                assert(a.drop_first() =~= b.drop_first());
            }
        }
    } else {
        if a == b {
            assert(a.len() == b.len());
            if a.len() != 0 {
                assert(a[0] == b[0]);
            }
        }
    }
}

/// The inverted comparison flips under swapping its arguments.
pub proof fn lemma_str_cmp_flip(a: Seq<char>, b: Seq<char>)
    ensures
        spec_str_cmp(a, b) == Ordering::Less <==> spec_str_cmp(b, a) == Ordering::Greater,
    decreases a.len(),
{
    if a.len() != 0 && b.len() != 0 && a[0] == b[0] {
        lemma_str_cmp_flip(a.drop_first(), b.drop_first());
    }
}

/// Sort function that ranks substrings after their superstrings
/// (the opposite of ordinary string comparison for prefixes):
/// e.g. "superfan" ranks after "superfanvariant".
pub fn inverted_substr_sort(a: &str, b: &str) -> (r: Ordering)
    ensures
        r == spec_str_cmp(a@, b@),
{
    let alen = a.unicode_len();
    let blen = b.unicode_len();
    let n = if alen < blen { alen } else { blen };
    proof {
        assert(a@.skip(0) =~= a@);
        assert(b@.skip(0) =~= b@);
    }
    let mut i: usize = 0;
    while i < n
        invariant
            0 <= i <= n,
            alen == a@.len(),
            blen == b@.len(),
            n == if alen < blen { alen } else { blen },
            spec_str_cmp(a@, b@) == spec_str_cmp(a@.skip(i as int), b@.skip(i as int)),
        decreases n - i,
    {
        let ca = a.get_char(i);
        let cb = b.get_char(i);
        proof {
            assert(a@.skip(i as int)[0] == a@[i as int]);
            assert(b@.skip(i as int)[0] == b@[i as int]);
        }
        if (ca as u32) < (cb as u32) {
            return Ordering::Less;
        }
        if (ca as u32) > (cb as u32) {
            return Ordering::Greater;
        }
        proof {
            assert(a@.skip(i as int).drop_first() =~= a@.skip(i as int + 1));
            assert(b@.skip(i as int).drop_first() =~= b@.skip(i as int + 1));
        }
        i = i + 1;
    }
    proof {
        assert(a@.skip(i as int).len() == alen - i);
        assert(b@.skip(i as int).len() == blen - i);
    }
    if alen == blen {
        Ordering::Equal
    } else if alen < blen {
        Ordering::Greater
    } else {
        Ordering::Less
    }
}

/// Greedy split of `s` at each occurrence of `d` from index 1 on: each
/// piece after the first starts with `d`, no piece contains `d` after
/// its own first character, and the pieces concatenate back to `s`.
pub open spec fn spec_tokenize(s: Seq<char>, d: char) -> Seq<Seq<char>>
    decreases s.len(),
{
    if s.len() == 0 {
        Seq::empty()
    } else {
        let j = scan_eq(s, 1, d);
        let j2 = if 1 <= j <= s.len() { j } else { s.len() as int };
        seq![s.subrange(0, j2)] + spec_tokenize(s.subrange(j2, s.len() as int), d)
    }
}

/// The pieces of `spec_tokenize` concatenate back to the input, are all
/// non-empty, carry the delimiter only at a piece's own start, and every
/// piece after the first begins with the delimiter.
pub proof fn lemma_tokenize(s: Seq<char>, d: char)
    ensures
        spec_tokenize(s, d).flatten() == s,
        spec_tokenize(s, d).len() == 0 <==> s.len() == 0,
        forall|k: int| 0 <= k < spec_tokenize(s, d).len()
            ==> (#[trigger] spec_tokenize(s, d)[k]).len() >= 1,
        forall|k: int| 1 <= k < spec_tokenize(s, d).len()
            ==> (#[trigger] spec_tokenize(s, d)[k])[0] == d,
        forall|k: int, m: int|
            0 <= k < spec_tokenize(s, d).len()
            && 1 <= m < spec_tokenize(s, d)[k].len()
            ==> #[trigger] spec_tokenize(s, d)[k][m] != d,
    decreases s.len(),
{
    if s.len() == 0 {
        assert(spec_tokenize(s, d).flatten() =~= s);
    } else {
        let j = scan_eq(s, 1, d);
        lemma_scan_eq(s, 1, d);
        let rest = s.subrange(j, s.len() as int);
        lemma_tokenize(rest, d);
        let ts = spec_tokenize(s, d);
        assert(ts == seq![s.subrange(0, j)] + spec_tokenize(rest, d));
        assert(ts.drop_first() =~= spec_tokenize(rest, d));
        assert(ts.first() == s.subrange(0, j));
        assert(ts.flatten() == s.subrange(0, j) + spec_tokenize(rest, d).flatten());
        assert(ts.flatten() =~= s);
        assert forall|k: int| 1 <= k < ts.len() implies (#[trigger] ts[k])[0] == d by {
            if k == 1 {
                assert(rest.len() > 0);
                assert(ts[k] == spec_tokenize(rest, d)[k - 1]);
                assert(spec_tokenize(rest, d)[0] == rest.subrange(0, scan_clamp(rest, d)));
                assert(rest[0] == s[j]);
            } else {
                assert(ts[k] == spec_tokenize(rest, d)[k - 1]);
            }
        }
        assert forall|k: int, m: int|
            0 <= k < ts.len() && 1 <= m < ts[k].len() implies #[trigger] ts[k][m] != d by {
            if k == 0 {
                assert(ts[0] == s.subrange(0, j));
                assert(s.subrange(0, j)[m] == s[m]);
            } else {
                assert(ts[k] == spec_tokenize(rest, d)[k - 1]);
            }
        }
    }
}

/// The clamped scan position used by `spec_tokenize`.
pub open spec fn scan_clamp(s: Seq<char>, d: char) -> int {
    let j = scan_eq(s, 1, d);
    if 1 <= j <= s.len() { j } else { s.len() as int }
}

#[derive(Clone, Copy)]
/// An iterator-like cursor over substrings separated by a given delimiter
/// character; the delimiter is included at the start of each substring.
/// This struct is created by the [`split_inclusive_start`] function.
pub struct SplitInclusiveStart<'a> {
    /// Input text not yet handed out.
    pub remainder: &'a str,
    /// The delimiter character.
    pub delim: char,
}

impl<'a> SplitInclusiveStart<'a> {
    /// Creates a cursor over the pieces of `s` delimited by `delim`.
    pub fn new(s: &'a str, delim: char) -> (r: Self)
        ensures
            r.remainder == s,
            r.delim == delim,
    {
        Self { remainder: s, delim }
    }

    /// Hands out the next piece: the longest prefix of the remainder that
    /// contains the delimiter only at its own start.
    pub fn next(&mut self) -> (r: Option<&'a str>)
        ensures
            final(self).delim == old(self).delim,
            match r {
                Some(piece) => {
                    &&& old(self).remainder@.len() > 0
                    &&& piece@.len() >= 1
                    &&& piece@ + final(self).remainder@ == old(self).remainder@
                    &&& spec_tokenize(old(self).remainder@, old(self).delim)
                        == seq![piece@] + spec_tokenize(final(self).remainder@, old(self).delim)
                },
                None => {
                    &&& old(self).remainder@.len() == 0
                    &&& *final(self) == *old(self)
                },
            },
    {
        let rem = self.remainder;
        let d = self.delim;
        let n = rem.unicode_len();
        if n == 0 {
            return None;
        }
        let mut i: usize = 1;
        while i < n && rem.get_char(i) != d
            invariant
                1 <= i <= n,
                n == rem@.len(),
                forall|k: int| 1 <= k < i ==> #[trigger] rem@[k] != d,
            decreases n - i,
        {
            i = i + 1;
        }
        proof {
            lemma_scan_eq_is(rem@, 1, d, i as int);
        }
        let piece = rem.substring_char(0, i);
        self.remainder = rem.substring_char(i, n);
        proof {
            assert(piece@ + self.remainder@ =~= rem@);
            assert(spec_tokenize(rem@, d)
                == seq![rem@.subrange(0, i as int)]
                    + spec_tokenize(rem@.subrange(i as int, n as int), d));
        }
        Some(piece)
    }
}

/// Returns a cursor over substrings separated by the given delimiter
/// character; the delimiter is included at the start of each substring.
pub fn split_inclusive_start<'a>(s: &'a str, delim: char) -> (r: SplitInclusiveStart<'a>)
    ensures
        r.remainder == s,
        r.delim == delim,
{
    SplitInclusiveStart::new(s, delim)
}

/// Whether two string slices hold the same characters.
pub fn str_eq(a: &str, b: &str) -> (r: bool)
    ensures
        r == (a@ == b@),
{
    let alen = a.unicode_len();
    let blen = b.unicode_len();
    if alen != blen {
        return false;
    }
    let mut i: usize = 0;
    while i < alen
        invariant
            0 <= i <= alen,
            alen == a@.len(),
            blen == b@.len(),
            alen == blen,
            forall|k: int| 0 <= k < i ==> a@[k] == b@[k],
        decreases alen - i,
    {
        if a.get_char(i) != b.get_char(i) {
            return false;
        }
        i = i + 1;
    }
    proof {
        assert(a@ =~= b@);
    }
    true
}

} // verus!
