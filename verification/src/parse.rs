//! Parsing brex grammar text back into the model: a single
//! left-to-right, non-backtracking scan with one character of lookahead.
//!
//! See [`Brex::parse()`].

use vstd::prelude::*;
use vstd::string::*;
use crate::models::brex::{Brex, BrexV};
use crate::models::group::{groups_view, Group, GroupV};
use crate::models::numeric::Numeric;
use crate::models::suffix::{suffixes_view, Suffix, SuffixV};
use crate::util::{digits_val, is_digit, scan_eq, lemma_scan_eq, lemma_scan_eq_is};

verus! {

/// Error parsing a brex string.
#[derive(Debug, Clone, Copy, PartialEq, Eq, Structural)]
pub enum Error {
    /// A digit run does not fit an unsigned 32-bit integer. Carries the
    /// character position where the run starts.
    NumericOverflow {
        /// Character index of the offending digit run.
        at: usize,
    },
    /// A structural expectation was violated (a group opened but never
    /// closed, a numeric block with no entries, and the like). Carries
    /// the character position of the violation.
    GrammarMismatch {
        /// Character index of the violation.
        at: usize,
    },
}

/// First index `j >= i` whose character is not an ASCII digit, or
/// `s.len()` when the digits run to the end (or `i` is out of range).
pub open spec fn scan_digit_end(s: Seq<char>, i: int) -> int
    decreases s.len() - i,
{
    if i < 0 || i >= s.len() {
        s.len() as int
    } else if !is_digit(s[i]) {
        i
    } else {
        scan_digit_end(s, i + 1)
    }
}

/// Bounds and characteristic properties of `scan_digit_end`.
pub proof fn lemma_scan_digit_end(s: Seq<char>, i: int)
    requires
        0 <= i <= s.len(),
    ensures
        i <= scan_digit_end(s, i) <= s.len(),
        forall|k: int| i <= k < scan_digit_end(s, i) ==> is_digit(#[trigger] s[k]),
        scan_digit_end(s, i) < s.len() ==> !is_digit(s[scan_digit_end(s, i)]),
    decreases s.len() - i,
{
    if i < s.len() && is_digit(s[i]) {
        lemma_scan_digit_end(s, i + 1);
    }
}

/// A position with the characteristic properties of `scan_digit_end` is
/// its result.
pub proof fn lemma_scan_digit_end_is(s: Seq<char>, i: int, j: int)
    requires
        0 <= i <= j <= s.len(),
        forall|k: int| i <= k < j ==> is_digit(#[trigger] s[k]),
        j < s.len() ==> !is_digit(s[j]),
    ensures
        scan_digit_end(s, i) == j,
    decreases j - i,
{
    if i < j {
        lemma_scan_digit_end_is(s, i + 1, j);
    }
}

/// Whether `c` ends a suffix text run: the suffix separator or either
/// brace of a block.
pub open spec fn is_suffix_stop(c: char) -> bool {
    c == ',' || c == '{' || c == '}'
}

/// First index `j >= i` whose character ends a suffix text run, or
/// `s.len()` when none does (or `i` is out of range).
pub open spec fn scan_suffix_end(s: Seq<char>, i: int) -> int
    decreases s.len() - i,
{
    if i < 0 || i >= s.len() {
        s.len() as int
    } else if is_suffix_stop(s[i]) {
        i
    } else {
        scan_suffix_end(s, i + 1)
    }
}

/// Bounds and characteristic properties of `scan_suffix_end`.
pub proof fn lemma_scan_suffix_end(s: Seq<char>, i: int)
    requires
        0 <= i <= s.len(),
    ensures
        i <= scan_suffix_end(s, i) <= s.len(),
        forall|k: int| i <= k < scan_suffix_end(s, i) ==> !is_suffix_stop(#[trigger] s[k]),
        scan_suffix_end(s, i) < s.len() ==> is_suffix_stop(s[scan_suffix_end(s, i)]),
    decreases s.len() - i,
{
    if i < s.len() && !is_suffix_stop(s[i]) {
        lemma_scan_suffix_end(s, i + 1);
    }
}

/// A position with the characteristic properties of `scan_suffix_end` is
/// its result.
pub proof fn lemma_scan_suffix_end_is(s: Seq<char>, i: int, j: int)
    requires
        0 <= i <= j <= s.len(),
        forall|k: int| i <= k < j ==> !is_suffix_stop(#[trigger] s[k]),
        j < s.len() ==> is_suffix_stop(s[j]),
    ensures
        scan_suffix_end(s, i) == j,
    decreases j - i,
{
    if i < j {
        lemma_scan_suffix_end_is(s, i + 1, j);
    }
}

/// Parses one numeric at position `i`: a digit run, optionally followed
/// by the range delimiter and a second digit run. Returns the numeric
/// and the position just past it.
pub open spec fn spec_parse_numeric(s: Seq<char>, i: nat) -> Result<(Numeric, int), Error> {
    let j = scan_digit_end(s, i as int);
    if i > s.len() || j == i {
        Err(Error::GrammarMismatch { at: i as usize })
    } else {
        let v = digits_val(s.subrange(i as int, j));
        if v > u32::MAX {
            Err(Error::NumericOverflow { at: i as usize })
        } else if j < s.len() && s[j] == '→' {
            let k = scan_digit_end(s, j + 1);
            if k == j + 1 {
                Err(Error::GrammarMismatch { at: (j + 1) as usize })
            } else {
                let w = digits_val(s.subrange(j + 1, k));
                if w > u32::MAX {
                    Err(Error::NumericOverflow { at: (j + 1) as usize })
                } else {
                    Ok((Numeric::Range(v as u32, w as u32), k))
                }
            }
        } else {
            Ok((Numeric::Single(v as u32), j))
        }
    }
}

/// A parsed numeric ends past where it began and within the input.
pub proof fn lemma_parse_numeric_bounds(s: Seq<char>, i: nat)
    requires
        spec_parse_numeric(s, i) is Ok,
    ensures
        i < spec_parse_numeric(s, i)->Ok_0.1 <= s.len(),
{
    lemma_scan_digit_end(s, i as int);
    let j = scan_digit_end(s, i as int);
    if j < s.len() && s[j] == '→' {
        lemma_scan_digit_end(s, j + 1);
    }
}

/// Parses a non-empty, comma-separated numeric list at position `i`.
pub open spec fn spec_parse_numeric_list(s: Seq<char>, i: nat) -> Result<(Seq<Numeric>, int), Error>
    decreases s.len() - i,
{
    match spec_parse_numeric(s, i) {
        Err(e) => Err(e),
        Ok((n, j)) => {
            if j < s.len() && s[j] == ',' {
                let next = if j + 1 > i + 1 { (j + 1) as nat } else { i + 1 };
                match spec_parse_numeric_list(s, next) {
                    Err(e) => Err(e),
                    Ok((ns, k)) => Ok((seq![n] + ns, k)),
                }
            } else {
                Ok((seq![n], j))
            }
        },
    }
}

/// A parsed numeric list ends past where it began and within the input,
/// and is never empty.
pub proof fn lemma_parse_numeric_list_bounds(s: Seq<char>, i: nat)
    requires
        spec_parse_numeric_list(s, i) is Ok,
    ensures
        i < spec_parse_numeric_list(s, i)->Ok_0.1 <= s.len(),
        spec_parse_numeric_list(s, i)->Ok_0.0.len() >= 1,
    decreases s.len() - i,
{
    let r = spec_parse_numeric(s, i);
    lemma_parse_numeric_bounds(s, i);
    match r {
        Err(_) => (),
        Ok((n, j)) => {
            if j < s.len() && s[j] == ',' {
                let next = if j + 1 > i + 1 { (j + 1) as nat } else { i + 1 };
                lemma_parse_numeric_list_bounds(s, next);
            }
        },
    }
}

/// Parses one suffix at position `i`: a non-empty text run, optionally
/// followed by a braced numeric list.
pub open spec fn spec_parse_suffix(s: Seq<char>, i: nat) -> Result<(SuffixV, int), Error> {
    let j = scan_suffix_end(s, i as int);
    if i > s.len() || j == i {
        Err(Error::GrammarMismatch { at: i as usize })
    } else {
        let text = s.subrange(i as int, j);
        if j < s.len() && s[j] == '{' {
            match spec_parse_numeric_list(s, (j + 1) as nat) {
                Err(e) => Err(e),
                Ok((ns, k)) => {
                    if k < s.len() && s[k] == '}' {
                        Ok((SuffixV { text, numerics: Some(ns) }, k + 1))
                    } else {
                        Err(Error::GrammarMismatch { at: k as usize })
                    }
                },
            }
        } else {
            Ok((SuffixV { text, numerics: None }, j))
        }
    }
}

/// A parsed suffix ends past where it began and within the input.
pub proof fn lemma_parse_suffix_bounds(s: Seq<char>, i: nat)
    requires
        spec_parse_suffix(s, i) is Ok,
    ensures
        i < spec_parse_suffix(s, i)->Ok_0.1 <= s.len(),
{
    lemma_scan_suffix_end(s, i as int);
    let j = scan_suffix_end(s, i as int);
    if 0 <= j < s.len() && s[j] == '{' {
        lemma_parse_numeric_list_bounds(s, (j + 1) as nat);
    }
}

/// Parses a non-empty, comma-separated suffix list at position `i`.
pub open spec fn spec_parse_suffix_list(s: Seq<char>, i: nat) -> Result<(Seq<SuffixV>, int), Error>
    decreases s.len() - i,
{
    match spec_parse_suffix(s, i) {
        Err(e) => Err(e),
        Ok((sf, j)) => {
            if j < s.len() && s[j] == ',' {
                let next = if j + 1 > i + 1 { (j + 1) as nat } else { i + 1 };
                match spec_parse_suffix_list(s, next) {
                    Err(e) => Err(e),
                    Ok((ss, k)) => Ok((seq![sf] + ss, k)),
                }
            } else {
                Ok((seq![sf], j))
            }
        },
    }
}

/// A parsed suffix list ends past where it began and within the input,
/// and is never empty.
pub proof fn lemma_parse_suffix_list_bounds(s: Seq<char>, i: nat)
    requires
        spec_parse_suffix_list(s, i) is Ok,
    ensures
        i < spec_parse_suffix_list(s, i)->Ok_0.1 <= s.len(),
        spec_parse_suffix_list(s, i)->Ok_0.0.len() >= 1,
    decreases s.len() - i,
{
    let r = spec_parse_suffix(s, i);
    lemma_parse_suffix_bounds(s, i);
    match r {
        Err(_) => (),
        Ok((sf, j)) => {
            if j < s.len() && s[j] == ',' {
                let next = if j + 1 > i + 1 { (j + 1) as nat } else { i + 1 };
                lemma_parse_suffix_list_bounds(s, next);
            }
        },
    }
}

/// Parses one group at position `i`: a prefix run up to the group start
/// brace, then the braced suffix list.
pub open spec fn spec_parse_group(s: Seq<char>, i: nat) -> Result<(GroupV, int), Error> {
    let j = scan_eq(s, i as int, '{');
    if i > s.len() || j >= s.len() {
        Err(Error::GrammarMismatch { at: i as usize })
    } else {
        let prefix = s.subrange(i as int, j);
        match spec_parse_suffix_list(s, (j + 1) as nat) {
            Err(e) => Err(e),
            Ok((ss, k)) => {
                if k < s.len() && s[k] == '}' {
                    Ok((GroupV { prefix, suffixes: ss }, k + 1))
                } else {
                    Err(Error::GrammarMismatch { at: k as usize })
                }
            },
        }
    }
}

/// A parsed group ends past where it began and within the input.
pub proof fn lemma_parse_group_bounds(s: Seq<char>, i: nat)
    requires
        spec_parse_group(s, i) is Ok,
    ensures
        i < spec_parse_group(s, i)->Ok_0.1 <= s.len(),
{
    lemma_scan_eq(s, i as int, '{');
    let j = scan_eq(s, i as int, '{');
    if 0 <= j < s.len() {
        lemma_parse_suffix_list_bounds(s, (j + 1) as nat);
    }
}

/// Parses one or more groups at position `i`, stopping (with one
/// character of lookahead, without consuming it) at the block end
/// symbol.
pub open spec fn spec_parse_groups(s: Seq<char>, i: nat) -> Result<(Seq<GroupV>, int), Error>
    decreases s.len() - i,
{
    match spec_parse_group(s, i) {
        Err(e) => Err(e),
        Ok((g, j)) => {
            if j < s.len() && s[j] == '❯' {
                Ok((seq![g], j))
            } else {
                let next = if j > i + 1 { j as nat } else { i + 1 };
                match spec_parse_groups(s, next) {
                    Err(e) => Err(e),
                    Ok((gs, k)) => Ok((seq![g] + gs, k)),
                }
            }
        },
    }
}

/// A successfully parsed group sequence is non-empty and ends on the
/// block end symbol.
pub proof fn lemma_parse_groups_bounds(s: Seq<char>, i: nat)
    requires
        spec_parse_groups(s, i) is Ok,
    ensures
        i < spec_parse_groups(s, i)->Ok_0.1 < s.len(),
        s[spec_parse_groups(s, i)->Ok_0.1] == '❯',
        spec_parse_groups(s, i)->Ok_0.0.len() >= 1,
    decreases s.len() - i,
{
    let r = spec_parse_group(s, i);
    lemma_parse_group_bounds(s, i);
    match r {
        Err(_) => (),
        Ok((g, j)) => {
            if j < s.len() && s[j] == '❯' {
            } else {
                let next = if j > i + 1 { j as nat } else { i + 1 };
                lemma_parse_groups_bounds(s, next);
            }
        },
    }
}

/// Parses a whole brex string: an optional preamble up to the block
/// start symbol, the bracketed groups, and a verbatim postamble after
/// the block end. Text without a block start symbol is a pure literal:
/// it all becomes the preamble.
pub open spec fn spec_parse_brex(s: Seq<char>) -> Result<BrexV, Error> {
    let b = scan_eq(s, 0, '❮');
    if b >= s.len() {
        let preamble = if s.len() == 0 { None } else { Some(s) };
        Ok(BrexV { preamble, groups: Seq::empty(), postamble: None })
    } else {
        let preamble = if b == 0 { None } else { Some(s.subrange(0, b)) };
        match spec_parse_groups(s, (b + 1) as nat) {
            Err(e) => Err(e),
            Ok((gs, k)) => {
                let postamble = if k + 1 >= s.len() {
                    None
                } else {
                    Some(s.subrange(k + 1, s.len() as int))
                };
                Ok(BrexV { preamble, groups: gs, postamble })
            },
        }
    }
}


/// Whether `c` is an ASCII decimal digit.
fn is_digit_char(c: char) -> (r: bool)
    ensures
        r == is_digit(c),
{
    c >= '0' && c <= '9'
}

/// Whether `c` ends a suffix text run.
fn is_suffix_stop_char(c: char) -> (r: bool)
    ensures
        r == is_suffix_stop(c),
{
    c == ',' || c == '{' || c == '}'
}

/// First index at or after `i` holding `d`, or the length if none does.
fn find_char(s: &str, i: usize, d: char) -> (j: usize)
    requires
        i as int <= s@.len(),
    ensures
        j as int == scan_eq(s@, i as int, d),
        i <= j,
        j as int <= s@.len(),
{
    let n = s.unicode_len();
    let mut j = i;
    while j < n && s.get_char(j) != d
        invariant
            i <= j <= n,
            n == s@.len(),
            forall|k: int| i <= k < j ==> #[trigger] s@[k] != d,
        decreases n - j,
    {
        j = j + 1;
    }
    proof {
        lemma_scan_eq_is(s@, i as int, d, j as int);
    }
    j
}

/// First index at or after `i` not holding a digit, or the length.
pub(crate) fn find_digit_end(s: &str, i: usize) -> (j: usize)
    requires
        i as int <= s@.len(),
    ensures
        j as int == scan_digit_end(s@, i as int),
        i <= j,
        j as int <= s@.len(),
{
    let n = s.unicode_len();
    let mut j = i;
    while j < n && is_digit_char(s.get_char(j))
        invariant
            i <= j <= n,
            n == s@.len(),
            forall|k: int| i <= k < j ==> is_digit(#[trigger] s@[k]),
        decreases n - j,
    {
        j = j + 1;
    }
    proof {
        lemma_scan_digit_end_is(s@, i as int, j as int);
    }
    j
}

/// First index at or after `i` ending a suffix text run, or the length.
fn find_suffix_end(s: &str, i: usize) -> (j: usize)
    requires
        i as int <= s@.len(),
    ensures
        j as int == scan_suffix_end(s@, i as int),
        i <= j,
        j as int <= s@.len(),
{
    let n = s.unicode_len();
    let mut j = i;
    while j < n && !is_suffix_stop_char(s.get_char(j))
        invariant
            i <= j <= n,
            n == s@.len(),
            forall|k: int| i <= k < j ==> !is_suffix_stop(#[trigger] s@[k]),
        decreases n - j,
    {
        j = j + 1;
    }
    proof {
        lemma_scan_suffix_end_is(s@, i as int, j as int);
    }
    j
}

/// Reads the digit run `[i, j)` as an unsigned 32-bit value, reporting
/// a run whose value does not fit.
pub(crate) fn parse_digits(s: &str, i: usize, j: usize) -> (r: Result<u32, Error>)
    requires
        i < j,
        j as int <= s@.len(),
        forall|k: int| i <= k < j ==> is_digit(#[trigger] s@[k]),
    ensures
        match r {
            Ok(v) => {
                &&& v as nat == digits_val(s@.subrange(i as int, j as int))
                &&& digits_val(s@.subrange(i as int, j as int)) <= u32::MAX
            },
            Err(e) => {
                &&& e == (Error::NumericOverflow { at: i })
                &&& digits_val(s@.subrange(i as int, j as int)) > u32::MAX
            },
        },
{
    let mut v: u64 = 0;
    let mut k: usize = i;
    proof {
        assert(s@.subrange(i as int, i as int) =~= Seq::<char>::empty());
    }
    while k < j
        invariant
            i <= k <= j,
            j as int <= s@.len(),
            forall|m: int| i <= m < j ==> is_digit(#[trigger] s@[m]),
            v as nat == digits_val(s@.subrange(i as int, k as int)),
            v <= u32::MAX as u64,
        decreases j - k,
    {
        let c = s.get_char(k);
        proof {
            assert(is_digit(s@[k as int]));
        }
        let d: u64 = (c as u32 - 48) as u64;
        let w = v * 10 + d;
        proof {
            assert(s@.subrange(i as int, k as int + 1).drop_last()
                =~= s@.subrange(i as int, k as int));
            assert(s@.subrange(i as int, k as int + 1).last() == s@[k as int]);
            assert(d as nat == crate::util::digit_val(s@[k as int]));
            assert(w as nat == digits_val(s@.subrange(i as int, k as int + 1)));
        }
        if w > u32::MAX as u64 {
            proof {
                crate::util::lemma_digits_val_mono(s@, i as int, k as int + 1, j as int);
            }
            return Err(Error::NumericOverflow { at: i });
        }
        v = w;
        k = k + 1;
    }
    Ok(v as u32)
}

/// Parses one numeric at position `i`.
fn parse_numeric_at(s: &str, i: usize) -> (r: Result<(Numeric, usize), Error>)
    requires
        i as int <= s@.len(),
    ensures
        match r {
            Ok((n, j)) => spec_parse_numeric(s@, i as nat) == Ok::<(Numeric, int), Error>((
                n,
                j as int,
            )),
            Err(e) => spec_parse_numeric(s@, i as nat) == Err::<(Numeric, int), Error>(e),
        },
{
    let n = s.unicode_len();
    let j = find_digit_end(s, i);
    if j == i {
        return Err(Error::GrammarMismatch { at: i });
    }
    proof {
        lemma_scan_digit_end(s@, i as int);
    }
    let v = match parse_digits(s, i, j) {
        Ok(v) => v,
        Err(e) => {
            return Err(e);
        },
    };
    if j < n && s.get_char(j) == '→' {
        let k = find_digit_end(s, j + 1);
        if k == j + 1 {
            return Err(Error::GrammarMismatch { at: j + 1 });
        }
        proof {
            lemma_scan_digit_end(s@, j as int + 1);
        }
        let w = match parse_digits(s, j + 1, k) {
            Ok(w) => w,
            Err(e) => {
                return Err(e);
            },
        };
        Ok((Numeric::Range(v, w), k))
    } else {
        Ok((Numeric::Single(v), j))
    }
}

/// Parses a non-empty numeric list at position `i`.
fn parse_numeric_list_at(s: &str, i: usize) -> (r: Result<(Vec<Numeric>, usize), Error>)
    requires
        i as int <= s@.len(),
    ensures
        match r {
            Ok((ns, j)) => spec_parse_numeric_list(s@, i as nat) == Ok::<
                (Seq<Numeric>, int),
                Error,
            >((ns@, j as int)),
            Err(e) => spec_parse_numeric_list(s@, i as nat) == Err::<(Seq<Numeric>, int), Error>(e),
        },
    decreases s@.len() - i,
{
    let n = s.unicode_len();
    match parse_numeric_at(s, i) {
        Err(e) => Err(e),
        Ok((num, j)) => {
            proof {
                lemma_parse_numeric_bounds(s@, i as nat);
            }
            if j < n && s.get_char(j) == ',' {
                match parse_numeric_list_at(s, j + 1) {
                    Err(e) => Err(e),
                    Ok((mut ns, k)) => {
                        let ghost tail = ns@;
                        ns.insert(0, num);
                        proof {
                            assert(ns@ =~= seq![num] + tail);
                        }
                        Ok((ns, k))
                    },
                }
            } else {
                let mut ns: Vec<Numeric> = Vec::new();
                ns.push(num);
                proof {
                    assert(ns@ =~= seq![num]);
                }
                Ok((ns, j))
            }
        },
    }
}

/// Parses one suffix at position `i`.
fn parse_suffix_at<'a>(s: &'a str, i: usize) -> (r: Result<(Suffix<'a>, usize), Error>)
    requires
        i as int <= s@.len(),
    ensures
        match r {
            Ok((sf, j)) => spec_parse_suffix(s@, i as nat) == Ok::<(SuffixV, int), Error>((
                sf@,
                j as int,
            )),
            Err(e) => spec_parse_suffix(s@, i as nat) == Err::<(SuffixV, int), Error>(e),
        },
{
    let n = s.unicode_len();
    let j = find_suffix_end(s, i);
    if j == i {
        return Err(Error::GrammarMismatch { at: i });
    }
    let text = s.substring_char(i, j);
    if j < n && s.get_char(j) == '{' {
        match parse_numeric_list_at(s, j + 1) {
            Err(e) => Err(e),
            Ok((ns, k)) => {
                if k < n && s.get_char(k) == '}' {
                    let sf = Suffix::numeric(text, ns);
                    proof {
                        assert(sf@ =~= spec_parse_suffix(s@, i as nat)->Ok_0.0);
                    }
                    Ok((sf, k + 1))
                } else {
                    Err(Error::GrammarMismatch { at: k })
                }
            },
        }
    } else {
        let sf = Suffix::simple(text);
        proof {
            assert(sf@ =~= spec_parse_suffix(s@, i as nat)->Ok_0.0);
        }
        Ok((sf, j))
    }
}

/// Parses a non-empty suffix list at position `i`.
fn parse_suffix_list_at<'a>(s: &'a str, i: usize) -> (r: Result<(Vec<Suffix<'a>>, usize), Error>)
    requires
        i as int <= s@.len(),
    ensures
        match r {
            Ok((ss, j)) => spec_parse_suffix_list(s@, i as nat) == Ok::<(Seq<SuffixV>, int), Error>(
                (suffixes_view(ss@), j as int),
            ),
            Err(e) => spec_parse_suffix_list(s@, i as nat) == Err::<(Seq<SuffixV>, int), Error>(e),
        },
    decreases s@.len() - i,
{
    let n = s.unicode_len();
    match parse_suffix_at(s, i) {
        Err(e) => Err(e),
        Ok((sf, j)) => {
            proof {
                lemma_parse_suffix_bounds(s@, i as nat);
            }
            if j < n && s.get_char(j) == ',' {
                match parse_suffix_list_at(s, j + 1) {
                    Err(e) => Err(e),
                    Ok((mut ss, k)) => {
                        let ghost tail = ss@;
                        let ghost sfv = sf@;
                        ss.insert(0, sf);
                        proof {
                            assert(suffixes_view(ss@) =~= seq![sfv] + suffixes_view(tail));
                        }
                        Ok((ss, k))
                    },
                }
            } else {
                let ghost sfv = sf@;
                let mut ss: Vec<Suffix<'a>> = Vec::new();
                ss.push(sf);
                proof {
                    assert(suffixes_view(ss@) =~= seq![sfv]);
                }
                Ok((ss, j))
            }
        },
    }
}

/// Parses one group at position `i`.
fn parse_group_at<'a>(s: &'a str, i: usize) -> (r: Result<(Group<'a>, usize), Error>)
    requires
        i as int <= s@.len(),
    ensures
        match r {
            Ok((g, j)) => spec_parse_group(s@, i as nat) == Ok::<(GroupV, int), Error>((
                g@,
                j as int,
            )),
            Err(e) => spec_parse_group(s@, i as nat) == Err::<(GroupV, int), Error>(e),
        },
{
    let n = s.unicode_len();
    let j = find_char(s, i, '{');
    if j >= n {
        return Err(Error::GrammarMismatch { at: i });
    }
    let prefix = s.substring_char(i, j);
    match parse_suffix_list_at(s, j + 1) {
        Err(e) => Err(e),
        Ok((ss, k)) => {
            if k < n && s.get_char(k) == '}' {
                let g = Group { prefix, suffixes: ss };
                proof {
                    assert(g@ =~= spec_parse_group(s@, i as nat)->Ok_0.0);
                }
                Ok((g, k + 1))
            } else {
                Err(Error::GrammarMismatch { at: k })
            }
        },
    }
}

/// Parses one or more groups at position `i`, stopping at the block end
/// symbol without consuming it.
fn parse_groups_at<'a>(s: &'a str, i: usize) -> (r: Result<(Vec<Group<'a>>, usize), Error>)
    requires
        i as int <= s@.len(),
    ensures
        match r {
            Ok((gs, j)) => spec_parse_groups(s@, i as nat) == Ok::<(Seq<GroupV>, int), Error>((
                groups_view(gs@),
                j as int,
            )),
            Err(e) => spec_parse_groups(s@, i as nat) == Err::<(Seq<GroupV>, int), Error>(e),
        },
    decreases s@.len() - i,
{
    let n = s.unicode_len();
    match parse_group_at(s, i) {
        Err(e) => Err(e),
        Ok((g, j)) => {
            proof {
                lemma_parse_group_bounds(s@, i as nat);
            }
            if j < n && s.get_char(j) == '❯' {
                let ghost gv = g@;
                let mut gs: Vec<Group<'a>> = Vec::new();
                gs.push(g);
                proof {
                    assert(groups_view(gs@) =~= seq![gv]);
                }
                Ok((gs, j))
            } else {
                match parse_groups_at(s, j) {
                    Err(e) => Err(e),
                    Ok((mut gs, k)) => {
                        let ghost tail = gs@;
                        let ghost gv = g@;
                        gs.insert(0, g);
                        proof {
                            assert(groups_view(gs@) =~= seq![gv] + groups_view(tail));
                        }
                        Ok((gs, k))
                    },
                }
            }
        },
    }
}

impl<'a> Brex<'a> {
    /// Parse a brex string: an optional preamble up to the block start
    /// symbol, the bracketed groups, and a verbatim postamble after the
    /// block end. Text without a block start symbol parses as a pure
    /// literal model. The result is exactly what the specification
    /// parser yields, success and failure alike.
    pub fn parse(input: &'a str) -> (r: Result<Self, Error>)
        ensures
            match r {
                Ok(m) => spec_parse_brex(input@) == Ok::<BrexV, Error>(m@),
                Err(e) => spec_parse_brex(input@) == Err::<BrexV, Error>(e),
            },
    {
        let n = input.unicode_len();
        let b = find_char(input, 0, '❮');
        if b >= n {
            let m = if n == 0 {
                Brex { preamble: None, groups: Vec::new(), postamble: None }
            } else {
                Brex { preamble: Some(input), groups: Vec::new(), postamble: None }
            };
            proof {
                assert(groups_view(Seq::<Group<'a>>::empty()) =~= Seq::<GroupV>::empty());
                assert(m@ =~~= spec_parse_brex(input@)->Ok_0);
            }
            return Ok(m);
        }
        let preamble = if b == 0 {
            None
        } else {
            Some(input.substring_char(0, b))
        };
        match parse_groups_at(input, b + 1) {
            Err(e) => Err(e),
            Ok((gs, k)) => {
                proof {
                    lemma_parse_groups_bounds(input@, (b + 1) as nat);
                }
                let postamble = if k + 1 >= n {
                    None
                } else {
                    Some(input.substring_char(k + 1, n))
                };
                let m = Brex { preamble, groups: gs, postamble };
                proof {
                    assert(m@ =~~= spec_parse_brex(input@)->Ok_0);
                }
                Ok(m)
            },
        }
    }
}

} // verus!
