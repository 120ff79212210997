//! The heuristic encoder: discovers repeated token-pair structure in a
//! raw string and folds it into the grammar model.

use vstd::prelude::*;
use vstd::string::*;
use crate::models::brex::{Brex, BrexV};
use crate::models::group::{groups_view, Group, GroupV};
use crate::models::numeric::Numeric;
use crate::models::suffix::{suffixes_view, Suffix, SuffixV};
use crate::parse::scan_digit_end;
use crate::util::{digits_val, is_digit, spec_tokenize, split_inclusive_start, str_eq};

verus! {

/// Error encoding a raw string.
#[derive(Debug, Clone, Copy, PartialEq, Eq, Structural)]
pub enum EncodeError {
    /// A candidate suffix carries a digit run that does not fit an
    /// unsigned 32-bit integer.
    NumericOverflow,
}

/// The views of a sequence of string slices.
pub open spec fn strs_view(ts: Seq<&str>) -> Seq<Seq<char>> {
    ts.map_values(|t: &str| t@)
}

/// The tokens at even positions.
pub open spec fn evens(ts: Seq<Seq<char>>) -> Seq<Seq<char>> {
    Seq::new(((ts.len() + 1) / 2) as nat, |k: int| ts[2 * k])
}

/// The tokens at odd positions.
pub open spec fn odds(ts: Seq<Seq<char>>) -> Seq<Seq<char>> {
    Seq::new((ts.len() / 2) as nat, |k: int| ts[2 * k + 1])
}

/// Extends a run-length encoding by one token.
pub open spec fn rle_push(runs: Seq<(Seq<char>, nat)>, t: Seq<char>) -> Seq<(Seq<char>, nat)> {
    if runs.len() > 0 && runs.last().0 == t {
        runs.update(runs.len() - 1, (t, (runs.last().1 + 1) as nat))
    } else {
        runs.push((t, 1nat))
    }
}

/// Run-length encoding of a token sequence: each maximal run of equal
/// consecutive tokens becomes one (token, count) entry.
pub open spec fn rle(ts: Seq<Seq<char>>) -> Seq<(Seq<char>, nat)>
    decreases ts.len(),
{
    if ts.len() == 0 {
        Seq::empty()
    } else {
        rle_push(rle(ts.drop_last()), ts.last())
    }
}

/// A run-length encoding has at most one entry per input token.
pub proof fn lemma_rle_len(ts: Seq<Seq<char>>)
    ensures
        rle(ts).len() <= ts.len(),
    decreases ts.len(),
{
    if ts.len() > 0 {
        lemma_rle_len(ts.drop_last());
    }
}

/// No run's count exceeds the number of input tokens.
pub proof fn lemma_rle_counts(ts: Seq<Seq<char>>)
    ensures
        forall|k: int| 0 <= k < rle(ts).len() ==> (#[trigger] rle(ts)[k]).1 <= ts.len(),
    decreases ts.len(),
{
    if ts.len() > 0 {
        let dl = ts.drop_last();
        lemma_rle_counts(dl);
        let runs = rle(dl);
        assert(rle(ts) == rle_push(runs, ts.last()));
        assert forall|k: int| 0 <= k < rle(ts).len() implies (#[trigger] rle(ts)[k]).1 <= ts.len() by {
            if runs.len() > 0 && runs.last().0 == ts.last() {
                if k == runs.len() - 1 {
                    assert(rle(ts)[k].1 == runs.last().1 + 1);
                } else {
                    assert(rle(ts)[k] == runs[k]);
                }
            } else {
                if k == runs.len() as int {
                    assert(rle(ts)[k].1 == 1);
                } else {
                    assert(rle(ts)[k] == runs[k]);
                }
            }
        }
    }
}

/// The first index at or after `i` of a run with a count above one, or
/// the length when no run repeats.
pub open spec fn first_repeat(runs: Seq<(Seq<char>, nat)>, i: int) -> int
    decreases runs.len() - i,
{
    if i < 0 || i >= runs.len() {
        runs.len() as int
    } else if runs[i].1 > 1 {
        i
    } else {
        first_repeat(runs, i + 1)
    }
}

/// `first_repeat` stays within bounds.
pub proof fn lemma_first_repeat_bounds(runs: Seq<(Seq<char>, nat)>, i: int)
    requires
        0 <= i <= runs.len(),
    ensures
        i <= first_repeat(runs, i) <= runs.len(),
    decreases runs.len() - i,
{
    if i < runs.len() && runs[i].1 <= 1 {
        lemma_first_repeat_bounds(runs, i + 1);
    }
}

/// A position with the characteristic properties of `first_repeat` is
/// its result.
pub proof fn lemma_first_repeat_is(runs: Seq<(Seq<char>, nat)>, i: int, j: int)
    requires
        0 <= i <= j <= runs.len(),
        forall|k: int| i <= k < j ==> (#[trigger] runs[k]).1 <= 1,
        j < runs.len() ==> runs[j].1 > 1,
    ensures
        first_repeat(runs, i) == j,
    decreases j - i,
{
    if i < j {
        lemma_first_repeat_is(runs, i + 1, j);
    }
}

/// How many consecutive (prefix, suffix) token pairs starting at `j`
/// share the prefix token `ts[j]`.
pub open spec fn pair_run_len(ts: Seq<Seq<char>>, j: int) -> nat
    decreases ts.len() - j,
{
    if j < 0 || j + 1 >= ts.len() {
        0
    } else {
        (1 + (if j + 3 < ts.len() && ts[j + 2] == ts[j] {
            pair_run_len(ts, j + 2)
        } else {
            0nat
        })) as nat
    }
}

/// A pair run fits inside the token sequence.
pub proof fn lemma_pair_run_len_bound(ts: Seq<Seq<char>>, j: int)
    requires
        0 <= j,
    ensures
        j + 1 < ts.len() ==> j + 2 * pair_run_len(ts, j) <= ts.len(),
    decreases ts.len() - j,
{
    if j + 1 < ts.len() && j + 3 < ts.len() && ts[j + 2] == ts[j] {
        lemma_pair_run_len_bound(ts, j + 2);
    }
}

/// The candidate suffix tokens of a run of `r` pairs starting at `j`:
/// the tokens right after each repetition of the prefix token.
pub open spec fn cands(ts: Seq<Seq<char>>, j: int, r: nat) -> Seq<Seq<char>> {
    Seq::new(r, |k: int| ts[j + 2 * k + 1])
}

/// Splits the tokens from `j` on into (prefix, candidate suffixes)
/// groups: each maximal run of pairs sharing a prefix token becomes one
/// group.
pub open spec fn collect_groups(ts: Seq<Seq<char>>, j: int) -> Seq<(Seq<char>, Seq<Seq<char>>)>
    decreases ts.len() - j,
{
    if j < 0 || j + 1 >= ts.len() {
        Seq::empty()
    } else {
        let r = pair_run_len(ts, j);
        let next = if j + 2 * r <= ts.len() {
            j + 2 * r
        } else {
            ts.len() as int
        };
        seq![(ts[j], cands(ts, j, r))] + collect_groups(ts, next)
    }
}

/// First index at or after `i` holding an ASCII digit, or the length.
pub open spec fn first_digit_pos(s: Seq<char>, i: int) -> int
    decreases s.len() - i,
{
    if i < 0 || i >= s.len() {
        s.len() as int
    } else if is_digit(s[i]) {
        i
    } else {
        first_digit_pos(s, i + 1)
    }
}

/// `first_digit_pos` stays within bounds.
pub proof fn lemma_first_digit_pos_bounds(s: Seq<char>, i: int)
    requires
        0 <= i <= s.len(),
    ensures
        i <= first_digit_pos(s, i) <= s.len(),
    decreases s.len() - i,
{
    if i < s.len() && !is_digit(s[i]) {
        lemma_first_digit_pos_bounds(s, i + 1);
    }
}

/// A position with the characteristic properties of `first_digit_pos` is
/// its result.
pub proof fn lemma_first_digit_pos_is(s: Seq<char>, i: int, j: int)
    requires
        0 <= i <= j <= s.len(),
        forall|k: int| i <= k < j ==> !is_digit(#[trigger] s[k]),
        j < s.len() ==> is_digit(s[j]),
    ensures
        first_digit_pos(s, i) == j,
    decreases j - i,
{
    if i < j {
        lemma_first_digit_pos_is(s, i + 1, j);
    }
}

/// Splits a candidate suffix at its first digit into a stem and the
/// trailing digit run. A candidate without digits, or whose digits do
/// not run to its end, stays one literal piece.
pub open spec fn split_stem(cand: Seq<char>) -> (Seq<char>, Option<Seq<char>>) {
    let f = first_digit_pos(cand, 0);
    if f >= cand.len() {
        (cand, None)
    } else if scan_digit_end(cand, f) == cand.len() {
        (cand.subrange(0, f), Some(cand.subrange(f, cand.len() as int)))
    } else {
        (cand, None)
    }
}

/// Whether some candidate suffix carries a digit run too large for an
/// unsigned 32-bit integer.
pub open spec fn has_overflow(cs: Seq<Seq<char>>) -> bool {
    exists|k: int|
        0 <= k < cs.len() && match split_stem(#[trigger] cs[k]).1 {
            Some(ds) => digits_val(ds) > u32::MAX,
            None => false,
        }
}

/// Whether any group's candidates overflow.
pub open spec fn any_overflow(gs: Seq<(Seq<char>, Seq<Seq<char>>)>) -> bool {
    exists|k: int| 0 <= k < gs.len() && has_overflow((#[trigger] gs[k]).1)
}

/// The first position at or after `i` in a sorted value list not below
/// `v`, or the length.
pub open spec fn num_ins_pos(vs: Seq<nat>, v: nat, i: int) -> int
    decreases vs.len() - i,
{
    if i < 0 || i >= vs.len() {
        vs.len() as int
    } else if vs[i] >= v {
        i
    } else {
        num_ins_pos(vs, v, i + 1)
    }
}

/// A position with the characteristic properties of `num_ins_pos` is its
/// result.
pub proof fn lemma_num_ins_pos_is(vs: Seq<nat>, v: nat, i: int, j: int)
    requires
        0 <= i <= j <= vs.len(),
        forall|k: int| i <= k < j ==> (#[trigger] vs[k]) < v,
        j < vs.len() ==> vs[j] >= v,
    ensures
        num_ins_pos(vs, v, i) == j,
    decreases j - i,
{
    if i < j {
        lemma_num_ins_pos_is(vs, v, i + 1, j);
    }
}

/// Inserts a value into an ascending duplicate-free list, keeping it
/// ascending and duplicate-free.
pub open spec fn insert_sorted(vs: Seq<nat>, v: nat) -> Seq<nat> {
    let p = num_ins_pos(vs, v, 0);
    if p < vs.len() && vs[p] == v {
        vs
    } else {
        vs.insert(p, v)
    }
}

/// The stem table: each distinct stem, in first-occurrence order, with
/// its collected values. `stem_pos` finds a stem's entry.
pub open spec fn stem_pos(tbl: Seq<(Seq<char>, Seq<nat>)>, stem: Seq<char>, i: int) -> int
    decreases tbl.len() - i,
{
    if i < 0 || i >= tbl.len() {
        tbl.len() as int
    } else if tbl[i].0 == stem {
        i
    } else {
        stem_pos(tbl, stem, i + 1)
    }
}

/// A position with the characteristic properties of `stem_pos` is its
/// result.
pub proof fn lemma_stem_pos_is(tbl: Seq<(Seq<char>, Seq<nat>)>, stem: Seq<char>, i: int, j: int)
    requires
        0 <= i <= j <= tbl.len(),
        forall|k: int| i <= k < j ==> (#[trigger] tbl[k]).0 != stem,
        j < tbl.len() ==> tbl[j].0 == stem,
    ensures
        stem_pos(tbl, stem, i) == j,
    decreases j - i,
{
    if i < j {
        lemma_stem_pos_is(tbl, stem, i + 1, j);
    }
}

/// Adds one value under its stem: into the stem's sorted value list, or
/// as a new entry at the end for a stem not seen before.
pub open spec fn add_value(
    tbl: Seq<(Seq<char>, Seq<nat>)>,
    stem: Seq<char>,
    v: nat,
) -> Seq<(Seq<char>, Seq<nat>)> {
    let p = stem_pos(tbl, stem, 0);
    if p < tbl.len() {
        tbl.update(p, (stem, insert_sorted(tbl[p].1, v)))
    } else {
        tbl.push((stem, seq![v]))
    }
}

/// One compaction step: a literal candidate joins the literal list, a
/// candidate with trailing digits adds its value under its stem.
pub open spec fn compact_step(
    acc: (Seq<Seq<char>>, Seq<(Seq<char>, Seq<nat>)>),
    cand: Seq<char>,
) -> (Seq<Seq<char>>, Seq<(Seq<char>, Seq<nat>)>) {
    let (stem, digits) = split_stem(cand);
    match digits {
        None => (acc.0.push(cand), acc.1),
        Some(ds) => (acc.0, add_value(acc.1, stem, digits_val(ds))),
    }
}

/// Compacts a group's candidate suffixes into its literal suffixes and
/// its stem table.
pub open spec fn compact_cands(cs: Seq<Seq<char>>) -> (Seq<Seq<char>>, Seq<(Seq<char>, Seq<nat>)>)
    decreases cs.len(),
{
    if cs.len() == 0 {
        (Seq::empty(), Seq::empty())
    } else {
        compact_step(compact_cands(cs.drop_last()), cs.last())
    }
}

/// Extends a merged numeric list by one value: fuses a value adjacent to
/// the last entry into it as a range, and opens a new single otherwise.
pub open spec fn merge_push(ns: Seq<Numeric>, v: nat) -> Seq<Numeric> {
    if ns.len() > 0 && ns.last().hi() + 1 == v {
        ns.update(ns.len() - 1, Numeric::Range(ns.last().lo() as u32, v as u32))
    } else {
        ns.push(Numeric::Single(v as u32))
    }
}

/// Merges an ascending value list into numerics: adjacent runs fuse into
/// ranges, isolated values stay single.
pub open spec fn merge_values(vs: Seq<nat>) -> Seq<Numeric>
    decreases vs.len(),
{
    if vs.len() == 0 {
        Seq::empty()
    } else {
        merge_push(merge_values(vs.drop_last()), vs.last())
    }
}

/// The literal suffixes, from position `i` on.
pub open spec fn literal_suffixes(ls: Seq<Seq<char>>, i: int) -> Seq<SuffixV>
    decreases ls.len() - i,
{
    if i < 0 || i >= ls.len() {
        Seq::empty()
    } else {
        seq![SuffixV { text: ls[i], numerics: None }] + literal_suffixes(ls, i + 1)
    }
}

/// The numeric-stem suffixes, from position `i` on, each carrying its
/// merged numerics.
pub open spec fn numeric_suffixes(tbl: Seq<(Seq<char>, Seq<nat>)>, i: int) -> Seq<SuffixV>
    decreases tbl.len() - i,
{
    if i < 0 || i >= tbl.len() {
        Seq::empty()
    } else {
        seq![SuffixV { text: tbl[i].0, numerics: Some(merge_values(tbl[i].1)) }]
            + numeric_suffixes(tbl, i + 1)
    }
}

/// Compacts one group: literal suffixes first, then the numeric stems in
/// first-occurrence order.
pub open spec fn compact_group(prefix: Seq<char>, cs: Seq<Seq<char>>) -> GroupV {
    let (ls, tbl) = compact_cands(cs);
    GroupV { prefix, suffixes: literal_suffixes(ls, 0) + numeric_suffixes(tbl, 0) }
}

/// Compacts the collected groups, from position `i` on.
pub open spec fn build_groups(gs: Seq<(Seq<char>, Seq<Seq<char>>)>, i: int) -> Seq<GroupV>
    decreases gs.len() - i,
{
    if i < 0 || i >= gs.len() {
        Seq::empty()
    } else {
        seq![compact_group(gs[i].0, gs[i].1)] + build_groups(gs, i + 1)
    }
}

/// The concatenation of the first `k` tokens.
pub open spec fn concat_front(ts: Seq<Seq<char>>, k: int) -> Seq<char>
    decreases k,
{
    if k <= 0 {
        Seq::empty()
    } else {
        concat_front(ts, k - 1) + ts[k - 1]
    }
}

/// The trailing literal marker the encoder detaches.
pub open spec fn bin_marker() -> Seq<char> {
    seq!['.', 'b', 'i', 'n']
}

/// Whether the raw input ends with the trailing literal marker.
pub open spec fn ends_with_bin(s: Seq<char>) -> bool {
    s.len() >= 4 && s.subrange(s.len() - 4, s.len() as int) == bin_marker()
}

/// The pure-literal model of an unencodable input: the whole original
/// string as preamble.
pub open spec fn literal_model(raw: Seq<char>) -> BrexV {
    BrexV { preamble: Some(raw), groups: Seq::empty(), postamble: None }
}

/// The encoder as a specification. A trailing literal marker is
/// detached as postamble; the rest splits into delimiter-inclusive
/// tokens; the token subsequence of one parity, run-length encoded,
/// supplies the group prefixes (the parity with fewer runs wins, even on
/// a tie); everything before the first repeating run stays literal
/// preamble; each run becomes one group whose candidate suffixes are
/// compacted by shared stem with merged numeric tails. Without any
/// repeating run (or with a dangling unpaired token) the whole original
/// string stays one literal preamble.
pub open spec fn spec_encode(raw: Seq<char>) -> Result<BrexV, EncodeError> {
    let line = if ends_with_bin(raw) {
        raw.subrange(0, raw.len() - 4)
    } else {
        raw
    };
    let post = if ends_with_bin(raw) {
        Some(bin_marker())
    } else {
        None::<Seq<char>>
    };
    let ts = spec_tokenize(line, '_');
    let a = rle(evens(ts));
    let b = rle(odds(ts));
    let offset: int = if a.len() <= b.len() {
        0
    } else {
        1
    };
    let best = if a.len() <= b.len() {
        a
    } else {
        b
    };
    let skip = first_repeat(best, 0);
    if skip >= best.len() {
        Ok(literal_model(raw))
    } else {
        let p = offset + 2 * skip;
        if p >= ts.len() || (ts.len() - p) % 2 != 0 {
            Ok(literal_model(raw))
        } else {
            let raw_groups = collect_groups(ts, p);
            if any_overflow(raw_groups) {
                Err(EncodeError::NumericOverflow)
            } else {
                let pre = concat_front(ts, p);
                Ok(BrexV {
                    preamble: if pre.len() == 0 {
                        None
                    } else {
                        Some(pre)
                    },
                    groups: build_groups(raw_groups, 0),
                    postamble: post,
                })
            }
        }
    }
}


/// The views of a sequence of (token, count) runs.
pub open spec fn runs_view(rs: Seq<(&str, usize)>) -> Seq<(Seq<char>, nat)> {
    rs.map_values(|r: (&str, usize)| (r.0@, r.1 as nat))
}

/// The views of the collected (prefix, candidates) groups.
pub open spec fn rgroups_view(gs: Seq<(&str, Vec<&str>)>) -> Seq<(Seq<char>, Seq<Seq<char>>)> {
    gs.map_values(|g: (&str, Vec<&str>)| (g.0@, strs_view(g.1@)))
}

/// `concat_front` over every token is the flattening of the tokens.
pub proof fn lemma_concat_front_full(ts: Seq<Seq<char>>)
    ensures
        concat_front(ts, ts.len() as int) == ts.flatten(),
    decreases ts.len(),
{
    broadcast use Seq::lemma_flatten_push;

    if ts.len() == 0 {
        assert(ts.flatten() =~= Seq::<char>::empty());
    } else {
        let dl = ts.drop_last();
        lemma_concat_front_full(dl);
        lemma_concat_front_agree(ts, dl, ts.len() - 1);
        assert(dl.push(ts.last()) =~= ts);
    }
}

/// `concat_front` only reads the first `k` tokens.
pub proof fn lemma_concat_front_agree(ts: Seq<Seq<char>>, us: Seq<Seq<char>>, k: int)
    requires
        forall|m: int| 0 <= m < k ==> ts[m] == us[m],
    ensures
        concat_front(ts, k) == concat_front(us, k),
    decreases k,
{
    if k > 0 {
        lemma_concat_front_agree(ts, us, k - 1);
    }
}

/// An earlier token front is a prefix of a later one.
pub proof fn lemma_concat_front_prefix(ts: Seq<Seq<char>>, p: int, m: int)
    requires
        0 <= p <= m,
    ensures
        concat_front(ts, p).is_prefix_of(concat_front(ts, m)),
    decreases m - p,
{
    if p < m {
        lemma_concat_front_prefix(ts, p, m - 1);
    }
}

/// Splits `line` into delimiter-inclusive tokens.
fn tokenize<'a>(line: &'a str) -> (r: Vec<&'a str>)
    ensures
        strs_view(r@) == spec_tokenize(line@, '_'),
{
    let mut splitter = split_inclusive_start(line, '_');
    let mut tokens: Vec<&'a str> = Vec::new();
    proof {
        assert(strs_view(tokens@) =~= Seq::<Seq<char>>::empty());
        assert(strs_view(tokens@) + spec_tokenize(line@, '_') =~= spec_tokenize(line@, '_'));
    }
    while !splitter.remainder.is_empty()
        invariant
            splitter.delim == '_',
            spec_tokenize(line@, '_')
                == strs_view(tokens@) + spec_tokenize(splitter.remainder@, '_'),
        decreases splitter.remainder@.len(),
    {
        let ghost before = strs_view(tokens@);
        match splitter.next() {
            Some(piece) => {
                tokens.push(piece);
                proof {
                    assert(strs_view(tokens@) =~= before + seq![piece@]);
                    assert(before + (seq![piece@] + spec_tokenize(splitter.remainder@, '_'))
                        =~= strs_view(tokens@) + spec_tokenize(splitter.remainder@, '_'));
                }
            },
            None => {
                proof {
                    assert(false);
                }
            },
        }
    }
    proof {
        assert(spec_tokenize(splitter.remainder@, '_') =~= Seq::<Seq<char>>::empty());
        assert(strs_view(tokens@) + Seq::<Seq<char>>::empty() =~= strs_view(tokens@));
    }
    tokens
}

/// Taking one more token extends the even or the odd subsequence,
/// according to the token's parity.
proof fn lemma_parity_take(ts: Seq<Seq<char>>, i: int)
    requires
        0 <= i < ts.len(),
    ensures
        i % 2 == 0 ==> evens(ts.take(i + 1)) == evens(ts.take(i)).push(ts[i]),
        i % 2 == 1 ==> evens(ts.take(i + 1)) == evens(ts.take(i)),
        i % 2 == 1 ==> odds(ts.take(i + 1)) == odds(ts.take(i)).push(ts[i]),
        i % 2 == 0 ==> odds(ts.take(i + 1)) == odds(ts.take(i)),
{
    if i % 2 == 0 {
        assert(evens(ts.take(i + 1)) =~= evens(ts.take(i)).push(ts[i]));
        assert(odds(ts.take(i + 1)) =~= odds(ts.take(i)));
    } else {
        assert(evens(ts.take(i + 1)) =~= evens(ts.take(i)));
        assert(odds(ts.take(i + 1)) =~= odds(ts.take(i)).push(ts[i]));
    }
}

/// Partitions the tokens by position parity and run-length encodes each
/// subsequence.
fn rle_split<'a>(tokens: &Vec<&'a str>) -> (r: (Vec<(&'a str, usize)>, Vec<(&'a str, usize)>))
    ensures
        runs_view(r.0@) == rle(evens(strs_view(tokens@))),
        runs_view(r.1@) == rle(odds(strs_view(tokens@))),
{
    let ghost tv = strs_view(tokens@);
    let mut a: Vec<(&'a str, usize)> = Vec::new();
    let mut b: Vec<(&'a str, usize)> = Vec::new();
    let mut i: usize = 0;
    proof {
        assert(tv.take(0) =~= Seq::<Seq<char>>::empty());
        assert(evens(tv.take(0)) =~= Seq::<Seq<char>>::empty());
        assert(odds(tv.take(0)) =~= Seq::<Seq<char>>::empty());
        assert(runs_view(a@) =~= rle(evens(tv.take(0))));
        assert(runs_view(b@) =~= rle(odds(tv.take(0))));
    }
    while i < tokens.len()
        invariant
            0 <= i <= tokens.len(),
            tv == strs_view(tokens@),
            tv.len() == tokens.len(),
            runs_view(a@) == rle(evens(tv.take(i as int))),
            runs_view(b@) == rle(odds(tv.take(i as int))),
        decreases tokens.len() - i,
    {
        let part = tokens[i];
        proof {
            assert(tv[i as int] == part@);
            lemma_parity_take(tv, i as int);
            lemma_rle_counts(evens(tv.take(i as int)));
            lemma_rle_counts(odds(tv.take(i as int)));
            assert forall|k: int| 0 <= k < a@.len() implies (#[trigger] a@[k]).1 < usize::MAX by {
                assert(runs_view(a@)[k] == (a@[k].0@, a@[k].1 as nat));
            }
            assert forall|k: int| 0 <= k < b@.len() implies (#[trigger] b@[k]).1 < usize::MAX by {
                assert(runs_view(b@)[k] == (b@[k].0@, b@[k].1 as nat));
            }
        }
        if i % 2 == 0 {
            let ghost ev = evens(tv.take(i as int));
            proof {
                assert(rle(ev.push(part@)) == rle_push(rle(ev), part@)) by {
                    assert(ev.push(part@).drop_last() =~= ev);
                };
            }
            rle_step(&mut a, part);
        } else {
            let ghost ov = odds(tv.take(i as int));
            proof {
                assert(rle(ov.push(part@)) == rle_push(rle(ov), part@)) by {
                    assert(ov.push(part@).drop_last() =~= ov);
                };
            }
            rle_step(&mut b, part);
        }
        i = i + 1;
    }
    proof {
        assert(tv.take(tv.len() as int) =~= tv);
    }
    (a, b)
}

/// Extends one run-length encoding by one token.
fn rle_step<'a>(set: &mut Vec<(&'a str, usize)>, part: &'a str)
    requires
        forall|k: int| 0 <= k < old(set)@.len() ==> (#[trigger] old(set)@[k]).1 < usize::MAX,
    ensures
        runs_view(final(set)@) == rle_push(runs_view(old(set)@), part@),
{
    let ghost before = runs_view(set@);
    if set.len() > 0 {
        let (ls, lc) = set[set.len() - 1];
        if str_eq(ls, part) {
            let _ = set.pop();
            set.push((ls, lc + 1));
            proof {
                assert(runs_view(set@) =~= rle_push(before, part@));
            }
            return;
        }
    }
    set.push((part, 1));
    proof {
        assert(runs_view(set@) =~= rle_push(before, part@));
    }
}


/// The length of the run of consecutive pairs sharing the prefix token
/// at `j`.
fn pair_run<'a>(tokens: &Vec<&'a str>, j: usize) -> (r: usize)
    requires
        j + 1 < tokens.len(),
    ensures
        r as nat == pair_run_len(strs_view(tokens@), j as int),
        r >= 1,
        j + 2 * r <= tokens.len(),
    decreases tokens.len() - j,
{
    let ghost tv = strs_view(tokens@);
    proof {
        assert(tv[j as int] == tokens@[j as int]@);
        lemma_pair_run_len_bound(tv, j as int);
    }
    if tokens.len() - j > 3 && str_eq(tokens[j + 2], tokens[j]) {
        proof {
            assert(tv[j as int + 2] == tokens@[j as int + 2]@);
        }
        let rest = pair_run(tokens, j + 2);
        1 + rest
    } else {
        1
    }
}

/// Collects the (prefix, candidate suffixes) groups from token position
/// `p` on.
fn collect_groups_exec<'a>(tokens: &Vec<&'a str>, p: usize) -> (r: Vec<(&'a str, Vec<&'a str>)>)
    requires
        p <= tokens.len(),
    ensures
        rgroups_view(r@) == collect_groups(strs_view(tokens@), p as int),
{
    let ghost tv = strs_view(tokens@);
    let mut out: Vec<(&'a str, Vec<&'a str>)> = Vec::new();
    let mut j = p;
    proof {
        assert(rgroups_view(out@) =~= Seq::<(Seq<char>, Seq<Seq<char>>)>::empty());
        assert(rgroups_view(out@) + collect_groups(tv, p as int)
            =~= collect_groups(tv, p as int));
    }
    while tokens.len() - j > 1
        invariant
            p <= j,
            j <= tokens.len(),
            tv == strs_view(tokens@),
            tv.len() == tokens.len(),
            collect_groups(tv, p as int) == rgroups_view(out@) + collect_groups(tv, j as int),
        decreases tokens.len() - j,
    {
        let r = pair_run(tokens, j);
        let mut cs: Vec<&'a str> = Vec::new();
        let mut k: usize = 0;
        proof {
            assert(strs_view(cs@) =~= Seq::<Seq<char>>::empty());
        }
        while k < r
            invariant
                0 <= k <= r,
                j + 2 * r <= tokens.len(),
                tv == strs_view(tokens@),
                tv.len() == tokens.len(),
                strs_view(cs@) == cands(tv, j as int, k as nat),
                cs@.len() == k,
            decreases r - k,
        {
            let ghost before = strs_view(cs@);
            cs.push(tokens[j + 2 * k + 1]);
            proof {
                assert(tv[j as int + 2 * (k as int) + 1] == tokens@[j as int + 2 * (k as int) + 1]@);
                assert(strs_view(cs@) =~= before.push(tv[j as int + 2 * (k as int) + 1]));
                assert(strs_view(cs@) =~= cands(tv, j as int, (k + 1) as nat));
            }
            k = k + 1;
        }
        let ghost before = rgroups_view(out@);
        let prefix = tokens[j];
        out.push((prefix, cs));
        proof {
            assert(tv[j as int] == prefix@);
            assert(rgroups_view(out@) =~= before + seq![(prefix@, cands(tv, j as int, r as nat))]);
            assert(collect_groups(tv, j as int)
                == seq![(tv[j as int], cands(tv, j as int, pair_run_len(tv, j as int)))]
                    + collect_groups(tv, j as int + 2 * (r as int)));
            assert(before + (seq![(prefix@, cands(tv, j as int, r as nat))]
                + collect_groups(tv, j as int + 2 * (r as int)))
                =~= rgroups_view(out@) + collect_groups(tv, j as int + 2 * (r as int)));
        }
        j = j + 2 * r;
    }
    proof {
        assert(collect_groups(tv, j as int) =~= Seq::<(Seq<char>, Seq<Seq<char>>)>::empty());
        assert(rgroups_view(out@) + Seq::<(Seq<char>, Seq<Seq<char>>)>::empty()
            =~= rgroups_view(out@));
    }
    out
}

/// Whether one candidate's digit run overflows.
pub open spec fn cand_overflow(c: Seq<char>) -> bool {
    match split_stem(c).1 {
        Some(ds) => digits_val(ds) > u32::MAX,
        None => false,
    }
}

/// First index at or after `i` holding an ASCII digit, or the length.
fn find_first_digit(s: &str, i: usize) -> (j: usize)
    requires
        i as int <= s@.len(),
    ensures
        j as int == first_digit_pos(s@, i as int),
        i <= j,
        j as int <= s@.len(),
{
    let n = s.unicode_len();
    let mut j = i;
    while j < n && !(s.get_char(j) >= '0' && s.get_char(j) <= '9')
        invariant
            i <= j <= n,
            n == s@.len(),
            forall|k: int| i <= k < j ==> !is_digit(#[trigger] s@[k]),
        decreases n - j,
    {
        j = j + 1;
    }
    proof {
        lemma_first_digit_pos_is(s@, i as int, j as int);
    }
    j
}

/// Splits one candidate suffix: the full text when it stays literal, or
/// its stem and parsed trailing value.
fn split_cand<'a>(cand: &'a str) -> (r: Result<(&'a str, Option<u32>), EncodeError>)
    ensures
        match r {
            Ok((stem, ov)) => match ov {
                Some(v) => {
                    &&& !cand_overflow(cand@)
                    &&& split_stem(cand@).0 == stem@
                    &&& split_stem(cand@).1 matches Some(ds) && digits_val(ds) == v as nat
                },
                None => {
                    &&& !cand_overflow(cand@)
                    &&& split_stem(cand@) == (cand@, None::<Seq<char>>)
                    &&& stem@ == cand@
                },
            },
            Err(e) => e == EncodeError::NumericOverflow && cand_overflow(cand@),
        },
{
    let n = cand.unicode_len();
    let f = find_first_digit(cand, 0);
    if f == n {
        return Ok((cand, None));
    }
    let e = crate::parse::find_digit_end(cand, f);
    if e < n {
        return Ok((cand, None));
    }
    proof {
        crate::parse::lemma_scan_digit_end(cand@, f as int);
        assert(is_digit(cand@[f as int]));
    }
    match crate::parse::parse_digits(cand, f, e) {
        Ok(v) => {
            let stem = cand.substring_char(0, f);
            Ok((stem, Some(v)))
        },
        Err(_) => Err(EncodeError::NumericOverflow),
    }
}

/// The views of a sorted value list.
pub open spec fn u32s_view(vs: Seq<u32>) -> Seq<nat> {
    vs.map_values(|v: u32| v as nat)
}

/// Inserts a value into an ascending duplicate-free list.
fn insert_value(vs: &mut Vec<u32>, v: u32)
    ensures
        u32s_view(final(vs)@) == insert_sorted(u32s_view(old(vs)@), v as nat),
{
    let ghost before = u32s_view(vs@);
    let mut j: usize = 0;
    while j < vs.len() && vs[j] < v
        invariant
            0 <= j <= vs.len(),
            before == u32s_view(vs@),
            forall|k: int| 0 <= k < j ==> (#[trigger] before[k]) < v as nat,
        decreases vs.len() - j,
    {
        proof {
            assert(before[j as int] == vs@[j as int] as nat);
        }
        j = j + 1;
    }
    proof {
        if (j as int) < before.len() {
            assert(before[j as int] == vs@[j as int] as nat);
        }
        lemma_num_ins_pos_is(before, v as nat, 0, j as int);
    }
    if j < vs.len() && vs[j] == v {
        proof {
            assert(before[j as int] == vs@[j as int] as nat);
            assert(u32s_view(vs@) == insert_sorted(before, v as nat));
        }
        return;
    }
    proof {
        if (j as int) < before.len() {
            assert(before[j as int] == vs@[j as int] as nat);
        }
    }
    vs.insert(j, v);
    proof {
        assert(u32s_view(vs@) =~= before.insert(j as int, v as nat));
    }
}

/// Merges an ascending value list into numerics: adjacent runs fuse into
/// ranges, isolated values stay single.
fn merge_values_exec(vs: &Vec<u32>) -> (r: Vec<Numeric>)
    ensures
        r@ == merge_values(u32s_view(vs@)),
{
    let ghost vv = u32s_view(vs@);
    let mut out: Vec<Numeric> = Vec::new();
    let mut i: usize = 0;
    proof {
        assert(vv.take(0) =~= Seq::<nat>::empty());
        assert(out@ =~= merge_values(vv.take(0)));
    }
    while i < vs.len()
        invariant
            0 <= i <= vs.len(),
            vv == u32s_view(vs@),
            vv.len() == vs.len(),
            out@ == merge_values(vv.take(i as int)),
        decreases vs.len() - i,
    {
        let v = vs[i];
        let ghost prev = merge_values(vv.take(i as int));
        proof {
            assert(vv[i as int] == v as nat);
            assert(vv.take(i as int + 1).drop_last() =~= vv.take(i as int));
            assert(merge_values(vv.take(i as int + 1)) == merge_push(prev, v as nat));
        }
        if out.len() > 0 {
            let last = out[out.len() - 1];
            if last.end() as u64 + 1 == v as u64 {
                let _ = out.pop();
                out.push(Numeric::Range(last.start(), v));
                proof {
                    assert(out@ =~= merge_push(prev, v as nat));
                }
            } else {
                out.push(Numeric::Single(v));
                proof {
                    assert(out@ =~= merge_push(prev, v as nat));
                }
            }
        } else {
            out.push(Numeric::Single(v));
            proof {
                assert(out@ =~= merge_push(prev, v as nat));
            }
        }
        i = i + 1;
    }
    proof {
        assert(vv.take(vv.len() as int) =~= vv);
    }
    out
}

/// The views of the stem table.
pub open spec fn tbl_view(t: Seq<(&str, Vec<u32>)>) -> Seq<(Seq<char>, Seq<nat>)> {
    t.map_values(|e: (&str, Vec<u32>)| (e.0@, u32s_view(e.1@)))
}

/// Compacts one group's candidate suffixes: literal suffixes first, then
/// the numeric stems in first-occurrence order, each with its merged
/// numeric list; a candidate whose digit run overflows fails the encode.
fn compact_group_exec<'a>(prefix: &'a str, cs: &Vec<&'a str>) -> (r: Result<
    Group<'a>,
    EncodeError,
>)
    ensures
        match r {
            Ok(g) => g@ == compact_group(prefix@, strs_view(cs@)) && !has_overflow(strs_view(cs@)),
            Err(e) => e == EncodeError::NumericOverflow && has_overflow(strs_view(cs@)),
        },
{
    let ghost cv = strs_view(cs@);
    let mut lits: Vec<&'a str> = Vec::new();
    let mut tbl: Vec<(&'a str, Vec<u32>)> = Vec::new();
    let mut i: usize = 0;
    proof {
        assert(cv.take(0) =~= Seq::<Seq<char>>::empty());
        assert(strs_view(lits@) =~= compact_cands(cv.take(0)).0);
        assert(tbl_view(tbl@) =~= compact_cands(cv.take(0)).1);
    }
    while i < cs.len()
        invariant
            0 <= i <= cs.len(),
            cv == strs_view(cs@),
            cv.len() == cs.len(),
            strs_view(lits@) == compact_cands(cv.take(i as int)).0,
            tbl_view(tbl@) == compact_cands(cv.take(i as int)).1,
            forall|k: int| 0 <= k < i ==> !cand_overflow(#[trigger] cv[k]),
        decreases cs.len() - i,
    {
        let cand = cs[i];
        let ghost prev = compact_cands(cv.take(i as int));
        proof {
            assert(cv[i as int] == cand@);
            assert(cv.take(i as int + 1).drop_last() =~= cv.take(i as int));
            assert(compact_cands(cv.take(i as int + 1)) == compact_step(prev, cand@));
        }
        match split_cand(cand) {
            Err(e) => {
                proof {
                    assert(cand_overflow(cv[i as int]));
                }
                return Err(e);
            },
            Ok((stem, ov)) => {
                match ov {
                    None => {
                        let ghost before = strs_view(lits@);
                        lits.push(cand);
                        proof {
                            assert(strs_view(lits@) =~= before.push(cand@));
                        }
                    },
                    Some(v) => {
                        let ghost tv0 = tbl_view(tbl@);
                        let ghost stemv = stem@;
                        let mut k: usize = 0;
                        while k < tbl.len() && !str_eq(tbl[k].0, stem)
                            invariant
                                0 <= k <= tbl.len(),
                                tv0 == tbl_view(tbl@),
                                tv0.len() == tbl.len(),
                                stemv == stem@,
                                forall|m: int| 0 <= m < k ==> (#[trigger] tv0[m]).0 != stemv,
                            decreases tbl.len() - k,
                        {
                            proof {
                                assert(tv0[k as int].0 == tbl@[k as int].0@);
                            }
                            k = k + 1;
                        }
                        proof {
                            if (k as int) < tv0.len() {
                                assert(tv0[k as int].0 == tbl@[k as int].0@);
                            }
                            lemma_stem_pos_is(tv0, stemv, 0, k as int);
                        }
                        if k < tbl.len() {
                            let (st, mut vals) = tbl.remove(k);
                            insert_value(&mut vals, v);
                            tbl.insert(k, (st, vals));
                            proof {
                                assert(tbl_view(tbl@) =~= tv0.update(
                                    k as int,
                                    (stemv, insert_sorted(tv0[k as int].1, v as nat)),
                                ));
                            }
                        } else {
                            let mut vals: Vec<u32> = Vec::new();
                            vals.push(v);
                            tbl.push((stem, vals));
                            proof {
                                assert(u32s_view(vals@) =~= seq![v as nat]);
                                assert(tbl_view(tbl@) =~= tv0.push((stemv, seq![v as nat])));
                            }
                        }
                        proof {
                            assert(tbl_view(tbl@) =~= add_value(tv0, stemv, v as nat));
                        }
                    },
                }
            },
        }
        i = i + 1;
    }
    proof {
        assert(cv.take(cv.len() as int) =~= cv);
        assert(!has_overflow(cv));
    }
    let ghost lv = strs_view(lits@);
    let ghost tv = tbl_view(tbl@);
    let mut suffixes: Vec<Suffix<'a>> = Vec::new();
    let mut k: usize = 0;
    proof {
        assert(suffixes_view(suffixes@) =~= Seq::<SuffixV>::empty());
        assert(suffixes_view(suffixes@) + literal_suffixes(lv, 0) =~= literal_suffixes(lv, 0));
    }
    while k < lits.len()
        invariant
            0 <= k <= lits.len(),
            lv == strs_view(lits@),
            lv.len() == lits.len(),
            literal_suffixes(lv, 0) == suffixes_view(suffixes@) + literal_suffixes(lv, k as int),
        decreases lits.len() - k,
    {
        let ghost before = suffixes_view(suffixes@);
        suffixes.push(Suffix::simple(lits[k]));
        proof {
            assert(lv[k as int] == lits@[k as int]@);
            assert(literal_suffixes(lv, k as int)
                == seq![SuffixV { text: lv[k as int], numerics: None }]
                    + literal_suffixes(lv, k as int + 1));
            assert(suffixes_view(suffixes@)
                =~= before + seq![SuffixV { text: lv[k as int], numerics: None }]);
            assert(before + (seq![SuffixV { text: lv[k as int], numerics: None }]
                + literal_suffixes(lv, k as int + 1))
                =~= suffixes_view(suffixes@) + literal_suffixes(lv, k as int + 1));
        }
        k = k + 1;
    }
    proof {
        assert(literal_suffixes(lv, lv.len() as int) =~= Seq::<SuffixV>::empty());
        assert(suffixes_view(suffixes@) + Seq::<SuffixV>::empty() =~= suffixes_view(suffixes@));
        assert(suffixes_view(suffixes@) + numeric_suffixes(tv, 0)
            =~= literal_suffixes(lv, 0) + numeric_suffixes(tv, 0));
    }
    let mut k2: usize = 0;
    while k2 < tbl.len()
        invariant
            0 <= k2 <= tbl.len(),
            lv == strs_view(lits@),
            tv == tbl_view(tbl@),
            tv.len() == tbl.len(),
            literal_suffixes(lv, 0) + numeric_suffixes(tv, 0)
                == suffixes_view(suffixes@) + numeric_suffixes(tv, k2 as int),
        decreases tbl.len() - k2,
    {
        let ghost before = suffixes_view(suffixes@);
        let merged = merge_values_exec(&tbl[k2].1);
        suffixes.push(Suffix::numeric(tbl[k2].0, merged));
        proof {
            assert(tv[k2 as int] == (tbl@[k2 as int].0@, u32s_view(tbl@[k2 as int].1@)));
            assert(numeric_suffixes(tv, k2 as int)
                == seq![SuffixV { text: tv[k2 as int].0, numerics: Some(merge_values(tv[k2 as int].1)) }]
                    + numeric_suffixes(tv, k2 as int + 1));
            assert(suffixes_view(suffixes@) =~= before
                + seq![SuffixV { text: tv[k2 as int].0, numerics: Some(merge_values(tv[k2 as int].1)) }]);
            assert(before + (seq![SuffixV {
                text: tv[k2 as int].0,
                numerics: Some(merge_values(tv[k2 as int].1)),
            }] + numeric_suffixes(tv, k2 as int + 1))
                =~= suffixes_view(suffixes@) + numeric_suffixes(tv, k2 as int + 1));
        }
        k2 = k2 + 1;
    }
    proof {
        assert(numeric_suffixes(tv, tv.len() as int) =~= Seq::<SuffixV>::empty());
        assert(suffixes_view(suffixes@) + Seq::<SuffixV>::empty() =~= suffixes_view(suffixes@));
    }
    let g = Group { prefix, suffixes };
    proof {
        assert(g@ =~~= compact_group(prefix@, cv));
    }
    Ok(g)
}


/// Encodes a raw string into the grammar model, exactly as the
/// specification encoder describes: a trailing literal marker is
/// detached as postamble, the delimiter-inclusive tokens are split by
/// position parity, the parity with fewer runs supplies the group
/// prefixes, everything before the first repeating run stays literal
/// preamble, and each run becomes one group with stem-compacted
/// suffixes. An input without repeated structure (or with a dangling
/// unpaired token) degrades gracefully to the pure-literal model; the
/// one failure is a candidate digit run that does not fit an unsigned
/// 32-bit integer.
#[verifier::loop_isolation(false)]
#[verifier::rlimit(50)]
pub fn encode<'a>(raw: &'a str) -> (r: Result<Brex<'a>, EncodeError>)
    ensures
        match r {
            Ok(m) => spec_encode(raw@) == Ok::<BrexV, EncodeError>(m@),
            Err(e) => spec_encode(raw@) == Err::<BrexV, EncodeError>(e),
        },
{
    let n = raw.unicode_len();
    let has_bin = if n >= 4 {
        raw.get_char(n - 4) == '.' && raw.get_char(n - 3) == 'b' && raw.get_char(n - 2) == 'i'
            && raw.get_char(n - 1) == 'n'
    } else {
        false
    };
    proof {
        if n >= 4 {
            let sub = raw@.subrange(n as int - 4, n as int);
            assert(sub[0] == raw@[n as int - 4]);
            assert(sub[1] == raw@[n as int - 3]);
            assert(sub[2] == raw@[n as int - 2]);
            assert(sub[3] == raw@[n as int - 1]);
            if has_bin {
                assert(sub =~= bin_marker());
            } else {
                if sub == bin_marker() {
                    assert(sub[0] == '.' && sub[1] == 'b' && sub[2] == 'i' && sub[3] == 'n');
                }
            }
        }
        assert(has_bin == ends_with_bin(raw@));
    }
    let line: &'a str;
    let post: Option<&'a str>;
    if has_bin {
        line = raw.substring_char(0, n - 4);
        post = Some(raw.substring_char(n - 4, n));
    } else {
        line = raw;
        post = None;
    }
    let tokens = tokenize(line);
    let ghost tv = strs_view(tokens@);
    let ntok = tokens.len();
    let (a, b) = rle_split(&tokens);
    let use_a = a.len() <= b.len();
    let offset: usize = if use_a {
        0
    } else {
        1
    };
    let best: &Vec<(&'a str, usize)> = if use_a {
        &a
    } else {
        &b
    };
    let ghost bestv = runs_view(best@);
    let mut skip: usize = 0;
    while skip < best.len() && best[skip].1 <= 1
        invariant
            0 <= skip <= best.len(),
            bestv == runs_view(best@),
            bestv.len() == best.len(),
            forall|k: int| 0 <= k < skip ==> (#[trigger] bestv[k]).1 <= 1,
        decreases best.len() - skip,
    {
        proof {
            assert(bestv[skip as int] == (best@[skip as int].0@, best@[skip as int].1 as nat));
        }
        skip = skip + 1;
    }
    proof {
        if (skip as int) < bestv.len() {
            assert(bestv[skip as int] == (best@[skip as int].0@, best@[skip as int].1 as nat));
        }
        lemma_first_repeat_is(bestv, 0, skip as int);
    }
    if skip == best.len() {
        let m = Brex::empty(raw);
        proof {
            assert(m@ =~~= literal_model(raw@));
        }
        return Ok(m);
    }
    proof {
        lemma_rle_len(evens(tv));
        lemma_rle_len(odds(tv));
        assert(evens(tv).len() == (tv.len() + 1) / 2);
        assert(2 * bestv.len() <= tv.len() + 1);
        assert(offset + 2 * skip <= ntok);
    }
    let p = offset + 2 * skip;
    if p >= ntok {
        let m = Brex::empty(raw);
        proof {
            assert(m@ =~~= literal_model(raw@));
        }
        return Ok(m);
    }
    if (ntok - p) % 2 != 0 {
        let m = Brex::empty(raw);
        proof {
            assert(m@ =~~= literal_model(raw@));
        }
        return Ok(m);
    }
    let rgroups = collect_groups_exec(&tokens, p);
    let ghost rgv = collect_groups(tv, p as int);
    let mut groups: Vec<Group<'a>> = Vec::new();
    let mut k: usize = 0;
    proof {
        assert(groups_view(groups@) =~= Seq::<GroupV>::empty());
        assert(groups_view(groups@) + build_groups(rgv, 0) =~= build_groups(rgv, 0));
    }
    while k < rgroups.len()
        invariant
            0 <= k <= rgroups.len(),
            rgv == rgroups_view(rgroups@),
            rgv.len() == rgroups.len(),
            build_groups(rgv, 0) == groups_view(groups@) + build_groups(rgv, k as int),
            forall|m: int| 0 <= m < k ==> !has_overflow((#[trigger] rgv[m]).1),
        decreases rgroups.len() - k,
    {
        let ghost before = groups_view(groups@);
        proof {
            assert(rgv[k as int]
                == (rgroups@[k as int].0@, strs_view(rgroups@[k as int].1@)));
            assert(build_groups(rgv, k as int)
                == seq![compact_group(rgv[k as int].0, rgv[k as int].1)]
                    + build_groups(rgv, k as int + 1));
        }
        match compact_group_exec(rgroups[k].0, &rgroups[k].1) {
            Err(e) => {
                proof {
                    assert(has_overflow(rgv[k as int].1));
                    assert(any_overflow(rgv));
                    assert(spec_encode(raw@) == Err::<BrexV, EncodeError>(
                        EncodeError::NumericOverflow,
                    ));
                }
                return Err(e);
            },
            Ok(g) => {
                groups.push(g);
                proof {
                    assert(groups_view(groups@) =~= before + seq![g@]);
                    assert(before + (seq![compact_group(rgv[k as int].0, rgv[k as int].1)]
                        + build_groups(rgv, k as int + 1))
                        =~= groups_view(groups@) + build_groups(rgv, k as int + 1));
                }
            },
        }
        k = k + 1;
    }
    proof {
        assert(build_groups(rgv, rgv.len() as int) =~= Seq::<GroupV>::empty());
        assert(groups_view(groups@) + Seq::<GroupV>::empty() =~= groups_view(groups@));
        assert(!any_overflow(rgv));
    }
    let mut pre_len: usize = 0;
    let mut t: usize = 0;
    proof {
        crate::util::lemma_tokenize(line@, '_');
        lemma_concat_front_full(tv);
        assert(concat_front(tv, tv.len() as int) == line@);
    }
    while t < p
        invariant
            0 <= t <= p,
            p <= tokens.len(),
            tv == strs_view(tokens@),
            tv.len() == tokens.len(),
            concat_front(tv, tv.len() as int) == line@,
            pre_len == concat_front(tv, t as int).len(),
        decreases p - t,
    {
        proof {
            assert(tv[t as int] == tokens@[t as int]@);
            lemma_concat_front_prefix(tv, t as int + 1, tv.len() as int);
            assert(concat_front(tv, t as int + 1).len() == pre_len + tv[t as int].len());
            assert(line@.len() <= n);
            assert(concat_front(tv, t as int + 1).len() <= line@.len());
        }
        pre_len = pre_len + tokens[t].unicode_len();
        t = t + 1;
    }
    proof {
        lemma_concat_front_prefix(tv, p as int, tv.len() as int);
        assert(concat_front(tv, p as int) =~= line@.subrange(0, pre_len as int));
    }
    let preamble = if pre_len == 0 {
        None
    } else {
        Some(line.substring_char(0, pre_len))
    };
    let m = Brex { preamble, groups, postamble: post };
    proof {
        assert(m@ =~~= spec_encode(raw@)->Ok_0);
    }
    Ok(m)
}


/// Whether the values are strictly ascending.
pub open spec fn strictly_ascending(vs: Seq<nat>) -> bool {
    forall|i: int, j: int| 0 <= i < j < vs.len() ==> vs[i] < vs[j]
}

/// Whether a numeric list is maximally merged: every entry well-formed,
/// and no two neighbouring entries cover adjacent or overlapping values
/// (two entries covering consecutive integers would already be fused).
pub open spec fn numerics_merged(ns: Seq<Numeric>) -> bool {
    &&& forall|i: int| 0 <= i < ns.len() ==> (#[trigger] ns[i]).wf()
    &&& forall|i: int| 0 <= i && i + 1 < ns.len() ==> (#[trigger] ns[i]).hi() + 1 < ns[i + 1].lo()
}

/// Whether the numerics cover the value `v`.
pub open spec fn covers(ns: Seq<Numeric>, v: nat) -> bool {
    exists|i: int| 0 <= i < ns.len() && (#[trigger] ns[i]).lo() <= v <= ns[i].hi()
}

/// Numeric merge correctness: merging a strictly ascending value list
/// yields well-formed numerics in ascending order, with no two stored
/// entries adjacent-mergeable, covering exactly the input values.
pub proof fn lemma_merge_values_merged(vs: Seq<nat>)
    requires
        strictly_ascending(vs),
        forall|i: int| 0 <= i < vs.len() ==> (#[trigger] vs[i]) <= u32::MAX,
    ensures
        numerics_merged(merge_values(vs)),
        merge_values(vs).len() == 0 <==> vs.len() == 0,
        vs.len() > 0 ==> merge_values(vs).last().hi() == vs.last(),
        forall|v: nat| covers(merge_values(vs), v) <==> vs.contains(v),
    decreases vs.len(),
{
    if vs.len() == 0 {
        assert forall|v: nat| covers(merge_values(vs), v) <==> vs.contains(v) by {
            if vs.contains(v) {
                let i = choose|i: int| 0 <= i < vs.len() && vs[i] == v;
            }
        }
    } else {
        let dl = vs.drop_last();
        let v = vs.last();
        lemma_merge_values_merged(dl);
        let prev = merge_values(dl);
        let ns = merge_values(vs);
        assert(ns == merge_push(prev, v));
        assert(forall|i: int| 0 <= i < dl.len() ==> dl[i] == vs[i]);
        if prev.len() > 0 && prev.last().hi() + 1 == v {
            let last = prev.last();
            assert(ns == prev.update(prev.len() - 1, Numeric::Range(last.lo() as u32, v as u32)));
            assert(dl.last() <= u32::MAX && last.hi() == dl.last());
            assert(ns.last().lo() == last.lo() && ns.last().hi() == v);
            assert forall|i: int| 0 <= i < ns.len() implies (#[trigger] ns[i]).wf() by {
                if i < ns.len() - 1 {
                    assert(ns[i] == prev[i]);
                }
            }
            assert forall|i: int| 0 <= i && i + 1 < ns.len() implies (#[trigger] ns[i]).hi() + 1
                < ns[i + 1].lo() by {
                assert(ns[i] == prev[i]);
                if i + 1 < ns.len() - 1 {
                    assert(ns[i + 1] == prev[i + 1]);
                } else {
                    assert(ns[i + 1].lo() == prev[i + 1].lo());
                }
            }
            assert forall|w: nat| covers(ns, w) <==> vs.contains(w) by {
                if covers(ns, w) {
                    let i = choose|i: int| 0 <= i < ns.len() && (#[trigger] ns[i]).lo() <= w <= ns[i].hi();
                    if i < ns.len() - 1 {
                        assert(prev[i].lo() <= w <= prev[i].hi());
                        assert(covers(prev, w));
                        assert(dl.contains(w));
                        let k = choose|k: int| 0 <= k < dl.len() && dl[k] == w;
                        assert(vs[k] == w);
                    } else {
                        if w == v {
                            assert(vs[vs.len() - 1] == w);
                        } else {
                            assert(last.lo() <= w <= last.hi());
                            assert(covers(prev, w));
                            assert(dl.contains(w));
                            let k = choose|k: int| 0 <= k < dl.len() && dl[k] == w;
                            assert(vs[k] == w);
                        }
                    }
                }
                if vs.contains(w) {
                    let k = choose|k: int| 0 <= k < vs.len() && vs[k] == w;
                    if k < vs.len() - 1 {
                        assert(dl[k] == w);
                        assert(dl.contains(w));
                        assert(covers(prev, w));
                        let i = choose|i: int| 0 <= i < prev.len() && (#[trigger] prev[i]).lo() <= w
                            <= prev[i].hi();
                        if i < prev.len() - 1 {
                            assert(ns[i] == prev[i]);
                            assert(covers(ns, w));
                        } else {
                            assert(ns[i].lo() <= w <= ns[i].hi());
                            assert(covers(ns, w));
                        }
                    } else {
                        assert(w == v);
                        assert(ns[ns.len() - 1].lo() <= w <= ns[ns.len() - 1].hi());
                        assert(covers(ns, w));
                    }
                }
            }
        } else {
            assert(ns == prev.push(Numeric::Single(v as u32)));
            assert(ns.last().lo() == v && ns.last().hi() == v);
            if prev.len() > 0 {
                assert(dl.len() > 0);
                assert(prev.last().hi() == dl.last());
                assert(dl.last() == vs[vs.len() - 2]);
                assert(vs[vs.len() - 2] < v);
                assert(prev.last().hi() + 1 != v);
                assert(prev.last().hi() + 1 < v);
            }
            assert forall|i: int| 0 <= i < ns.len() implies (#[trigger] ns[i]).wf() by {
                if i < ns.len() - 1 {
                    assert(ns[i] == prev[i]);
                }
            }
            assert forall|i: int| 0 <= i && i + 1 < ns.len() implies (#[trigger] ns[i]).hi() + 1
                < ns[i + 1].lo() by {
                assert(ns[i] == prev[i]);
                if i + 1 < ns.len() - 1 {
                    assert(ns[i + 1] == prev[i + 1]);
                }
            }
            assert forall|w: nat| covers(ns, w) <==> vs.contains(w) by {
                if covers(ns, w) {
                    let i = choose|i: int| 0 <= i < ns.len() && (#[trigger] ns[i]).lo() <= w <= ns[i].hi();
                    if i < ns.len() - 1 {
                        assert(prev[i].lo() <= w <= prev[i].hi());
                        assert(covers(prev, w));
                        assert(dl.contains(w));
                        let k = choose|k: int| 0 <= k < dl.len() && dl[k] == w;
                        assert(vs[k] == w);
                    } else {
                        assert(w == v);
                        assert(vs[vs.len() - 1] == w);
                    }
                }
                if vs.contains(w) {
                    let k = choose|k: int| 0 <= k < vs.len() && vs[k] == w;
                    if k < vs.len() - 1 {
                        assert(dl[k] == w);
                        assert(dl.contains(w));
                        assert(covers(prev, w));
                        let i = choose|i: int| 0 <= i < prev.len() && (#[trigger] prev[i]).lo() <= w
                            <= prev[i].hi();
                        assert(ns[i] == prev[i]);
                        assert(covers(ns, w));
                    } else {
                        assert(w == v);
                        assert(ns[ns.len() - 1].lo() <= w <= ns[ns.len() - 1].hi());
                        assert(covers(ns, w));
                    }
                }
            }
        }
    }
}


/// Bounds and characteristic properties of `num_ins_pos`.
pub proof fn lemma_num_ins_pos(vs: Seq<nat>, v: nat, i: int)
    requires
        0 <= i <= vs.len(),
    ensures
        i <= num_ins_pos(vs, v, i) <= vs.len(),
        forall|k: int| i <= k < num_ins_pos(vs, v, i) ==> (#[trigger] vs[k]) < v,
        num_ins_pos(vs, v, i) < vs.len() ==> vs[num_ins_pos(vs, v, i)] >= v,
    decreases vs.len() - i,
{
    if i < vs.len() && vs[i] < v {
        lemma_num_ins_pos(vs, v, i + 1);
    }
}

/// Sorted insertion keeps a strictly ascending list strictly ascending
/// and adds exactly the inserted value.
pub proof fn lemma_insert_sorted(vs: Seq<nat>, v: nat)
    requires
        strictly_ascending(vs),
    ensures
        strictly_ascending(insert_sorted(vs, v)),
        forall|x: nat| insert_sorted(vs, v).contains(x) <==> vs.contains(x) || x == v,
        insert_sorted(vs, v).len() >= 1,
{
    lemma_num_ins_pos(vs, v, 0);
    let p = num_ins_pos(vs, v, 0);
    let r = insert_sorted(vs, v);
    if p < vs.len() && vs[p] == v {
        assert(r == vs);
        assert forall|x: nat| r.contains(x) <==> vs.contains(x) || x == v by {
            if x == v {
                assert(vs[p] == x);
            }
        }
        assert(vs.len() >= 1);
    } else {
        assert(r == vs.insert(p, v));
        vs.insert_ensures(p, v);
        assert(r.len() == vs.len() + 1);
        assert(forall|k: int| 0 <= k < p ==> r[k] == vs[k]);
        assert(forall|k: int| p < k < r.len() ==> r[k] == vs[k - 1]);
        assert(r[p] == v);
        assert forall|i: int, j: int| 0 <= i < j < r.len() implies r[i] < r[j] by {
            if i < p && j < p {
            } else if i < p && j == p {
                assert(r[i] == vs[i] && vs[i] < v);
            } else if i < p && j > p {
                assert(r[i] == vs[i] && r[j] == vs[j - 1]);
                if i < j - 1 {
                } else {
                    assert(i == j - 1);
                    if p < vs.len() {
                        assert(vs[i] < v);
                    }
                    assert(i < p);
                    assert(vs[i] < v);
                    assert(vs[j - 1] >= vs[p]);
                    assert(vs[p] > v || p == vs.len());
                }
            } else if i == p {
                assert(r[j] == vs[j - 1]);
                assert(j - 1 >= p);
                if j - 1 == p {
                    assert(vs[p] >= v && vs[p] != v);
                } else {
                    assert(vs[p] < vs[j - 1]);
                    assert(vs[p] >= v && vs[p] != v);
                }
            } else {
                assert(r[i] == vs[i - 1] && r[j] == vs[j - 1]);
            }
        }
        assert forall|x: nat| r.contains(x) <==> vs.contains(x) || x == v by {
            if r.contains(x) {
                let k = choose|k: int| 0 <= k < r.len() && r[k] == x;
                if k < p {
                    assert(vs[k] == x);
                } else if k == p {
                } else {
                    assert(vs[k - 1] == x);
                }
            }
            if vs.contains(x) {
                let k = choose|k: int| 0 <= k < vs.len() && vs[k] == x;
                if k < p {
                    assert(r[k] == x);
                } else {
                    assert(r[k + 1] == x);
                }
            }
            if x == v {
                assert(r[p] == x);
            }
        }
    }
}

/// Well-formedness of the stem table: every entry's value list is
/// non-empty, strictly ascending and within the 32-bit range.
pub open spec fn tbl_wf(tbl: Seq<(Seq<char>, Seq<nat>)>) -> bool {
    forall|k: int| 0 <= k < tbl.len() ==> {
        &&& strictly_ascending((#[trigger] tbl[k]).1)
        &&& tbl[k].1.len() >= 1
        &&& forall|m: int| 0 <= m < tbl[k].1.len() ==> (#[trigger] tbl[k].1[m]) <= u32::MAX
    }
}

/// Compaction of overflow-free candidates yields a well-formed stem
/// table.
pub proof fn lemma_compact_cands_wf(cs: Seq<Seq<char>>)
    requires
        forall|k: int| 0 <= k < cs.len() ==> !cand_overflow(#[trigger] cs[k]),
    ensures
        tbl_wf(compact_cands(cs).1),
    decreases cs.len(),
{
    if cs.len() > 0 {
        let dl = cs.drop_last();
        assert(forall|k: int| 0 <= k < dl.len() ==> dl[k] == cs[k]);
        lemma_compact_cands_wf(dl);
        let prev = compact_cands(dl).1;
        let c = cs.last();
        assert(!cand_overflow(c));
        match split_stem(c).1 {
            None => (),
            Some(ds) => {
                let stem = split_stem(c).0;
                let v = digits_val(ds);
                assert(v <= u32::MAX);
                let tbl = add_value(prev, stem, v);
                lemma_stem_pos_props(prev, stem);
                let p = stem_pos(prev, stem, 0);
                if p < prev.len() {
                    lemma_insert_sorted(prev[p].1, v);
                    let nv = insert_sorted(prev[p].1, v);
                    assert forall|k: int| 0 <= k < tbl.len() implies {
                        &&& strictly_ascending((#[trigger] tbl[k]).1)
                        &&& tbl[k].1.len() >= 1
                        &&& forall|m: int| 0 <= m < tbl[k].1.len() ==> (#[trigger] tbl[k].1[m])
                            <= u32::MAX
                    } by {
                        if k == p {
                            assert(tbl[k].1 == nv);
                            assert forall|m: int| 0 <= m < nv.len() implies (#[trigger] nv[m])
                                <= u32::MAX by {
                                assert(nv.contains(nv[m]));
                                if nv[m] != v {
                                    assert(prev[p].1.contains(nv[m]));
                                    let q = choose|q: int| 0 <= q < prev[p].1.len()
                                        && prev[p].1[q] == nv[m];
                                }
                            }
                        } else {
                            assert(tbl[k] == prev[k]);
                        }
                    }
                } else {
                    assert forall|k: int| 0 <= k < tbl.len() implies {
                        &&& strictly_ascending((#[trigger] tbl[k]).1)
                        &&& tbl[k].1.len() >= 1
                        &&& forall|m: int| 0 <= m < tbl[k].1.len() ==> (#[trigger] tbl[k].1[m])
                            <= u32::MAX
                    } by {
                        if k < prev.len() {
                            assert(tbl[k] == prev[k]);
                        } else {
                            assert(tbl[k].1 == seq![v]);
                        }
                    }
                }
            },
        }
    }
}

/// Bounds of `stem_pos`.
pub proof fn lemma_stem_pos_props(tbl: Seq<(Seq<char>, Seq<nat>)>, stem: Seq<char>)
    ensures
        0 <= stem_pos(tbl, stem, 0) <= tbl.len(),
{
    lemma_stem_pos_bounds(tbl, stem, 0);
}

proof fn lemma_stem_pos_bounds(tbl: Seq<(Seq<char>, Seq<nat>)>, stem: Seq<char>, i: int)
    requires
        0 <= i <= tbl.len(),
    ensures
        i <= stem_pos(tbl, stem, i) <= tbl.len(),
    decreases tbl.len() - i,
{
    if i < tbl.len() && tbl[i].0 != stem {
        lemma_stem_pos_bounds(tbl, stem, i + 1);
    }
}

/// Indexing into the compacted groups.
pub proof fn lemma_build_groups_index(gs: Seq<(Seq<char>, Seq<Seq<char>>)>, i: int)
    requires
        0 <= i <= gs.len(),
    ensures
        build_groups(gs, i).len() == gs.len() - i,
        forall|k: int| i <= k < gs.len()
            ==> build_groups(gs, i)[k - i] == compact_group((#[trigger] gs[k]).0, gs[k].1),
    decreases gs.len() - i,
{
    if i < gs.len() {
        lemma_build_groups_index(gs, i + 1);
    }
}

/// Compaction yields one group per collected group.
pub proof fn lemma_build_groups_len(gs: Seq<(Seq<char>, Seq<Seq<char>>)>)
    ensures
        build_groups(gs, 0).len() == gs.len(),
{
    lemma_build_groups_index(gs, 0);
}

/// Indexing into the literal suffixes.
pub proof fn lemma_literal_suffixes_index(ls: Seq<Seq<char>>, i: int)
    requires
        0 <= i <= ls.len(),
    ensures
        literal_suffixes(ls, i).len() == ls.len() - i,
        forall|k: int| i <= k < ls.len()
            ==> literal_suffixes(ls, i)[k - i] == (SuffixV {
                text: #[trigger] ls[k],
                numerics: None,
            }),
    decreases ls.len() - i,
{
    if i < ls.len() {
        lemma_literal_suffixes_index(ls, i + 1);
    }
}

/// Indexing into the numeric-stem suffixes.
pub proof fn lemma_numeric_suffixes_index(tbl: Seq<(Seq<char>, Seq<nat>)>, i: int)
    requires
        0 <= i <= tbl.len(),
    ensures
        numeric_suffixes(tbl, i).len() == tbl.len() - i,
        forall|k: int| i <= k < tbl.len()
            ==> numeric_suffixes(tbl, i)[k - i] == (SuffixV {
                text: (#[trigger] tbl[k]).0,
                numerics: Some(merge_values(tbl[k].1)),
            }),
    decreases tbl.len() - i,
{
    if i < tbl.len() {
        lemma_numeric_suffixes_index(tbl, i + 1);
    }
}

/// Whether every numeric list in the model is non-empty and maximally
/// merged: the representation invariant of encoder output.
pub open spec fn model_numerics_merged(m: BrexV) -> bool {
    forall|gi: int, si: int|
        0 <= gi < m.groups.len() && 0 <= si < m.groups[gi].suffixes.len()
            ==> match (#[trigger] m.groups[gi].suffixes[si]).numerics {
                Some(ns) => ns.len() >= 1 && numerics_merged(ns),
                None => true,
            }
}

/// Every model the encoder produces keeps its numeric lists non-empty,
/// ascending and maximally merged: two entries covering consecutive
/// integers are always fused into one range.
pub proof fn lemma_encode_numerics_merged(raw: Seq<char>)
    requires
        spec_encode(raw) is Ok,
    ensures
        model_numerics_merged(spec_encode(raw)->Ok_0),
{
    let m = spec_encode(raw)->Ok_0;
    if m.groups.len() == 0 {
    } else {
        let line = if ends_with_bin(raw) {
            raw.subrange(0, raw.len() - 4)
        } else {
            raw
        };
        let ts = spec_tokenize(line, '_');
        let a = rle(evens(ts));
        let b = rle(odds(ts));
        let offset: int = if a.len() <= b.len() {
            0
        } else {
            1
        };
        let best = if a.len() <= b.len() {
            a
        } else {
            b
        };
        let skip = first_repeat(best, 0);
        let p = offset + 2 * skip;
        let rgv = collect_groups(ts, p);
        assert(m.groups == build_groups(rgv, 0));
        assert(!any_overflow(rgv));
        lemma_build_groups_index(rgv, 0);
        assert forall|gi: int, si: int|
            0 <= gi < m.groups.len() && 0 <= si < m.groups[gi].suffixes.len() implies match (
        #[trigger] m.groups[gi].suffixes[si]).numerics {
            Some(ns) => ns.len() >= 1 && numerics_merged(ns),
            None => true,
        } by {
            assert(m.groups[gi] == compact_group(rgv[gi].0, rgv[gi].1));
            let cs = rgv[gi].1;
            assert(!has_overflow(cs));
            assert forall|k: int| 0 <= k < cs.len() implies !cand_overflow(#[trigger] cs[k]) by {
                if cand_overflow(cs[k]) {
                    assert(has_overflow(cs));
                }
            }
            lemma_compact_cands_wf(cs);
            let ls = compact_cands(cs).0;
            let tbl = compact_cands(cs).1;
            lemma_literal_suffixes_index(ls, 0);
            lemma_numeric_suffixes_index(tbl, 0);
            let sf = m.groups[gi].suffixes[si];
            assert(m.groups[gi].suffixes == literal_suffixes(ls, 0) + numeric_suffixes(tbl, 0));
            if si < ls.len() {
                assert(sf == literal_suffixes(ls, 0)[si]);
                assert(literal_suffixes(ls, 0)[si] == (SuffixV { text: ls[si], numerics: None }));
                assert(sf.numerics is None);
            } else {
                assert(sf == numeric_suffixes(tbl, 0)[si - ls.len()]);
                let entry = tbl[si - ls.len()];
                assert(numeric_suffixes(tbl, 0)[si - ls.len()] == (SuffixV {
                    text: entry.0,
                    numerics: Some(merge_values(entry.1)),
                }));
                assert(strictly_ascending(entry.1) && entry.1.len() >= 1
                    && forall|m2: int| 0 <= m2 < entry.1.len() ==> (#[trigger] entry.1[m2])
                        <= u32::MAX);
                lemma_merge_values_merged(entry.1);
                assert(sf.numerics == Some(merge_values(entry.1)));
                assert(merge_values(entry.1).len() >= 1);
                assert(numerics_merged(merge_values(entry.1)));
            }
        }
    }
}

} // verus!
