//! Expansion: deterministic reconstruction of the concrete string from
//! a grammar model.

use vstd::prelude::*;
use vstd::string::*;
use core::cmp::Ordering;
use crate::models::brex::{opt_text, Brex, BrexV};
use crate::models::group::{groups_view, Group, GroupV};
use crate::models::numeric::Numeric;
use crate::models::suffix::{Suffix, SuffixV};
use crate::parse::{spec_parse_brex, Error};
use crate::util::{inverted_substr_sort, spec_dec, spec_str_cmp, u32_to_dec};

verus! {

/// The views of a sequence of owned strings.
pub open spec fn strings_view(ss: Seq<String>) -> Seq<Seq<char>> {
    ss.map_values(|s: String| s@)
}

/// The expansion pieces of one numeric value range: `base` followed by
/// the decimal rendering of each value, ascending.
pub open spec fn value_pieces(base: Seq<char>, lo: nat, hi: nat) -> Seq<Seq<char>>
    decreases hi + 1 - lo,
{
    if lo > hi {
        Seq::empty()
    } else {
        seq![base + spec_dec(lo)] + value_pieces(base, lo + 1, hi)
    }
}

/// The expansion pieces of a numeric list from position `i` on.
pub open spec fn num_pieces(base: Seq<char>, ns: Seq<Numeric>, i: int) -> Seq<Seq<char>>
    decreases ns.len() - i,
{
    if i < 0 || i >= ns.len() {
        Seq::empty()
    } else {
        value_pieces(base, ns[i].lo(), ns[i].hi()) + num_pieces(base, ns, i + 1)
    }
}

/// The expansion pieces of one suffix, without the group prefix: the
/// literal text alone, or the text followed by each numeric value.
pub open spec fn suffix_pieces(s: SuffixV) -> Seq<Seq<char>> {
    match s.numerics {
        None => seq![s.text],
        Some(ns) => num_pieces(s.text, ns, 0),
    }
}

/// The expansion pieces of the suffixes from position `i` on.
pub open spec fn suffixes_pieces(ss: Seq<SuffixV>, i: int) -> Seq<Seq<char>>
    decreases ss.len() - i,
{
    if i < 0 || i >= ss.len() {
        Seq::empty()
    } else {
        suffix_pieces(ss[i]) + suffixes_pieces(ss, i + 1)
    }
}

/// Each piece from position `k` on, with `p` prepended.
pub open spec fn prefixed(p: Seq<char>, ps: Seq<Seq<char>>, k: int) -> Seq<Seq<char>>
    decreases ps.len() - k,
{
    if k < 0 || k >= ps.len() {
        Seq::empty()
    } else {
        seq![p + ps[k]] + prefixed(p, ps, k + 1)
    }
}

/// Prefixing from an offset inside the left part of a concatenation.
proof fn lemma_prefixed_offset(p: Seq<char>, a: Seq<Seq<char>>, b: Seq<Seq<char>>, k: int)
    requires
        0 <= k <= a.len(),
    ensures
        prefixed(p, a + b, k) == prefixed(p, a, k) + prefixed(p, b, 0),
    decreases a.len() + b.len() - k,
{
    let ab = a + b;
    if k >= ab.len() {
        assert(prefixed(p, ab, k) =~= prefixed(p, a, k) + prefixed(p, b, 0));
    } else if k < a.len() {
        lemma_prefixed_offset(p, a, b, k + 1);
        assert(ab[k] == a[k]);
        assert(prefixed(p, ab, k) =~= prefixed(p, a, k) + prefixed(p, b, 0));
    } else {
        lemma_prefixed_shift(p, a, b, 0);
        assert(prefixed(p, a, k) =~= Seq::<Seq<char>>::empty());
        assert(prefixed(p, ab, k) =~= prefixed(p, a, k) + prefixed(p, b, 0));
    }
}

/// Prefixing the right part of a concatenation from its own offset.
proof fn lemma_prefixed_shift(p: Seq<char>, a: Seq<Seq<char>>, b: Seq<Seq<char>>, m: int)
    requires
        0 <= m <= b.len(),
    ensures
        prefixed(p, a + b, a.len() + m) == prefixed(p, b, m),
    decreases b.len() - m,
{
    let ab = a + b;
    if m < b.len() {
        lemma_prefixed_shift(p, a, b, m + 1);
        assert(ab[a.len() + m] == b[m]);
        assert(prefixed(p, ab, a.len() + m) =~= prefixed(p, b, m));
    } else {
        assert(prefixed(p, ab, a.len() + m) =~= prefixed(p, b, m));
    }
}

/// Prefixing distributes over concatenation of piece lists.
pub proof fn lemma_prefixed_concat(p: Seq<char>, a: Seq<Seq<char>>, b: Seq<Seq<char>>)
    ensures
        prefixed(p, a + b, 0) == prefixed(p, a, 0) + prefixed(p, b, 0),
{
    lemma_prefixed_offset(p, a, b, 0);
}

/// The expansion pieces of one group: every suffix piece, in suffix
/// insertion order, with the group prefix prepended.
pub open spec fn group_pieces(g: GroupV) -> Seq<Seq<char>> {
    prefixed(g.prefix, suffixes_pieces(g.suffixes, 0), 0)
}

/// The concatenation of the pieces from position `k` on.
pub open spec fn concat_pieces(ps: Seq<Seq<char>>, k: int) -> Seq<char>
    decreases ps.len() - k,
{
    if k < 0 || k >= ps.len() {
        Seq::empty()
    } else {
        ps[k] + concat_pieces(ps, k + 1)
    }
}

/// The expansion of one group: its pieces, concatenated.
pub open spec fn expand_group(g: GroupV) -> Seq<char> {
    concat_pieces(group_pieces(g), 0)
}

/// The expansion of the groups from position `i` on, in the given order.
pub open spec fn expand_groups(gs: Seq<GroupV>, i: int) -> Seq<char>
    decreases gs.len() - i,
{
    if i < 0 || i >= gs.len() {
        Seq::empty()
    } else {
        expand_group(gs[i]) + expand_groups(gs, i + 1)
    }
}

/// The ordering the expander applies to groups: `a` may stand before `b`
/// when the inverted prefix comparison does not rank `a` after `b`.
pub open spec fn group_le(a: GroupV, b: GroupV) -> bool {
    spec_str_cmp(a.prefix, b.prefix) != Ordering::Greater
}

/// The position at which a group with prefix `g.prefix` is inserted into
/// `s`: before the first element ranked strictly after it, scanning from
/// `i`; insertion is therefore stable.
pub open spec fn insert_pos(s: Seq<GroupV>, g: GroupV, i: int) -> int
    decreases s.len() - i,
{
    if i < 0 || i >= s.len() {
        s.len() as int
    } else if spec_str_cmp(s[i].prefix, g.prefix) == Ordering::Greater {
        i
    } else {
        insert_pos(s, g, i + 1)
    }
}

/// Bounds and characteristic properties of `insert_pos`.
pub proof fn lemma_insert_pos(s: Seq<GroupV>, g: GroupV, i: int)
    requires
        0 <= i <= s.len(),
    ensures
        i <= insert_pos(s, g, i) <= s.len(),
        forall|k: int| i <= k < insert_pos(s, g, i)
            ==> spec_str_cmp((#[trigger] s[k]).prefix, g.prefix) != Ordering::Greater,
        insert_pos(s, g, i) < s.len()
            ==> spec_str_cmp(s[insert_pos(s, g, i)].prefix, g.prefix) == Ordering::Greater,
    decreases s.len() - i,
{
    if i < s.len() && spec_str_cmp(s[i].prefix, g.prefix) != Ordering::Greater {
        lemma_insert_pos(s, g, i + 1);
    }
}

/// A position with the characteristic properties of `insert_pos` is its
/// result.
pub proof fn lemma_insert_pos_is(s: Seq<GroupV>, g: GroupV, i: int, j: int)
    requires
        0 <= i <= j <= s.len(),
        forall|k: int| i <= k < j
            ==> spec_str_cmp((#[trigger] s[k]).prefix, g.prefix) != Ordering::Greater,
        j < s.len() ==> spec_str_cmp(s[j].prefix, g.prefix) == Ordering::Greater,
    ensures
        insert_pos(s, g, i) == j,
    decreases j - i,
{
    if i < j {
        lemma_insert_pos_is(s, g, i + 1, j);
    }
}

/// Stable insertion of one group at its `insert_pos`.
pub open spec fn insert_group(s: Seq<GroupV>, g: GroupV) -> Seq<GroupV> {
    s.insert(insert_pos(s, g, 0), g)
}

/// The order the expander renders groups in: stable insertion sort by
/// the inverted prefix comparator.
pub open spec fn sort_groups(gs: Seq<GroupV>) -> Seq<GroupV>
    decreases gs.len(),
{
    if gs.len() == 0 {
        Seq::empty()
    } else {
        insert_group(sort_groups(gs.drop_last()), gs.last())
    }
}

/// The deterministic expansion of a model: preamble, then every group's
/// pieces with the groups ordered by the inverted prefix comparator,
/// then postamble.
pub open spec fn spec_expand(b: BrexV) -> Seq<char> {
    opt_text(b.preamble) + expand_groups(sort_groups(b.groups), 0) + opt_text(b.postamble)
}

/// Whether the inverted comparison ranks `a` after `b`.
fn cmp_is_greater(a: &str, b: &str) -> (r: bool)
    ensures
        r == (spec_str_cmp(a@, b@) == Ordering::Greater),
{
    let o = inverted_substr_sort(a, b);
    match o {
        Ordering::Greater => true,
        _ => false,
    }
}

/// The views of a sequence of group references.
pub open spec fn group_refs_view<'a, 'b>(gs: Seq<&'b Group<'a>>) -> Seq<GroupV> {
    gs.map_values(|g: &Group<'a>| g@)
}

/// Orders references to the given groups by the inverted prefix
/// comparator, stably.
fn sorted_group_refs<'a, 'b>(groups: &'b Vec<Group<'a>>) -> (r: Vec<&'b Group<'a>>)
    ensures
        group_refs_view(r@) == sort_groups(groups_view(groups@)),
{
    let ghost gv = groups_view(groups@);
    let mut out: Vec<&'b Group<'a>> = Vec::new();
    let mut i: usize = 0;
    while i < groups.len()
        invariant
            0 <= i <= groups.len(),
            gv == groups_view(groups@),
            group_refs_view(out@) == sort_groups(gv.take(i as int)),
            out@.len() == i,
        decreases groups.len() - i,
    {
        let g: &'b Group<'a> = &groups[i];
        let ghost before = group_refs_view(out@);
        let mut j: usize = 0;
        while j < out.len() && !cmp_is_greater(out[j].prefix, g.prefix)
            invariant
                0 <= j <= out.len(),
                before == group_refs_view(out@),
                out@.len() == i,
                forall|k: int| 0 <= k < j
                    ==> spec_str_cmp((#[trigger] before[k]).prefix, g@.prefix)
                        != Ordering::Greater,
            decreases out.len() - j,
        {
            proof {
                assert(before[j as int] == out@[j as int]@);
            }
            j = j + 1;
        }
        proof {
            if (j as int) < before.len() {
                assert(before[j as int] == out@[j as int]@);
            }
            lemma_insert_pos_is(before, g@, 0, j as int);
        }
        out.insert(j, g);
        proof {
            assert(group_refs_view(out@) =~= before.insert(j as int, g@));
            assert(gv.take(i as int + 1).drop_last() =~= gv.take(i as int));
            assert(gv.take(i as int + 1).last() == gv[i as int]);
            assert(gv[i as int] == g@);
        }
        i = i + 1;
    }
    proof {
        assert(gv.take(gv.len() as int) =~= gv);
    }
    out
}

impl<'a> Suffix<'a> {
    /// The expansion pieces of this suffix, without any prefix: the
    /// literal text alone, or the text followed by each covered numeric
    /// value in ascending order.
    pub fn unroll(&self) -> (r: Vec<String>)
        ensures
            strings_view(r@) == suffix_pieces(self@),
    {
        match &self.numerics {
            None => {
                let mut out: Vec<String> = Vec::new();
                out.push(String::from_str(self.suffix));
                proof {
                    assert(strings_view(out@) =~= suffix_pieces(self@));
                }
                out
            },
            Some(ns) => {
                let mut out: Vec<String> = Vec::new();
                let ghost text = self.suffix@;
                let mut i: usize = 0;
                while i < ns.len()
                    invariant
                        0 <= i <= ns.len(),
                        self.numerics matches Some(nsv) && nsv@ == ns@,
                        text == self.suffix@,
                        num_pieces(text, ns@, 0)
                            == strings_view(out@) + num_pieces(text, ns@, i as int),
                    decreases ns.len() - i,
                {
                    let n = &ns[i];
                    let lo = n.start();
                    let hi = n.end();
                    let mut v: u64 = lo as u64;
                    proof {
                        assert(num_pieces(text, ns@, i as int)
                            == value_pieces(text, ns@[i as int].lo(), ns@[i as int].hi())
                                + num_pieces(text, ns@, i as int + 1));
                    }
                    while v <= hi as u64
                        invariant
                            lo as u64 <= v,
                            lo as nat == ns@[i as int].lo(),
                            hi as nat == ns@[i as int].hi(),
                            0 <= i < ns.len(),
                            text == self.suffix@,
                            num_pieces(text, ns@, 0)
                                == strings_view(out@)
                                    + value_pieces(text, v as nat, hi as nat)
                                    + num_pieces(text, ns@, i as int + 1),
                        decreases hi as int + 1 - v as int,
                    {
                        let mut piece = String::from_str(self.suffix);
                        let dec = u32_to_dec(v as u32);
                        piece.append(dec.as_str());
                        proof {
                            assert(piece@ == text + spec_dec(v as nat));
                            assert(value_pieces(text, v as nat, hi as nat)
                                == seq![text + spec_dec(v as nat)]
                                    + value_pieces(text, v as nat + 1, hi as nat));
                        }
                        out.push(piece);
                        proof {
                            assert(strings_view(out@)
                                =~= strings_view(out@.drop_last()).push(piece@));
                            assert(strings_view(out@.drop_last()).push(piece@)
                                =~= strings_view(out@.drop_last()) + seq![piece@]);
                        }
                        v = v + 1;
                    }
                    proof {
                        assert(value_pieces(text, v as nat, hi as nat)
                            =~= Seq::<Seq<char>>::empty());
                        assert(strings_view(out@) + Seq::<Seq<char>>::empty()
                            + num_pieces(text, ns@, i as int + 1)
                            =~= strings_view(out@) + num_pieces(text, ns@, i as int + 1));
                    }
                    i = i + 1;
                }
                proof {
                    assert(num_pieces(text, ns@, ns@.len() as int) =~= Seq::<Seq<char>>::empty());
                    assert(strings_view(out@) + Seq::<Seq<char>>::empty() =~= strings_view(out@));
                    assert(strings_view(out@) == num_pieces(text, ns@, 0));
                }
                out
            },
        }
    }
}

impl<'a> Group<'a> {
    /// The expansion pieces of this group: each suffix piece, in suffix
    /// insertion order, with the group prefix prepended.
    pub fn unroll(&self) -> (r: Vec<String>)
        ensures
            strings_view(r@) == group_pieces(self@),
    {
        let ghost sv = self@.suffixes;
        let ghost p = self.prefix@;
        let mut out: Vec<String> = Vec::new();
        let mut i: usize = 0;
        while i < self.suffixes.len()
            invariant
                0 <= i <= self.suffixes.len(),
                sv == self@.suffixes,
                p == self.prefix@,
                sv.len() == self.suffixes.len(),
                group_pieces(self@)
                    == strings_view(out@) + prefixed(p, suffixes_pieces(sv, i as int), 0),
            decreases self.suffixes.len() - i,
        {
            let pieces = self.suffixes[i].unroll();
            let ghost pv = strings_view(pieces@);
            proof {
                assert(self.suffixes@[i as int]@ == sv[i as int]);
                assert(pv == suffix_pieces(sv[i as int]));
                assert(suffixes_pieces(sv, i as int)
                    == suffix_pieces(sv[i as int]) + suffixes_pieces(sv, i as int + 1));
                lemma_prefixed_concat(p, pv, suffixes_pieces(sv, i as int + 1));
            }
            let mut k: usize = 0;
            while k < pieces.len()
                invariant
                    0 <= k <= pieces.len(),
                    p == self.prefix@,
                    pv == strings_view(pieces@),
                    pv.len() == pieces.len(),
                    group_pieces(self@)
                        == strings_view(out@) + prefixed(p, pv, k as int)
                            + prefixed(p, suffixes_pieces(sv, i as int + 1), 0),
                decreases pieces.len() - k,
            {
                let mut s = String::from_str(self.prefix);
                s.append(pieces[k].as_str());
                proof {
                    assert(pieces@[k as int]@ == pv[k as int]);
                    assert(s@ == p + pv[k as int]);
                    assert(prefixed(p, pv, k as int)
                        == seq![p + pv[k as int]] + prefixed(p, pv, k as int + 1));
                }
                out.push(s);
                proof {
                    assert(strings_view(out@)
                        =~= strings_view(out@.drop_last()) + seq![s@]);
                }
                k = k + 1;
            }
            proof {
                assert(prefixed(p, pv, pv.len() as int) =~= Seq::<Seq<char>>::empty());
                assert(strings_view(out@) + Seq::<Seq<char>>::empty()
                    + prefixed(p, suffixes_pieces(sv, i as int + 1), 0)
                    =~= strings_view(out@) + prefixed(p, suffixes_pieces(sv, i as int + 1), 0));
            }
            i = i + 1;
        }
        proof {
            assert(suffixes_pieces(sv, sv.len() as int) =~= Seq::<Seq<char>>::empty());
            assert(prefixed(p, Seq::<Seq<char>>::empty(), 0) =~= Seq::<Seq<char>>::empty());
            assert(strings_view(out@) + Seq::<Seq<char>>::empty() =~= strings_view(out@));
        }
        out
    }
}

impl<'a> Brex<'a> {
    /// Expands this model back into the concrete string: preamble, then
    /// every group's pieces with the groups ordered by the inverted
    /// prefix comparator (stable for equal prefixes), then postamble.
    pub fn unroll(&self) -> (r: String)
        ensures
            r@ == spec_expand(self@),
    {
        let sorted = sorted_group_refs(&self.groups);
        let ghost sg = sort_groups(self@.groups);
        let mut out = match self.preamble {
            Some(p) => String::from_str(p),
            None => String::new(),
        };
        proof {
            assert(out@ =~= opt_text(self@.preamble));
        }
        let mut i: usize = 0;
        while i < sorted.len()
            invariant
                0 <= i <= sorted.len(),
                sg == sort_groups(self@.groups),
                group_refs_view(sorted@) == sg,
                sorted@.len() == sg.len(),
                opt_text(self@.preamble) + expand_groups(sg, 0)
                    == out@ + expand_groups(sg, i as int),
            decreases sorted.len() - i,
        {
            let pieces = sorted[i].unroll();
            let ghost pv = group_pieces(sg[i as int]);
            proof {
                assert(sorted@[i as int]@ == sg[i as int]);
                assert(strings_view(pieces@) == pv);
                assert(expand_groups(sg, i as int)
                    == expand_group(sg[i as int]) + expand_groups(sg, i as int + 1));
            }
            let mut k: usize = 0;
            while k < pieces.len()
                invariant
                    0 <= k <= pieces.len(),
                    pv == strings_view(pieces@),
                    pv.len() == pieces.len(),
                    opt_text(self@.preamble) + expand_groups(sg, 0)
                        == out@ + concat_pieces(pv, k as int)
                            + expand_groups(sg, i as int + 1),
                decreases pieces.len() - k,
            {
                out.append(pieces[k].as_str());
                proof {
                    assert(pieces@[k as int]@ == pv[k as int]);
                    assert(concat_pieces(pv, k as int)
                        == pv[k as int] + concat_pieces(pv, k as int + 1));
                }
                k = k + 1;
            }
            proof {
                assert(concat_pieces(pv, pv.len() as int) =~= Seq::<char>::empty());
                assert(out@ + Seq::<char>::empty() + expand_groups(sg, i as int + 1)
                    =~= out@ + expand_groups(sg, i as int + 1));
            }
            i = i + 1;
        }
        proof {
            assert(expand_groups(sg, sg.len() as int) =~= Seq::<char>::empty());
            assert(out@ + Seq::<char>::empty() =~= out@);
        }
        match self.postamble {
            Some(p) => out.append(p),
            None => (),
        }
        proof {
            assert(out@ =~= spec_expand(self@));
        }
        out
    }
}


/// Decodes grammar text: parses it and expands the model back into the
/// concrete string. Fails exactly where the parser fails.
pub fn decode(encoded: &str) -> (r: Result<String, Error>)
    ensures
        match r {
            Ok(t) => spec_parse_brex(encoded@) matches Ok(m) && t@ == spec_expand(m),
            Err(e) => spec_parse_brex(encoded@) == Err::<BrexV, Error>(e),
        },
{
    match Brex::parse(encoded) {
        Ok(b) => Ok(b.unroll()),
        Err(e) => Err(e),
    }
}

} // verus!
