//! Cross-component laws of the codec, stated and proved over the
//! specification functions of the other modules: the expander's order
//! invariance, the round trip from raw text through the encoder and
//! expander, and the serialization fixpoint — parsing is the exact
//! inverse of serialization on well-formed models, the encoder's
//! output among them.

use vstd::prelude::*;
use core::cmp::Ordering;
use vstd::seq_lib::lemma_multiset_commutative;
use crate::decode::{
    concat_pieces, expand_group, expand_groups, group_le, group_pieces, insert_group, insert_pos,
    lemma_insert_pos, num_pieces, prefixed, sort_groups, spec_expand, suffix_pieces,
    suffixes_pieces, value_pieces,
};
use crate::encode::{
    any_overflow, build_groups, cand_overflow, cands, collect_groups, compact_cands,
    compact_group, compact_step, ends_with_bin, evens, first_digit_pos, first_repeat,
    lemma_build_groups_index, lemma_build_groups_len, lemma_compact_cands_wf,
    lemma_literal_suffixes_index, lemma_numeric_suffixes_index, insert_sorted,
    merge_push, lemma_num_ins_pos_is, lemma_first_digit_pos_is,
    lemma_stem_pos_is, lemma_concat_front_full,
    lemma_concat_front_prefix, lemma_first_repeat_bounds, lemma_merge_values_merged,
    lemma_pair_run_len_bound, literal_model, literal_suffixes, merge_values,
    numeric_suffixes, odds, pair_run_len, rle, spec_encode, split_stem, concat_front,
    strictly_ascending,
};
use crate::models::brex::{
    opt_text, spec_ser_group, spec_ser_groups, spec_ser_numeric, spec_ser_numerics,
    spec_ser_numerics_tail, spec_ser_suffix, spec_ser_suffixes, spec_ser_suffixes_tail,
    spec_serialize, BrexV,
};
use crate::models::group::GroupV;
use crate::models::numeric::Numeric;
use crate::models::suffix::SuffixV;
use crate::parse::{
    is_suffix_stop, lemma_scan_digit_end_is, lemma_scan_suffix_end_is, spec_parse_brex,
    spec_parse_group, spec_parse_groups, spec_parse_numeric, spec_parse_numeric_list,
    spec_parse_suffix, spec_parse_suffix_list, Error,
};
use crate::util::{
    digits_val, is_digit, lemma_dec, lemma_scan_eq_is, lemma_str_cmp_eq, lemma_str_cmp_flip,
    spec_dec, spec_str_cmp,
};

verus! {

/// Whether the groups stand in expansion order.
pub open spec fn sorted_le(s: Seq<GroupV>) -> bool {
    forall|i: int, j: int| 0 <= i < j < s.len() ==> group_le(#[trigger] s[i], #[trigger] s[j])
}

/// Whether no two groups share a prefix.
pub open spec fn distinct_prefixes(s: Seq<GroupV>) -> bool {
    forall|i: int, j: int|
        0 <= i < j < s.len() ==> (#[trigger] s[i]).prefix != (#[trigger] s[j]).prefix
}

/// The inverted comparison is transitive in its non-Greater form.
pub proof fn lemma_str_cmp_trans(a: Seq<char>, b: Seq<char>, c: Seq<char>)
    requires
        spec_str_cmp(a, b) != Ordering::Greater,
        spec_str_cmp(b, c) != Ordering::Greater,
    ensures
        spec_str_cmp(a, c) != Ordering::Greater,
    decreases a.len() + b.len() + c.len(),
{
    if a.len() == 0 {
        assert(b.len() == 0);
        assert(c.len() == 0);
    } else if b.len() == 0 {
        assert(c.len() == 0);
    } else if c.len() == 0 {
    } else {
        if (a[0] as int) == (b[0] as int) && (b[0] as int) == (c[0] as int) {
            lemma_str_cmp_trans(a.drop_first(), b.drop_first(), c.drop_first());
        }
    }
}

/// The group ordering is total.
pub proof fn lemma_group_le_total(a: GroupV, b: GroupV)
    ensures
        group_le(a, b) || group_le(b, a),
{
    lemma_str_cmp_flip(a.prefix, b.prefix);
}

/// Two groups ranked both ways share one prefix.
pub proof fn lemma_group_le_antisym(a: GroupV, b: GroupV)
    requires
        group_le(a, b),
        group_le(b, a),
    ensures
        a.prefix == b.prefix,
{
    lemma_str_cmp_flip(a.prefix, b.prefix);
    lemma_str_cmp_flip(b.prefix, a.prefix);
    lemma_str_cmp_eq(a.prefix, b.prefix);
}

/// Stable insertion keeps the expansion order and adds exactly the new
/// group.
pub proof fn lemma_insert_group_sorted(s: Seq<GroupV>, g: GroupV)
    requires
        sorted_le(s),
    ensures
        sorted_le(insert_group(s, g)),
        insert_group(s, g).to_multiset() == s.to_multiset().insert(g),
        insert_group(s, g).len() == s.len() + 1,
    decreases s.len(),
{
    broadcast use vstd::seq_lib::group_to_multiset_ensures;

    lemma_insert_pos(s, g, 0);
    let p = insert_pos(s, g, 0);
    let r = insert_group(s, g);
    assert(r == s.insert(p, g));
    s.insert_ensures(p, g);
    assert forall|i: int, j: int| 0 <= i < j < r.len() implies group_le(
        #[trigger] r[i],
        #[trigger] r[j],
    ) by {
        if i < p && j < p {
            assert(r[i] == s[i] && r[j] == s[j]);
        } else if i < p && j == p {
            assert(r[i] == s[i]);
            assert(group_le(s[i], g));
        } else if i < p && j > p {
            assert(r[i] == s[i] && r[j] == s[j - 1]);
        } else if i == p {
            assert(r[j] == s[j - 1]);
            assert(j - 1 >= p);
            assert(spec_str_cmp(s[p].prefix, g.prefix) == Ordering::Greater);
            lemma_str_cmp_flip(g.prefix, s[p].prefix);
            assert(group_le(g, s[p]));
            if j - 1 == p {
            } else {
                assert(group_le(s[p], s[j - 1]));
                lemma_str_cmp_trans(g.prefix, s[p].prefix, s[j - 1].prefix);
            }
        } else {
            assert(r[i] == s[i - 1] && r[j] == s[j - 1]);
        }
    }
    assert(s.subrange(0, p).push(g) + s.subrange(p, s.len() as int) == r);
    lemma_multiset_commutative(s.subrange(0, p).push(g), s.subrange(p, s.len() as int));
    assert(s.subrange(0, p).push(g).to_multiset()
        == s.subrange(0, p).to_multiset().insert(g));
    assert(s.subrange(0, p) + s.subrange(p, s.len() as int) =~= s);
    lemma_multiset_commutative(s.subrange(0, p), s.subrange(p, s.len() as int));
    assert(r.to_multiset() =~= s.to_multiset().insert(g));
}

/// The expansion order is a sorted permutation of the construction
/// order.
pub proof fn lemma_sort_groups_props(gs: Seq<GroupV>)
    ensures
        sorted_le(sort_groups(gs)),
        sort_groups(gs).to_multiset() == gs.to_multiset(),
        sort_groups(gs).len() == gs.len(),
    decreases gs.len(),
{
    broadcast use vstd::seq_lib::group_to_multiset_ensures;

    if gs.len() == 0 {
        assert(sort_groups(gs).to_multiset() =~= gs.to_multiset());
    } else {
        let dl = gs.drop_last();
        lemma_sort_groups_props(dl);
        lemma_insert_group_sorted(sort_groups(dl), gs.last());
        assert(dl.push(gs.last()) =~= gs);
        assert(dl.push(gs.last()).to_multiset() == dl.to_multiset().insert(gs.last()));
    }
}

/// A value counted at least twice occupies two positions.
proof fn lemma_count_two_positions(s: Seq<GroupV>, x: GroupV)
    requires
        s.to_multiset().count(x) >= 2,
    ensures
        exists|i: int, j: int| 0 <= i < j < s.len() && #[trigger] s[i] == x && #[trigger] s[j] == x,
{
    broadcast use vstd::seq_lib::group_to_multiset_ensures;

    assert(s.contains(x));
    let i = choose|i: int| 0 <= i < s.len() && s[i] == x;
    let rest = s.remove(i);
    vstd::seq_lib::to_multiset_remove(s, i);
    assert(rest.to_multiset().count(x) >= 1);
    assert(rest.contains(x));
    let k = choose|k: int| 0 <= k < rest.len() && rest[k] == x;
    if k < i {
        assert(s[k] == x);
        assert(0 <= k < i < s.len() && s[k] == x && s[i] == x);
    } else {
        assert(s[k + 1] == x);
        assert(0 <= i < k + 1 < s.len() && s[i] == x && s[k + 1] == x);
    }
}

/// Distinctness of prefixes carries over to any permutation.
pub proof fn lemma_distinct_permutation(s: Seq<GroupV>, t: Seq<GroupV>)
    requires
        s.to_multiset() == t.to_multiset(),
        distinct_prefixes(s),
    ensures
        distinct_prefixes(t),
{
    broadcast use vstd::seq_lib::group_to_multiset_ensures;

    assert forall|i: int, j: int| 0 <= i < j < t.len() implies (#[trigger] t[i]).prefix
        != (#[trigger] t[j]).prefix by {
        let x = t[i];
        let y = t[j];
        if x.prefix == y.prefix {
            if x == y {
                vstd::seq_lib::to_multiset_remove(t, i);
                assert(t.remove(i).to_multiset().count(x) >= 1) by {
                    assert(t.remove(i)[j - 1] == x);
                    assert(t.remove(i).contains(x));
                }
                assert(t.to_multiset().count(x) >= 2);
                lemma_count_two_positions(s, x);
            } else {
                assert(t.contains(x) && t.contains(y));
                assert(t.to_multiset().count(x) > 0 && t.to_multiset().count(y) > 0);
                assert(s.to_multiset().count(x) > 0 && s.to_multiset().count(y) > 0);
                assert(s.contains(x) && s.contains(y));
                let ix = choose|k: int| 0 <= k < s.len() && s[k] == x;
                let iy = choose|k: int| 0 <= k < s.len() && s[k] == y;
                assert(ix != iy);
            }
        }
    }
}

/// Two sorted permutations of groups with pairwise distinct prefixes are
/// the same sequence.
pub proof fn lemma_sorted_unique(p: Seq<GroupV>, q: Seq<GroupV>)
    requires
        sorted_le(p),
        sorted_le(q),
        p.to_multiset() == q.to_multiset(),
        distinct_prefixes(p),
    ensures
        p == q,
    decreases p.len(),
{
    broadcast use vstd::seq_lib::group_to_multiset_ensures;

    vstd::seq_lib::to_multiset_len(p);
    vstd::seq_lib::to_multiset_len(q);
    assert(p.len() == q.len());
    if p.len() == 0 {
        assert(p =~= q);
    } else {
        assert(q.contains(p[0])) by {
            assert(p.contains(p[0]));
            assert(p.to_multiset().count(p[0]) > 0);
            assert(q.to_multiset().count(p[0]) > 0);
        }
        assert(p.contains(q[0])) by {
            assert(q.contains(q[0]));
            assert(q.to_multiset().count(q[0]) > 0);
            assert(p.to_multiset().count(q[0]) > 0);
        }
        let k = choose|k: int| 0 <= k < q.len() && q[k] == p[0];
        let m = choose|m: int| 0 <= m < p.len() && p[m] == q[0];
        assert(group_le(q[0], p[0])) by {
            if k > 0 {
                assert(group_le(q[0], q[k]));
            } else {
                lemma_group_le_total(q[0], p[0]);
            }
        }
        assert(group_le(p[0], q[0])) by {
            if m > 0 {
                assert(group_le(p[0], p[m]));
            } else {
                lemma_group_le_total(p[0], q[0]);
            }
        }
        lemma_group_le_antisym(p[0], q[0]);
        assert(p[0].prefix == q[0].prefix);
        if m > 0 {
            assert(p[m].prefix == p[0].prefix);
            assert(false);
        }
        assert(p[0] == q[0]);
        let pr = p.remove(0);
        let qr = q.remove(0);
        vstd::seq_lib::to_multiset_remove(p, 0);
        vstd::seq_lib::to_multiset_remove(q, 0);
        assert(pr.to_multiset() =~= qr.to_multiset()) by {
            assert(p.to_multiset() == pr.to_multiset().insert(p[0]));
            assert(q.to_multiset() == qr.to_multiset().insert(q[0]));
            assert forall|z: GroupV| pr.to_multiset().count(z) == qr.to_multiset().count(z) by {
                vstd::multiset::lemma_insert_increases_count_by_1(pr.to_multiset(), p[0]);
                vstd::multiset::lemma_insert_increases_count_by_1(qr.to_multiset(), q[0]);
                if z == p[0] {
                } else {
                    vstd::multiset::lemma_insert_other_elements_unchanged(
                        pr.to_multiset(),
                        p[0],
                        z,
                    );
                    vstd::multiset::lemma_insert_other_elements_unchanged(
                        qr.to_multiset(),
                        q[0],
                        z,
                    );
                }
            }
        }
        assert(sorted_le(pr)) by {
            assert(forall|i: int| 0 <= i < pr.len() ==> pr[i] == p[i + 1]);
        }
        assert(sorted_le(qr)) by {
            assert(forall|i: int| 0 <= i < qr.len() ==> qr[i] == q[i + 1]);
        }
        assert(distinct_prefixes(pr)) by {
            assert(forall|i: int| 0 <= i < pr.len() ==> pr[i] == p[i + 1]);
        }
        lemma_sorted_unique(pr, qr);
        assert forall|i: int| 0 <= i < p.len() implies p[i] == q[i] by {
            if i > 0 {
                assert(pr[i - 1] == p[i]);
                assert(qr[i - 1] == q[i]);
                assert(pr[i - 1] == qr[i - 1]);
            }
        }
        assert(p =~= q);
    }
}

/// Order invariance of expansion: two models holding the same groups in
/// different construction orders, with pairwise distinct prefixes,
/// expand to the same string — only the prefix-comparator order
/// determines emission order.
pub proof fn lemma_expand_order_invariant(b1: BrexV, b2: BrexV)
    requires
        b1.preamble == b2.preamble,
        b1.postamble == b2.postamble,
        b1.groups.to_multiset() == b2.groups.to_multiset(),
        distinct_prefixes(b1.groups),
    ensures
        spec_expand(b1) == spec_expand(b2),
{
    lemma_sort_groups_props(b1.groups);
    lemma_sort_groups_props(b2.groups);
    lemma_distinct_permutation(b1.groups, sort_groups(b1.groups));
    lemma_sorted_unique(sort_groups(b1.groups), sort_groups(b2.groups));
}

/// The literal fallback round trip: when the encoder degrades to the
/// pure-literal model, expansion reproduces the original string exactly,
/// and the model serializes to the original string itself.
pub proof fn lemma_encode_literal_round_trip(raw: Seq<char>)
    requires
        spec_encode(raw) is Ok,
        spec_encode(raw)->Ok_0.groups.len() == 0,
    ensures
        spec_encode(raw)->Ok_0 == literal_model(raw),
        spec_expand(spec_encode(raw)->Ok_0) == raw,
        crate::models::brex::spec_serialize(spec_encode(raw)->Ok_0) == raw,
{
    let m = spec_encode(raw)->Ok_0;
    assert(m == literal_model(raw)) by {
        let line = if crate::encode::ends_with_bin(raw) {
            raw.subrange(0, raw.len() - 4)
        } else {
            raw
        };
        let ts = crate::util::spec_tokenize(line, '_');
        let a = crate::encode::rle(crate::encode::evens(ts));
        let b = crate::encode::rle(crate::encode::odds(ts));
        let offset: int = if a.len() <= b.len() {
            0
        } else {
            1
        };
        let best = if a.len() <= b.len() {
            a
        } else {
            b
        };
        let skip = crate::encode::first_repeat(best, 0);
        if skip < best.len() {
            crate::encode::lemma_first_repeat_bounds(best, 0);
            let p = offset + 2 * skip;
            assert(p >= 0);
            if p < ts.len() && (ts.len() - p) % 2 == 0 {
                let rgv = collect_groups(ts, p);
                assert(p + 1 < ts.len());
                assert(rgv.len() >= 1);
                crate::encode::lemma_build_groups_len(rgv);
                assert(m.groups.len() >= 1);
            }
        }
    };
    lemma_expand_literal(raw);
}

/// A pure-literal model expands and serializes to its preamble text.
pub proof fn lemma_expand_literal(raw: Seq<char>)
    ensures
        spec_expand(literal_model(raw)) == raw,
        crate::models::brex::spec_serialize(literal_model(raw)) == raw,
{
    let m = literal_model(raw);
    assert(sort_groups(m.groups) =~= Seq::<GroupV>::empty());
    assert(expand_groups(sort_groups(m.groups), 0) =~= Seq::<char>::empty());
    assert(opt_text(m.preamble) + Seq::<char>::empty() + Seq::<char>::empty() =~= raw);
}

/// Grammar text without a block start symbol parses as the pure-literal
/// model, which expands and serializes back to the text unchanged.
pub proof fn lemma_parse_literal(text: Seq<char>)
    requires
        forall|k: int| 0 <= k < text.len() ==> #[trigger] text[k] != '❮',
    ensures
        spec_parse_brex(text) is Ok,
        spec_expand(spec_parse_brex(text)->Ok_0) == text,
        crate::models::brex::spec_serialize(spec_parse_brex(text)->Ok_0) == text,
{
    lemma_scan_eq_is(text, 0, '❮', text.len() as int);
    let m = spec_parse_brex(text)->Ok_0;
    assert(m.groups =~= Seq::<GroupV>::empty());
    assert(sort_groups(m.groups) =~= Seq::<GroupV>::empty());
    assert(expand_groups(sort_groups(m.groups), 0) =~= Seq::<char>::empty());
    if text.len() == 0 {
        assert(opt_text(m.preamble) =~= text);
    }
    assert(opt_text(m.preamble) + Seq::<char>::empty() + Seq::<char>::empty() =~= text);
}


/// Parsing reads back one serialized numeric, whenever the character
/// after it (if any) neither extends a digit run nor opens a range.
proof fn lemma_parse_ser_numeric(s: Seq<char>, i: int, n: Numeric)
    requires
        0 <= i,
        i + spec_ser_numeric(n).len() <= s.len(),
        s.subrange(i, i + spec_ser_numeric(n).len()) == spec_ser_numeric(n),
        i + spec_ser_numeric(n).len() < s.len() ==> !is_digit(s[i + spec_ser_numeric(n).len()])
            && s[i + spec_ser_numeric(n).len()] != '→',
    ensures
        spec_parse_numeric(s, i as nat) == Ok::<(Numeric, int), Error>((
            n,
            i + spec_ser_numeric(n).len(),
        )),
{
    let ser = spec_ser_numeric(n);
    let e = i + ser.len();
    match n {
        Numeric::Single(v) => {
            let d = spec_dec(v as nat);
            lemma_dec(v as nat);
            let j = i + d.len();
            assert forall|k: int| i <= k < j implies is_digit(#[trigger] s[k]) by {
                assert(s[k] == s.subrange(i, e)[k - i]);
                assert(d[k - i] == ser[k - i]);
            }
            lemma_scan_digit_end_is(s, i, j);
            assert(s.subrange(i, j) =~= d) by {
                assert forall|k: int| 0 <= k < d.len() implies s.subrange(i, j)[k] == d[k] by {
                    assert(s.subrange(i, j)[k] == s[i + k]);
                    assert(s[i + k] == s.subrange(i, e)[k]);
                }
            }
            assert(digits_val(s.subrange(i, j)) == v as nat);
        },
        Numeric::Range(a, b) => {
            let da = spec_dec(a as nat);
            let db = spec_dec(b as nat);
            lemma_dec(a as nat);
            lemma_dec(b as nat);
            let j1 = i + da.len();
            assert forall|k: int| i <= k < j1 implies is_digit(#[trigger] s[k]) by {
                assert(s[k] == s.subrange(i, e)[k - i]);
                assert(ser[k - i] == da[k - i]);
            }
            assert(s[j1] == ser[da.len() as int]) by {
                assert(s[j1] == s.subrange(i, e)[da.len() as int]);
            }
            assert(s[j1] == '→');
            assert(!is_digit('→'));
            lemma_scan_digit_end_is(s, i, j1);
            assert(s.subrange(i, j1) =~= da) by {
                assert forall|k: int| 0 <= k < da.len() implies s.subrange(i, j1)[k] == da[k] by {
                    assert(s.subrange(i, j1)[k] == s[i + k]);
                    assert(s[i + k] == s.subrange(i, e)[k]);
                }
            }
            assert(digits_val(s.subrange(i, j1)) == a as nat);
            let j2 = j1 + 1;
            assert forall|k: int| j2 <= k < e implies is_digit(#[trigger] s[k]) by {
                assert(s[k] == s.subrange(i, e)[k - i]);
                assert(ser[k - i] == db[k - i - da.len() - 1]);
            }
            lemma_scan_digit_end_is(s, j2, e);
            assert(s.subrange(j2, e) =~= db) by {
                assert forall|k: int| 0 <= k < db.len() implies s.subrange(j2, e)[k] == db[k] by {
                    assert(s.subrange(j2, e)[k] == s[j2 + k]);
                    assert(s[j2 + k] == s.subrange(i, e)[k + da.len() + 1]);
                }
            }
            assert(digits_val(s.subrange(j2, e)) == b as nat);
            assert(e != j2);
        },
    }
}

/// Parsing reads back a serialized numeric list that ends at the block
/// close brace.
proof fn lemma_parse_ser_numerics(s: Seq<char>, i: int, ns: Seq<Numeric>, idx: int)
    requires
        0 <= idx < ns.len(),
        0 <= i,
        i + spec_ser_numeric(ns[idx]).len() + spec_ser_numerics_tail(ns, idx + 1).len() < s.len(),
        s.subrange(
            i,
            i + spec_ser_numeric(ns[idx]).len() + spec_ser_numerics_tail(ns, idx + 1).len(),
        ) == spec_ser_numeric(ns[idx]) + spec_ser_numerics_tail(ns, idx + 1),
        s[i + spec_ser_numeric(ns[idx]).len() + spec_ser_numerics_tail(ns, idx + 1).len()] == '}',
    ensures
        spec_parse_numeric_list(s, i as nat) == Ok::<(Seq<Numeric>, int), Error>((
            ns.subrange(idx, ns.len() as int),
            i + spec_ser_numeric(ns[idx]).len() + spec_ser_numerics_tail(ns, idx + 1).len(),
        )),
    decreases ns.len() - idx,
{
    let ser0 = spec_ser_numeric(ns[idx]);
    let tail = spec_ser_numerics_tail(ns, idx + 1);
    let e = i + ser0.len() + tail.len();
    let j = i + ser0.len();
    assert(s.subrange(i, j) =~= ser0) by {
        assert forall|k: int| 0 <= k < ser0.len() implies s.subrange(i, j)[k] == ser0[k] by {
            assert(s.subrange(i, j)[k] == s[i + k]);
            assert(s[i + k] == s.subrange(i, e)[k]);
            assert((ser0 + tail)[k] == ser0[k]);
        }
    }
    if idx == ns.len() - 1 {
        assert(tail =~= Seq::<char>::empty());
        assert(j == e);
        assert(!is_digit('}') && '}' != '→');
        lemma_parse_ser_numeric(s, i, ns[idx]);
        assert(s[j] == '}');
        assert(ns.subrange(idx, ns.len() as int) =~= seq![ns[idx]]);
    } else {
        assert(tail == seq![','] + spec_ser_numeric(ns[idx + 1]) + spec_ser_numerics_tail(
            ns,
            idx + 2,
        ));
        assert(s[j] == (ser0 + tail)[ser0.len() as int]) by {
            assert(s[j] == s.subrange(i, e)[ser0.len() as int]);
        }
        assert(s[j] == ',');
        assert(!is_digit(',') && ',' != '→');
        lemma_parse_ser_numeric(s, i, ns[idx]);
        let i2 = j + 1;
        let ser1 = spec_ser_numeric(ns[idx + 1]);
        let tail1 = spec_ser_numerics_tail(ns, idx + 2);
        assert(i2 + ser1.len() + tail1.len() == e);
        assert(s.subrange(i2, e) =~= ser1 + tail1) by {
            assert forall|k: int| 0 <= k < ser1.len() + tail1.len() implies s.subrange(i2, e)[k]
                == (ser1 + tail1)[k] by {
                assert(s.subrange(i2, e)[k] == s[i2 + k]);
                assert(s[i2 + k] == s.subrange(i, e)[k + ser0.len() + 1]);
                assert((ser0 + tail)[k + ser0.len() + 1] == tail[k + 1]);
                assert(tail[k + 1] == (seq![','] + ser1 + tail1)[k + 1]);
            }
        }
        lemma_parse_ser_numerics(s, i2, ns, idx + 1);
        assert(ns.subrange(idx, ns.len() as int) =~= seq![ns[idx]] + ns.subrange(
            idx + 1,
            ns.len() as int,
        ));
    }
}


/// Text well-formedness of one suffix: serializable and re-parseable.
pub open spec fn wf_text_suffix(sf: SuffixV) -> bool {
    &&& sf.text.len() >= 1
    &&& forall|k: int| 0 <= k < sf.text.len() ==> !is_suffix_stop(#[trigger] sf.text[k])
    &&& match sf.numerics {
        Some(ns) => ns.len() >= 1,
        None => true,
    }
}

/// Parsing reads back one serialized suffix, whenever the character
/// after it is a suffix separator or a close brace.
proof fn lemma_parse_ser_suffix(s: Seq<char>, i: int, sf: SuffixV)
    requires
        wf_text_suffix(sf),
        0 <= i,
        i + spec_ser_suffix(sf).len() < s.len(),
        s.subrange(i, i + spec_ser_suffix(sf).len()) == spec_ser_suffix(sf),
        s[i + spec_ser_suffix(sf).len()] == ',' || s[i + spec_ser_suffix(sf).len()] == '}',
    ensures
        spec_parse_suffix(s, i as nat) == Ok::<(SuffixV, int), Error>((
            sf,
            i + spec_ser_suffix(sf).len(),
        )),
{
    let ser = spec_ser_suffix(sf);
    let e = i + ser.len();
    let text = sf.text;
    let j = i + text.len();
    assert forall|k: int| i <= k < j implies !is_suffix_stop(#[trigger] s[k]) by {
        assert(s[k] == s.subrange(i, e)[k - i]);
        assert(ser[k - i] == text[k - i]);
    }
    assert(s.subrange(i, j) =~= text) by {
        assert forall|k: int| 0 <= k < text.len() implies s.subrange(i, j)[k] == text[k] by {
            assert(s.subrange(i, j)[k] == s[i + k]);
            assert(s[i + k] == s.subrange(i, e)[k]);
        }
    }
    match sf.numerics {
        None => {
            assert(j == e);
            assert(is_suffix_stop(s[j]));
            lemma_scan_suffix_end_is(s, i, j);
            assert(s[j] != '{');
            assert(spec_parse_suffix(s, i as nat)->Ok_0.0 =~= sf);
        },
        Some(ns) => {
            assert(s[j] == ser[text.len() as int]) by {
                assert(s[j] == s.subrange(i, e)[text.len() as int]);
            }
            assert(s[j] == '{');
            assert(is_suffix_stop(s[j]));
            lemma_scan_suffix_end_is(s, i, j);
            let i2 = j + 1;
            let ser0 = spec_ser_numeric(ns[0]);
            let tail = spec_ser_numerics_tail(ns, 1);
            assert(spec_ser_numerics(ns) == ser0 + tail);
            let k2 = i2 + ser0.len() + tail.len();
            assert(k2 == e - 1);
            assert(s.subrange(i2, k2) =~= ser0 + tail) by {
                assert forall|m: int| 0 <= m < ser0.len() + tail.len() implies s.subrange(
                    i2,
                    k2,
                )[m] == (ser0 + tail)[m] by {
                    assert(s.subrange(i2, k2)[m] == s[i2 + m]);
                    assert(s[i2 + m] == s.subrange(i, e)[m + text.len() + 1]);
                    assert(ser[m + text.len() + 1] == spec_ser_numerics(ns)[m]);
                }
            }
            assert(s[k2] == ser[ser.len() - 1]) by {
                assert(s[k2] == s.subrange(i, e)[ser.len() - 1]);
            }
            assert(s[k2] == '}');
            lemma_parse_ser_numerics(s, i2, ns, 0);
            assert(ns.subrange(0, ns.len() as int) =~= ns);
            assert(spec_parse_suffix(s, i as nat)->Ok_0.0 =~= sf);
        },
    }
}

/// Parsing reads back a serialized suffix list that ends at the group
/// close brace.
proof fn lemma_parse_ser_suffixes(s: Seq<char>, i: int, ss: Seq<SuffixV>, idx: int)
    requires
        0 <= idx < ss.len(),
        forall|k: int| 0 <= k < ss.len() ==> wf_text_suffix(#[trigger] ss[k]),
        0 <= i,
        i + spec_ser_suffix(ss[idx]).len() + spec_ser_suffixes_tail(ss, idx + 1).len() < s.len(),
        s.subrange(
            i,
            i + spec_ser_suffix(ss[idx]).len() + spec_ser_suffixes_tail(ss, idx + 1).len(),
        ) == spec_ser_suffix(ss[idx]) + spec_ser_suffixes_tail(ss, idx + 1),
        s[i + spec_ser_suffix(ss[idx]).len() + spec_ser_suffixes_tail(ss, idx + 1).len()] == '}',
    ensures
        spec_parse_suffix_list(s, i as nat) == Ok::<(Seq<SuffixV>, int), Error>((
            ss.subrange(idx, ss.len() as int),
            i + spec_ser_suffix(ss[idx]).len() + spec_ser_suffixes_tail(ss, idx + 1).len(),
        )),
    decreases ss.len() - idx,
{
    let ser0 = spec_ser_suffix(ss[idx]);
    let tail = spec_ser_suffixes_tail(ss, idx + 1);
    let e = i + ser0.len() + tail.len();
    let j = i + ser0.len();
    assert(s.subrange(i, j) =~= ser0) by {
        assert forall|k: int| 0 <= k < ser0.len() implies s.subrange(i, j)[k] == ser0[k] by {
            assert(s.subrange(i, j)[k] == s[i + k]);
            assert(s[i + k] == s.subrange(i, e)[k]);
            assert((ser0 + tail)[k] == ser0[k]);
        }
    }
    if idx == ss.len() - 1 {
        assert(tail =~= Seq::<char>::empty());
        assert(j == e);
        lemma_parse_ser_suffix(s, i, ss[idx]);
        assert(s[j] == '}');
        assert(ss.subrange(idx, ss.len() as int) =~= seq![ss[idx]]);
    } else {
        assert(tail == seq![','] + spec_ser_suffix(ss[idx + 1]) + spec_ser_suffixes_tail(
            ss,
            idx + 2,
        ));
        assert(s[j] == (ser0 + tail)[ser0.len() as int]) by {
            assert(s[j] == s.subrange(i, e)[ser0.len() as int]);
        }
        assert(s[j] == ',');
        lemma_parse_ser_suffix(s, i, ss[idx]);
        let i2 = j + 1;
        let ser1 = spec_ser_suffix(ss[idx + 1]);
        let tail1 = spec_ser_suffixes_tail(ss, idx + 2);
        assert(i2 + ser1.len() + tail1.len() == e);
        assert(s.subrange(i2, e) =~= ser1 + tail1) by {
            assert forall|k: int| 0 <= k < ser1.len() + tail1.len() implies s.subrange(i2, e)[k]
                == (ser1 + tail1)[k] by {
                assert(s.subrange(i2, e)[k] == s[i2 + k]);
                assert(s[i2 + k] == s.subrange(i, e)[k + ser0.len() + 1]);
                assert((ser0 + tail)[k + ser0.len() + 1] == tail[k + 1]);
                assert(tail[k + 1] == (seq![','] + ser1 + tail1)[k + 1]);
            }
        }
        lemma_parse_ser_suffixes(s, i2, ss, idx + 1);
        assert(ss.subrange(idx, ss.len() as int) =~= seq![ss[idx]] + ss.subrange(
            idx + 1,
            ss.len() as int,
        ));
    }
}


/// Text well-formedness of one group: serializable and re-parseable.
pub open spec fn wf_text_group(g: GroupV) -> bool {
    &&& forall|k: int| 0 <= k < g.prefix.len() ==> #[trigger] g.prefix[k] != '{'
    &&& (g.prefix.len() > 0 ==> g.prefix[0] != '❯')
    &&& g.suffixes.len() >= 1
    &&& forall|k: int| 0 <= k < g.suffixes.len() ==> wf_text_suffix(#[trigger] g.suffixes[k])
}

/// Parsing reads back one serialized group.
proof fn lemma_parse_ser_group(s: Seq<char>, i: int, g: GroupV)
    requires
        wf_text_group(g),
        0 <= i,
        i + spec_ser_group(g).len() <= s.len(),
        s.subrange(i, i + spec_ser_group(g).len()) == spec_ser_group(g),
    ensures
        spec_parse_group(s, i as nat) == Ok::<(GroupV, int), Error>((
            g,
            i + spec_ser_group(g).len(),
        )),
{
    let ser = spec_ser_group(g);
    let e = i + ser.len();
    let j = i + g.prefix.len();
    assert forall|k: int| i <= k < j implies #[trigger] s[k] != '{' by {
        assert(s[k] == s.subrange(i, e)[k - i]);
        assert(ser[k - i] == g.prefix[k - i]);
    }
    assert(s[j] == ser[g.prefix.len() as int]) by {
        assert(s[j] == s.subrange(i, e)[g.prefix.len() as int]);
    }
    assert(s[j] == '{');
    lemma_scan_eq_is(s, i, '{', j);
    assert(s.subrange(i, j) =~= g.prefix) by {
        assert forall|k: int| 0 <= k < g.prefix.len() implies s.subrange(i, j)[k]
            == g.prefix[k] by {
            assert(s.subrange(i, j)[k] == s[i + k]);
            assert(s[i + k] == s.subrange(i, e)[k]);
        }
    }
    let ss = g.suffixes;
    let i2 = j + 1;
    let ser0 = spec_ser_suffix(ss[0]);
    let tail = spec_ser_suffixes_tail(ss, 1);
    assert(spec_ser_suffixes(ss) == ser0 + tail);
    let k2 = i2 + ser0.len() + tail.len();
    assert(k2 == e - 1);
    assert(s.subrange(i2, k2) =~= ser0 + tail) by {
        assert forall|m: int| 0 <= m < ser0.len() + tail.len() implies s.subrange(i2, k2)[m]
            == (ser0 + tail)[m] by {
            assert(s.subrange(i2, k2)[m] == s[i2 + m]);
            assert(s[i2 + m] == s.subrange(i, e)[m + g.prefix.len() + 1]);
            assert(ser[m + g.prefix.len() + 1] == spec_ser_suffixes(ss)[m]);
        }
    }
    assert(s[k2] == ser[ser.len() - 1]) by {
        assert(s[k2] == s.subrange(i, e)[ser.len() - 1]);
    }
    assert(s[k2] == '}');
    lemma_parse_ser_suffixes(s, i2, ss, 0);
    assert(ss.subrange(0, ss.len() as int) =~= ss);
    assert(spec_parse_group(s, i as nat)->Ok_0.0 =~= g);
}

/// Parsing reads back serialized groups until the block end symbol.
proof fn lemma_parse_ser_groups(s: Seq<char>, i: int, gs: Seq<GroupV>, idx: int)
    requires
        0 <= idx < gs.len(),
        forall|k: int| 0 <= k < gs.len() ==> wf_text_group(#[trigger] gs[k]),
        0 <= i,
        i + spec_ser_groups(gs, idx).len() < s.len(),
        s.subrange(i, i + spec_ser_groups(gs, idx).len()) == spec_ser_groups(gs, idx),
        s[i + spec_ser_groups(gs, idx).len()] == '❯',
    ensures
        spec_parse_groups(s, i as nat) == Ok::<(Seq<GroupV>, int), Error>((
            gs.subrange(idx, gs.len() as int),
            i + spec_ser_groups(gs, idx).len(),
        )),
    decreases gs.len() - idx,
{
    let ser0 = spec_ser_group(gs[idx]);
    let rest = spec_ser_groups(gs, idx + 1);
    assert(spec_ser_groups(gs, idx) == ser0 + rest);
    let e = i + ser0.len() + rest.len();
    let j = i + ser0.len();
    assert(s.subrange(i, j) =~= ser0) by {
        assert forall|k: int| 0 <= k < ser0.len() implies s.subrange(i, j)[k] == ser0[k] by {
            assert(s.subrange(i, j)[k] == s[i + k]);
            assert(s[i + k] == s.subrange(i, e)[k]);
            assert((ser0 + rest)[k] == ser0[k]);
        }
    }
    lemma_parse_ser_group(s, i, gs[idx]);
    if idx == gs.len() - 1 {
        assert(rest =~= Seq::<char>::empty());
        assert(j == e);
        assert(s[j] == '❯');
        assert(gs.subrange(idx, gs.len() as int) =~= seq![gs[idx]]);
    } else {
        let ser1 = spec_ser_group(gs[idx + 1]);
        assert(rest == ser1 + spec_ser_groups(gs, idx + 2));
        assert(ser1.len() >= 2);
        assert(s[j] == (ser0 + rest)[ser0.len() as int]) by {
            assert(s[j] == s.subrange(i, e)[ser0.len() as int]);
        }
        assert(s[j] == rest[0]);
        assert(rest[0] == ser1[0]);
        let g1 = gs[idx + 1];
        assert(wf_text_group(g1));
        if g1.prefix.len() > 0 {
            assert(ser1[0] == g1.prefix[0]);
            assert(s[j] != '❯');
        } else {
            assert(ser1[0] == '{');
            assert(s[j] != '❯');
        }
        assert(ser0.len() >= 2);
        assert(s.subrange(j, e) =~= rest) by {
            assert forall|k: int| 0 <= k < rest.len() implies s.subrange(j, e)[k] == rest[k] by {
                assert(s.subrange(j, e)[k] == s[j + k]);
                assert(s[j + k] == s.subrange(i, e)[k + ser0.len()]);
                assert((ser0 + rest)[k + ser0.len()] == rest[k]);
            }
        }
        lemma_parse_ser_groups(s, j, gs, idx + 1);
        assert(gs.subrange(idx, gs.len() as int) =~= seq![gs[idx]] + gs.subrange(
            idx + 1,
            gs.len() as int,
        ));
    }
}

/// Text well-formedness of a whole model: what serialization must avoid
/// for the parser to read the model back exactly.
pub open spec fn wf_text_model(m: BrexV) -> bool {
    &&& match m.preamble {
        Some(p) => p.len() >= 1 && forall|k: int| 0 <= k < p.len() ==> #[trigger] p[k] != '❮',
        None => true,
    }
    &&& match m.postamble {
        Some(p) => p.len() >= 1,
        None => true,
    }
    &&& (m.groups.len() == 0 ==> m.postamble is None)
    &&& forall|k: int| 0 <= k < m.groups.len() ==> wf_text_group(#[trigger] m.groups[k])
}

/// Parsing is the exact inverse of serialization on well-formed models.
pub proof fn lemma_parse_serialize(m: BrexV)
    requires
        wf_text_model(m),
    ensures
        spec_parse_brex(spec_serialize(m)) == Ok::<BrexV, Error>(m),
{
    let s = spec_serialize(m);
    let pre = opt_text(m.preamble);
    if m.groups.len() == 0 {
        assert(s == pre);
        assert forall|k: int| 0 <= k < s.len() implies #[trigger] s[k] != '❮' by {
            match m.preamble {
                Some(p) => {
                    assert(s[k] == p[k]);
                },
                None => (),
            };
        }
        lemma_scan_eq_is(s, 0, '❮', s.len() as int);
        let r = spec_parse_brex(s)->Ok_0;
        match m.preamble {
            Some(p) => {
                assert(p.len() >= 1);
                assert(r =~~= m);
            },
            None => {
                assert(s.len() == 0);
                assert(r =~~= m);
            },
        }
    } else {
        let gs = m.groups;
        let gser = spec_ser_groups(gs, 0);
        let post = opt_text(m.postamble);
        assert(s == pre + seq!['❮'] + gser + seq!['❯'] + post);
        let b = pre.len() as int;
        assert forall|k: int| 0 <= k < b implies #[trigger] s[k] != '❮' by {
            assert(s[k] == pre[k]);
        }
        assert(s[b] == '❮');
        lemma_scan_eq_is(s, 0, '❮', b);
        assert(b < s.len());
        let i = b + 1;
        let e = i + gser.len();
        assert(s.subrange(i, e) =~= gser) by {
            assert forall|k: int| 0 <= k < gser.len() implies s.subrange(i, e)[k] == gser[k] by {
                assert(s.subrange(i, e)[k] == s[i + k]);
                assert(s[i + k] == (pre + seq!['❮'] + gser + seq!['❯'] + post)[i + k]);
            }
        }
        assert(s[e] == '❯');
        lemma_parse_ser_groups(s, i, gs, 0);
        assert(gs.subrange(0, gs.len() as int) =~= gs);
        let r = spec_parse_brex(s)->Ok_0;
        assert(r.groups == gs);
        match m.preamble {
            Some(p) => {
                assert(b > 0);
                assert(s.subrange(0, b) =~= p);
            },
            None => {
                assert(b == 0);
            },
        }
        match m.postamble {
            Some(p) => {
                assert(e + 1 < s.len());
                assert(s.subrange(e + 1, s.len() as int) =~= p);
            },
            None => {
                assert(e + 1 == s.len());
            },
        }
        assert(r =~~= m);
    }
}

/// Serialization fixpoint: for a well-formed model, one
/// serialize/parse cycle reaches a fixed point — the reparsed model
/// serializes to the same text exactly.
pub proof fn lemma_serialization_fixpoint(m: BrexV)
    requires
        wf_text_model(m),
    ensures
        spec_parse_brex(spec_serialize(m)) is Ok,
        spec_serialize(spec_parse_brex(spec_serialize(m))->Ok_0) == spec_serialize(m),
{
    lemma_parse_serialize(m);
}


/// A character property of the flattening holds of every token's every
/// character.
proof fn lemma_token_chars(ts: Seq<Seq<char>>, ok: spec_fn(char) -> bool)
    requires
        forall|k: int| 0 <= k < ts.flatten().len() ==> ok(#[trigger] ts.flatten()[k]),
    ensures
        forall|k: int, m: int|
            0 <= k < ts.len() && 0 <= m < ts[k].len() ==> ok(#[trigger] ts[k][m]),
    decreases ts.len(),
{
    if ts.len() > 0 {
        let rest = ts.drop_first();
        assert(ts.flatten() == ts.first() + rest.flatten());
        assert forall|k: int| 0 <= k < rest.flatten().len() implies ok(
            #[trigger] rest.flatten()[k],
        ) by {
            assert(rest.flatten()[k] == ts.flatten()[k + ts.first().len()]);
        }
        lemma_token_chars(rest, ok);
        assert forall|k: int, m: int|
            0 <= k < ts.len() && 0 <= m < ts[k].len() implies ok(#[trigger] ts[k][m]) by {
            if k == 0 {
                assert(ts[0][m] == ts.flatten()[m]);
            } else {
                assert(ts[k][m] == rest[k - 1][m]);
            }
        }
    }
}

/// Whether the text avoids every structural character of the alphabet.
pub open spec fn no_structural_chars(s: Seq<char>) -> bool {
    forall|k: int|
        0 <= k < s.len()
            ==> #[trigger] s[k] != '❮' && s[k] != '❯' && s[k] != '{' && s[k] != '}' && s[k] != ','
}

/// Properties of the collected groups: prefixes and candidates are
/// tokens, so their characters come from the token sequence, every
/// group has at least one candidate, and every candidate starts with
/// the token delimiter.
proof fn lemma_collect_groups_props(ts: Seq<Seq<char>>, j: int)
    requires
        0 <= j,
        forall|k: int, m: int|
            0 <= k < ts.len() && 0 <= m < ts[k].len() ==> no_stop(#[trigger] ts[k][m]),
        forall|k: int| 0 <= k < ts.len() ==> (#[trigger] ts[k]).len() >= 1,
        forall|k: int| 1 <= k < ts.len() ==> (#[trigger] ts[k])[0] == '_',
    ensures
        forall|g: int|
            0 <= g < collect_groups(ts, j).len() ==> {
                let grp = #[trigger] collect_groups(ts, j)[g];
                &&& forall|m: int| 0 <= m < grp.0.len() ==> no_stop(#[trigger] grp.0[m])
                &&& grp.1.len() >= 1
                &&& forall|c: int|
                    0 <= c < grp.1.len() ==> {
                        let cd = #[trigger] grp.1[c];
                        &&& cd.len() >= 1
                        &&& cd[0] == '_'
                        &&& forall|m: int| 0 <= m < cd.len() ==> no_stop(#[trigger] cd[m])
                    }
            },
    decreases ts.len() - j,
{
    if j + 1 < ts.len() {
        let r = pair_run_len(ts, j);
        lemma_pair_run_len_bound(ts, j);
        let next = if j + 2 * r <= ts.len() {
            j + 2 * r
        } else {
            ts.len() as int
        };
        lemma_collect_groups_props(ts, next);
        let cs = cands(ts, j, r);
        assert(r >= 1);
        assert forall|c: int| 0 <= c < cs.len() implies {
            let cd = #[trigger] cs[c];
            &&& cd.len() >= 1
            &&& cd[0] == '_'
            &&& forall|m: int| 0 <= m < cd.len() ==> no_stop(#[trigger] cd[m])
        } by {
            assert(cs[c] == ts[j + 2 * c + 1]);
            assert(j + 2 * c + 1 >= 1);
        }
        assert forall|g: int|
            0 <= g < collect_groups(ts, j).len() implies {
            let grp = #[trigger] collect_groups(ts, j)[g];
            &&& forall|m: int| 0 <= m < grp.0.len() ==> no_stop(#[trigger] grp.0[m])
            &&& grp.1.len() >= 1
            &&& forall|c: int|
                0 <= c < grp.1.len() ==> {
                    let cd = #[trigger] grp.1[c];
                    &&& cd.len() >= 1
                    &&& cd[0] == '_'
                    &&& forall|m: int| 0 <= m < cd.len() ==> no_stop(#[trigger] cd[m])
                }
        } by {
            if g == 0 {
                assert(collect_groups(ts, j)[0] == (ts[j], cs));
            } else {
                assert(collect_groups(ts, j)[g] == collect_groups(ts, next)[g - 1]);
            }
        }
    }
}

/// Whether the character is neither a structural character nor the
/// block delimiters.
pub open spec fn no_stop(c: char) -> bool {
    c != '❮' && c != '❯' && c != '{' && c != '}' && c != ','
}

/// Compaction keeps every literal and every stem non-empty and free of
/// structural characters.
proof fn lemma_compact_cands_texts(cs: Seq<Seq<char>>)
    requires
        forall|c: int|
            0 <= c < cs.len() ==> {
                let cd = #[trigger] cs[c];
                &&& cd.len() >= 1
                &&& cd[0] == '_'
                &&& forall|m: int| 0 <= m < cd.len() ==> no_stop(#[trigger] cd[m])
            },
    ensures
        forall|k: int|
            0 <= k < compact_cands(cs).0.len() ==> {
                let t = #[trigger] compact_cands(cs).0[k];
                t.len() >= 1 && forall|m: int| 0 <= m < t.len() ==> no_stop(#[trigger] t[m])
            },
        forall|k: int|
            0 <= k < compact_cands(cs).1.len() ==> {
                let t = (#[trigger] compact_cands(cs).1[k]).0;
                t.len() >= 1 && forall|m: int| 0 <= m < t.len() ==> no_stop(#[trigger] t[m])
            },
        compact_cands(cs).0.len() + compact_cands(cs).1.len() >= if cs.len() >= 1 {
            1int
        } else {
            0int
        },
    decreases cs.len(),
{
    if cs.len() > 0 {
        let dl = cs.drop_last();
        assert(forall|c: int| 0 <= c < dl.len() ==> dl[c] == cs[c]);
        lemma_compact_cands_texts(dl);
        let prev = compact_cands(dl);
        let cd = cs.last();
        assert(cd.len() >= 1 && cd[0] == '_' && forall|m: int| 0 <= m < cd.len() ==> no_stop(
            #[trigger] cd[m],
        ));
        let (stem, digits) = split_stem(cd);
        assert(compact_cands(cs) == compact_step(prev, cd));
        match digits {
            None => {
                assert(compact_cands(cs).0 == prev.0.push(cd));
                assert forall|k: int| 0 <= k < compact_cands(cs).0.len() implies {
                    let t = #[trigger] compact_cands(cs).0[k];
                    t.len() >= 1 && forall|m: int| 0 <= m < t.len() ==> no_stop(#[trigger] t[m])
                } by {
                    if k < prev.0.len() {
                        assert(compact_cands(cs).0[k] == prev.0[k]);
                    } else {
                        assert(compact_cands(cs).0[k] == cd);
                    }
                }
            },
            Some(ds) => {
                let f = first_digit_pos(cd, 0);
                assert(!crate::util::is_digit(cd[0]));
                assert(f >= 1) by {
                    assert(first_digit_pos(cd, 0) == first_digit_pos(cd, 1));
                    crate::encode::lemma_first_digit_pos_bounds(cd, 1);
                }
                assert(stem == cd.subrange(0, f));
                assert(f < cd.len());
                assert(stem.len() >= 1);
                assert(forall|m: int| 0 <= m < stem.len() ==> stem[m] == cd[m]);
                let tbl = crate::encode::add_value(prev.1, stem, digits_val(ds));
                crate::encode::lemma_stem_pos_props(prev.1, stem);
                let pos = crate::encode::stem_pos(prev.1, stem, 0);
                assert forall|k: int| 0 <= k < tbl.len() implies {
                    let t = (#[trigger] tbl[k]).0;
                    t.len() >= 1 && forall|m: int| 0 <= m < t.len() ==> no_stop(#[trigger] t[m])
                } by {
                    if pos < prev.1.len() {
                        if k == pos {
                            assert(tbl[k].0 == stem);
                        } else {
                            assert(tbl[k] == prev.1[k]);
                        }
                    } else {
                        if k < prev.1.len() {
                            assert(tbl[k] == prev.1[k]);
                        } else {
                            assert(tbl[k].0 == stem);
                        }
                    }
                }
            },
        }
    }
}


/// The encoder's output is text-well-formed whenever the raw input is
/// non-empty and free of structural characters.
pub proof fn lemma_encode_wf(raw: Seq<char>)
    requires
        spec_encode(raw) is Ok,
        raw.len() >= 1,
        no_structural_chars(raw),
    ensures
        wf_text_model(spec_encode(raw)->Ok_0),
{
    let m = spec_encode(raw)->Ok_0;
    if m.groups.len() == 0 {
        lemma_encode_literal_round_trip(raw);
        assert(m == literal_model(raw));
        assert(wf_text_model(m)) by {
            assert(forall|k: int| 0 <= k < raw.len() ==> #[trigger] raw[k] != '❮');
        }
    } else {
        let line = if ends_with_bin(raw) {
            raw.subrange(0, raw.len() - 4)
        } else {
            raw
        };
        assert forall|k: int| 0 <= k < line.len() implies no_stop(#[trigger] line[k]) by {
            assert(line[k] == raw[k]);
        }
        let ts = crate::util::spec_tokenize(line, '_');
        crate::util::lemma_tokenize(line, '_');
        let ok = |c: char| no_stop(c);
        assert forall|k: int| 0 <= k < ts.flatten().len() implies ok(
            #[trigger] ts.flatten()[k],
        ) by {
            assert(ts.flatten()[k] == line[k]);
        }
        lemma_token_chars(ts, ok);
        assert(forall|k: int, m2: int|
            0 <= k < ts.len() && 0 <= m2 < ts[k].len() ==> no_stop(#[trigger] ts[k][m2]));
        let a = rle(evens(ts));
        let b = rle(odds(ts));
        let offset: int = if a.len() <= b.len() {
            0
        } else {
            1
        };
        let best = if a.len() <= b.len() {
            a
        } else {
            b
        };
        let skip = first_repeat(best, 0);
        lemma_first_repeat_bounds(best, 0);
        let p = offset + 2 * skip;
        let rgv = collect_groups(ts, p);
        assert(m.groups == build_groups(rgv, 0));
        assert(!any_overflow(rgv));
        lemma_build_groups_index(rgv, 0);
        lemma_collect_groups_props(ts, p);
        assert forall|gi: int| 0 <= gi < m.groups.len() implies wf_text_group(
            #[trigger] m.groups[gi],
        ) by {
            assert(m.groups[gi] == compact_group(rgv[gi].0, rgv[gi].1));
            let prefix = rgv[gi].0;
            let cs = rgv[gi].1;
            assert(rgv[gi] == collect_groups(ts, p)[gi]);
            assert(forall|m2: int| 0 <= m2 < prefix.len() ==> no_stop(#[trigger] prefix[m2]));
            assert(cs.len() >= 1);
            assert(forall|c: int|
                0 <= c < cs.len() ==> {
                    let cd = #[trigger] cs[c];
                    &&& cd.len() >= 1
                    &&& cd[0] == '_'
                    &&& forall|m2: int| 0 <= m2 < cd.len() ==> no_stop(#[trigger] cd[m2])
                });
            assert forall|k: int| 0 <= k < cs.len() implies !cand_overflow(#[trigger] cs[k]) by {
                if cand_overflow(cs[k]) {
                    assert(crate::encode::has_overflow(cs));
                }
            }
            lemma_compact_cands_texts(cs);
            lemma_compact_cands_wf(cs);
            let ls = compact_cands(cs).0;
            let tbl = compact_cands(cs).1;
            lemma_literal_suffixes_index(ls, 0);
            lemma_numeric_suffixes_index(tbl, 0);
            let g = m.groups[gi];
            assert(g.prefix == prefix);
            assert(g.suffixes == literal_suffixes(ls, 0) + numeric_suffixes(tbl, 0));
            assert(g.suffixes.len() >= 1);
            assert forall|si: int| 0 <= si < g.suffixes.len() implies wf_text_suffix(
                #[trigger] g.suffixes[si],
            ) by {
                let sf = g.suffixes[si];
                if si < ls.len() {
                    assert(sf == literal_suffixes(ls, 0)[si]);
                    assert(literal_suffixes(ls, 0)[si] == (SuffixV {
                        text: ls[si],
                        numerics: None,
                    }));
                    assert(ls[si].len() >= 1);
                    assert forall|k: int| 0 <= k < sf.text.len() implies !is_suffix_stop(
                        #[trigger] sf.text[k],
                    ) by {
                        assert(no_stop(ls[si][k]));
                    }
                } else {
                    assert(sf == numeric_suffixes(tbl, 0)[si - ls.len()]);
                    let entry = tbl[si - ls.len()];
                    assert(numeric_suffixes(tbl, 0)[si - ls.len()] == (SuffixV {
                        text: entry.0,
                        numerics: Some(merge_values(entry.1)),
                    }));
                    assert(entry.0.len() >= 1);
                    assert forall|k: int| 0 <= k < sf.text.len() implies !is_suffix_stop(
                        #[trigger] sf.text[k],
                    ) by {
                        assert(no_stop(entry.0[k]));
                    }
                    assert(strictly_ascending(entry.1) && entry.1.len() >= 1
                        && forall|m2: int| 0 <= m2 < entry.1.len() ==> (#[trigger] entry.1[m2])
                            <= u32::MAX);
                    lemma_merge_values_merged(entry.1);
                    assert(merge_values(entry.1).len() >= 1);
                }
            }
            if g.prefix.len() > 0 {
                assert(no_stop(g.prefix[0]));
            }
        }
        match m.preamble {
            Some(pre) => {
                assert(pre == concat_front(ts, p));
                assert(pre.len() >= 1);
                lemma_concat_front_full(ts);
                lemma_concat_front_prefix(ts, p, ts.len() as int);
                assert(concat_front(ts, p).is_prefix_of(line));
                assert forall|k: int| 0 <= k < pre.len() implies #[trigger] pre[k] != '❮' by {
                    assert(pre[k] == line.subrange(0, pre.len() as int)[k]);
                    assert(line[k] == raw[k]);
                }
            },
            None => (),
        }
    }
}

/// For a non-empty raw input free of structural characters, parsing the
/// serialization of the encoded model yields that model back exactly —
/// the serialization fixpoint holds in one cycle.
pub proof fn lemma_encode_serialize_parse(raw: Seq<char>)
    requires
        spec_encode(raw) is Ok,
        raw.len() >= 1,
        no_structural_chars(raw),
    ensures
        spec_parse_brex(spec_serialize(spec_encode(raw)->Ok_0)) == Ok::<BrexV, Error>(
            spec_encode(raw)->Ok_0,
        ),
{
    lemma_encode_wf(raw);
    lemma_parse_serialize(spec_encode(raw)->Ok_0);
}


/// The raw text of one group's occurrences from candidate `c` on: the
/// prefix, then the candidate, repeated.
pub open spec fn occurrences_text(prefix: Seq<char>, cs: Seq<Seq<char>>, c: int) -> Seq<char>
    decreases cs.len() - c,
{
    if c < 0 || c >= cs.len() {
        Seq::empty()
    } else {
        prefix + cs[c] + occurrences_text(prefix, cs, c + 1)
    }
}

/// The raw text of the collected groups from position `idx` on.
pub open spec fn groups_raw_text(rgs: Seq<(Seq<char>, Seq<Seq<char>>)>, idx: int) -> Seq<char>
    decreases rgs.len() - idx,
{
    if idx < 0 || idx >= rgs.len() {
        Seq::empty()
    } else {
        occurrences_text(rgs[idx].0, rgs[idx].1, 0) + groups_raw_text(rgs, idx + 1)
    }
}

/// Concatenating prefixed pieces is the occurrences text of the pieces.
proof fn lemma_concat_prefixed(p: Seq<char>, ps: Seq<Seq<char>>, c: int)
    requires
        0 <= c <= ps.len(),
    ensures
        concat_pieces(prefixed(p, ps, 0), c) == occurrences_text(p, ps, c),
    decreases ps.len() - c,
{
    let pr = prefixed(p, ps, 0);
    lemma_prefixed_index(p, ps, 0);
    if c < ps.len() {
        lemma_concat_prefixed(p, ps, c + 1);
        assert(pr[c] == p + ps[c]);
        assert(concat_pieces(pr, c) == pr[c] + concat_pieces(pr, c + 1));
        assert((p + ps[c]) + occurrences_text(p, ps, c + 1) =~= p + ps[c] + occurrences_text(
            p,
            ps,
            c + 1,
        ));
    } else {
        assert(concat_pieces(pr, c) =~= Seq::<char>::empty());
    }
}

/// Indexing into prefixed pieces.
proof fn lemma_prefixed_index(p: Seq<char>, ps: Seq<Seq<char>>, k: int)
    requires
        0 <= k <= ps.len(),
    ensures
        prefixed(p, ps, k).len() == ps.len() - k,
        forall|c: int| k <= c < ps.len() ==> prefixed(p, ps, k)[c - k] == p + #[trigger] ps[c],
    decreases ps.len() - k,
{
    if k < ps.len() {
        lemma_prefixed_index(p, ps, k + 1);
    }
}

/// Within one pair run, every prefix token repeats the first.
proof fn lemma_pair_run_tokens(ts: Seq<Seq<char>>, j: int)
    requires
        0 <= j,
    ensures
        forall|k: int|
            0 <= k < pair_run_len(ts, j) ==> #[trigger] ts[j + 2 * k] == ts[j] && j + 2 * k + 1
                < ts.len(),
    decreases ts.len() - j,
{
    if j + 1 < ts.len() && j + 3 < ts.len() && ts[j + 2] == ts[j] {
        lemma_pair_run_tokens(ts, j + 2);
        assert forall|k: int|
            0 <= k < pair_run_len(ts, j) implies #[trigger] ts[j + 2 * k] == ts[j] && j + 2 * k + 1
            < ts.len() by {
            if k > 0 {
                assert(ts[j + 2 + 2 * (k - 1)] == ts[j + 2]);
            }
        }
    }
}

/// The token text of one pair run is the occurrences text of its
/// prefix and candidates.
proof fn lemma_concat_run(ts: Seq<Seq<char>>, j: int, c: int)
    requires
        0 <= j,
        j + 1 < ts.len(),
        0 <= c <= pair_run_len(ts, j),
        j + 2 * pair_run_len(ts, j) <= ts.len(),
    ensures
        concat_pieces(ts, j + 2 * c) == occurrences_text(
            ts[j],
            cands(ts, j, pair_run_len(ts, j)),
            c,
        ) + concat_pieces(ts, j + 2 * pair_run_len(ts, j)),
    decreases pair_run_len(ts, j) - c,
{
    let r = pair_run_len(ts, j);
    let cs = cands(ts, j, r);
    lemma_pair_run_tokens(ts, j);
    if c == r {
        assert(occurrences_text(ts[j], cs, c) =~= Seq::<char>::empty());
        assert(Seq::<char>::empty() + concat_pieces(ts, j + 2 * r) =~= concat_pieces(
            ts,
            j + 2 * r,
        ));
    } else {
        lemma_concat_run(ts, j, c + 1);
        assert(ts[j + 2 * c] == ts[j]);
        assert(cs[c] == ts[j + 2 * c + 1]);
        assert(concat_pieces(ts, j + 2 * c) == ts[j + 2 * c] + concat_pieces(ts, j + 2 * c + 1));
        assert(concat_pieces(ts, j + 2 * c + 1) == ts[j + 2 * c + 1] + concat_pieces(
            ts,
            j + 2 * c + 2,
        ));
        assert(occurrences_text(ts[j], cs, c) == ts[j] + cs[c] + occurrences_text(ts[j], cs, c + 1));
        assert(concat_pieces(ts, j + 2 * c) =~= occurrences_text(ts[j], cs, c) + concat_pieces(
            ts,
            j + 2 * r,
        ));
    }
}

/// The token text from position `j` on is the raw text of the groups
/// collected from `j` on, when the remaining tokens pair up exactly.
proof fn lemma_collect_concat(ts: Seq<Seq<char>>, j: int)
    requires
        0 <= j <= ts.len(),
        (ts.len() - j) % 2 == 0,
    ensures
        concat_pieces(ts, j) == groups_raw_text(collect_groups(ts, j), 0),
    decreases ts.len() - j,
{
    if j + 1 >= ts.len() {
        assert(j == ts.len());
        assert(concat_pieces(ts, j) =~= Seq::<char>::empty());
        assert(collect_groups(ts, j) =~= Seq::<(Seq<char>, Seq<Seq<char>>)>::empty());
    } else {
        let r = pair_run_len(ts, j);
        lemma_pair_run_len_bound(ts, j);
        let next = j + 2 * r;
        assert(r >= 1);
        lemma_collect_concat(ts, next);
        lemma_concat_run(ts, j, 0);
        let rgs = collect_groups(ts, j);
        let rest = collect_groups(ts, next);
        assert(rgs == seq![(ts[j], cands(ts, j, r))] + rest);
        assert(rgs[0] == (ts[j], cands(ts, j, r)));
        lemma_groups_raw_text_cons(rgs, rest);
        assert(concat_pieces(ts, j) =~= groups_raw_text(rgs, 0));
    }
}

/// Unfolding the raw text of a non-empty group list.
proof fn lemma_groups_raw_text_cons(
    rgs: Seq<(Seq<char>, Seq<Seq<char>>)>,
    rest: Seq<(Seq<char>, Seq<Seq<char>>)>,
)
    requires
        rgs.len() == rest.len() + 1,
        forall|k: int| 0 <= k < rest.len() ==> rgs[k + 1] == #[trigger] rest[k],
    ensures
        groups_raw_text(rgs, 0) == occurrences_text(rgs[0].0, rgs[0].1, 0) + groups_raw_text(
            rest,
            0,
        ),
{
    lemma_groups_raw_text_shift(rgs, rest, 0);
}

/// The raw text from an offset agrees across a shifted view.
proof fn lemma_groups_raw_text_shift(
    rgs: Seq<(Seq<char>, Seq<Seq<char>>)>,
    rest: Seq<(Seq<char>, Seq<Seq<char>>)>,
    k: int,
)
    requires
        rgs.len() == rest.len() + 1,
        forall|m: int| 0 <= m < rest.len() ==> rgs[m + 1] == #[trigger] rest[m],
        0 <= k <= rest.len(),
    ensures
        groups_raw_text(rgs, k + 1) == groups_raw_text(rest, k),
    decreases rest.len() - k,
{
    if k < rest.len() {
        lemma_groups_raw_text_shift(rgs, rest, k + 1);
    }
}

/// The whole token text splits at `p` into the front and the tail.
proof fn lemma_concat_front_pieces(ts: Seq<Seq<char>>, k: int)
    requires
        0 <= k <= ts.len(),
    ensures
        concat_front(ts, ts.len() as int) == concat_front(ts, k) + concat_pieces(ts, k),
    decreases ts.len() - k,
{
    if k == ts.len() {
        assert(concat_pieces(ts, k) =~= Seq::<char>::empty());
        assert(concat_front(ts, k) + Seq::<char>::empty() =~= concat_front(ts, k));
    } else {
        lemma_concat_front_pieces(ts, k + 1);
        assert(concat_front(ts, k + 1) == concat_front(ts, k) + ts[k]);
        assert(concat_pieces(ts, k) == ts[k] + concat_pieces(ts, k + 1));
        assert(concat_front(ts, k + 1) + concat_pieces(ts, k + 1) =~= concat_front(ts, k)
            + concat_pieces(ts, k));
    }
}


/// The inputs the encoder accepts losslessly: encoding succeeded, and
/// either it degraded to the pure-literal model, or the discovered
/// groups already stand in expansion order with pairwise distinct
/// prefixes and each group's compacted suffixes expand to exactly its
/// candidate suffixes in their original order (no reordering, no merged
/// duplicate, no re-rendered leading zero).
pub open spec fn encoder_accepts(raw: Seq<char>) -> bool {
    &&& spec_encode(raw) is Ok
    &&& {
        let m = spec_encode(raw)->Ok_0;
        m.groups.len() == 0 || {
            let line = if ends_with_bin(raw) {
                raw.subrange(0, raw.len() - 4)
            } else {
                raw
            };
            let ts = crate::util::spec_tokenize(line, '_');
            let a = rle(evens(ts));
            let b = rle(odds(ts));
            let offset: int = if a.len() <= b.len() {
                0
            } else {
                1
            };
            let best = if a.len() <= b.len() {
                a
            } else {
                b
            };
            let skip = first_repeat(best, 0);
            let p = offset + 2 * skip;
            let rgv = collect_groups(ts, p);
            &&& sorted_le(m.groups)
            &&& distinct_prefixes(m.groups)
            &&& forall|gi: int|
                0 <= gi < m.groups.len() ==> suffixes_pieces(
                    (#[trigger] m.groups[gi]).suffixes,
                    0,
                ) == rgv[gi].1
        }
    }
}

/// Group-wise expansion equals the groups' raw occurrence text.
proof fn lemma_expand_eq_raw(
    rgv: Seq<(Seq<char>, Seq<Seq<char>>)>,
    gs: Seq<GroupV>,
    idx: int,
)
    requires
        gs.len() == rgv.len(),
        0 <= idx <= gs.len(),
        forall|gi: int|
            0 <= gi < gs.len() ==> expand_group(#[trigger] gs[gi]) == occurrences_text(
                rgv[gi].0,
                rgv[gi].1,
                0,
            ),
    ensures
        expand_groups(gs, idx) == groups_raw_text(rgv, idx),
    decreases gs.len() - idx,
{
    if idx < gs.len() {
        lemma_expand_eq_raw(rgv, gs, idx + 1);
    }
}

/// Round trip: for every input the encoder accepts, expanding the
/// encoded model reproduces the original string exactly.
pub proof fn lemma_round_trip(raw: Seq<char>)
    requires
        encoder_accepts(raw),
    ensures
        spec_expand(spec_encode(raw)->Ok_0) == raw,
{
    let m = spec_encode(raw)->Ok_0;
    if m.groups.len() == 0 {
        lemma_encode_literal_round_trip(raw);
    } else {
        let line = if ends_with_bin(raw) {
            raw.subrange(0, raw.len() - 4)
        } else {
            raw
        };
        let ts = crate::util::spec_tokenize(line, '_');
        let a = rle(evens(ts));
        let b = rle(odds(ts));
        let offset: int = if a.len() <= b.len() {
            0
        } else {
            1
        };
        let best = if a.len() <= b.len() {
            a
        } else {
            b
        };
        let skip = first_repeat(best, 0);
        let p = offset + 2 * skip;
        let rgv = collect_groups(ts, p);
        assert(m.groups == build_groups(rgv, 0));
        lemma_first_repeat_bounds(best, 0);
        assert(skip < best.len());
        assert(p < ts.len() && (ts.len() - p) % 2 == 0);
        lemma_build_groups_index(rgv, 0);

        // The raw string splits into the stripped line and the marker.
        let post = opt_text(m.postamble);
        assert(raw =~= line + post) by {
            if ends_with_bin(raw) {
                assert(m.postamble == Some(crate::encode::bin_marker()));
                assert forall|k: int| 0 <= k < raw.len() implies (line + post)[k] == raw[k] by {
                    if k >= raw.len() - 4 {
                        assert(post[k - (raw.len() - 4)] == raw.subrange(
                            raw.len() - 4,
                            raw.len() as int,
                        )[k - (raw.len() - 4)]);
                    }
                }
            } else {
                assert(m.postamble is None);
                assert(line + post =~= raw);
            }
        }

        // The line splits into the preamble front and the grouped tail.
        crate::util::lemma_tokenize(line, '_');
        lemma_concat_front_full(ts);
        lemma_concat_front_pieces(ts, p);
        assert(line == concat_front(ts, p) + concat_pieces(ts, p));
        lemma_collect_concat(ts, p);
        assert(concat_pieces(ts, p) == groups_raw_text(rgv, 0));

        // The expander keeps the already-sorted construction order.
        lemma_sort_groups_props(m.groups);
        lemma_sorted_unique(m.groups, sort_groups(m.groups));
        assert(sort_groups(m.groups) == m.groups);

        // Each group's expansion is its raw occurrence text.
        assert forall|gi: int| 0 <= gi < m.groups.len() implies expand_group(
            #[trigger] m.groups[gi],
        ) == occurrences_text(rgv[gi].0, rgv[gi].1, 0) by {
            let g = m.groups[gi];
            assert(g == compact_group(rgv[gi].0, rgv[gi].1));
            assert(g.prefix == rgv[gi].0);
            assert(suffixes_pieces(g.suffixes, 0) == rgv[gi].1);
            assert(group_pieces(g) == prefixed(g.prefix, rgv[gi].1, 0));
            lemma_concat_prefixed(g.prefix, rgv[gi].1, 0);
        }
        lemma_expand_eq_raw(rgv, m.groups, 0);
        assert(expand_groups(m.groups, 0) == groups_raw_text(rgv, 0));

        // Assemble.
        let pre = opt_text(m.preamble);
        assert(pre == concat_front(ts, p)) by {
            if concat_front(ts, p).len() == 0 {
                assert(m.preamble is None);
                assert(pre =~= concat_front(ts, p));
            } else {
                assert(m.preamble == Some(concat_front(ts, p)));
            }
        }
        assert(spec_expand(m) == pre + expand_groups(m.groups, 0) + post);
        assert(pre + expand_groups(m.groups, 0) + post =~= raw);
    }
}


/// The whole codec round trip: for a non-empty accepted input free of
/// structural characters, encoding, serializing, re-parsing and
/// expanding reproduces the original string exactly — decode is the
/// exact inverse of encode.
pub proof fn lemma_codec_round_trip(raw: Seq<char>)
    requires
        encoder_accepts(raw),
        raw.len() >= 1,
        no_structural_chars(raw),
    ensures
        spec_parse_brex(spec_serialize(spec_encode(raw)->Ok_0)) == Ok::<BrexV, Error>(
            spec_encode(raw)->Ok_0,
        ),
        spec_expand(spec_parse_brex(spec_serialize(spec_encode(raw)->Ok_0))->Ok_0) == raw,
{
    lemma_encode_serialize_parse(raw);
    lemma_round_trip(raw);
}


/// The singleton expansion pieces of values from position `k` on: the
/// stem followed by each value's decimal rendering, one piece per
/// value.
pub open spec fn dec_pieces(stem: Seq<char>, vs: Seq<nat>, k: int) -> Seq<Seq<char>>
    decreases vs.len() - k,
{
    if k < 0 || k >= vs.len() {
        Seq::empty()
    } else {
        seq![stem + spec_dec(vs[k])] + dec_pieces(stem, vs, k + 1)
    }
}

/// Indexing into the singleton pieces.
proof fn lemma_dec_pieces_index(stem: Seq<char>, vs: Seq<nat>, k: int)
    requires
        0 <= k <= vs.len(),
    ensures
        dec_pieces(stem, vs, k).len() == vs.len() - k,
        forall|c: int|
            k <= c < vs.len() ==> dec_pieces(stem, vs, k)[c - k] == stem + spec_dec(
                #[trigger] vs[c],
            ),
    decreases vs.len() - k,
{
    if k < vs.len() {
        lemma_dec_pieces_index(stem, vs, k + 1);
    }
}

/// The singleton pieces of a prefix of the values, extended by one.
proof fn lemma_dec_pieces_snoc(stem: Seq<char>, vs: Seq<nat>)
    requires
        vs.len() >= 1,
    ensures
        dec_pieces(stem, vs, 0) == dec_pieces(stem, vs.drop_last(), 0) + seq![
            stem + spec_dec(vs.last()),
        ],
{
    lemma_dec_pieces_index(stem, vs, 0);
    let dl = vs.drop_last();
    lemma_dec_pieces_index(stem, dl, 0);
    let rhs = dec_pieces(stem, dl, 0) + seq![stem + spec_dec(vs.last())];
    assert forall|c: int| 0 <= c < vs.len() implies dec_pieces(stem, vs, 0)[c] == rhs[c] by {
        assert(dec_pieces(stem, vs, 0)[c] == stem + spec_dec(vs[c]));
        if c < vs.len() - 1 {
            assert(dl[c] == vs[c]);
            assert(rhs[c] == dec_pieces(stem, dl, 0)[c]);
            assert(dec_pieces(stem, dl, 0)[c] == stem + spec_dec(dl[c]));
        } else {
            assert(rhs[c] == stem + spec_dec(vs.last()));
        }
    }
    assert(dec_pieces(stem, vs, 0) =~= rhs);
}

/// Extending a value range by one extends its pieces by one.
proof fn lemma_value_pieces_extend(base: Seq<char>, lo: nat, hi: nat)
    requires
        lo <= hi + 1,
    ensures
        value_pieces(base, lo, hi + 1) == value_pieces(base, lo, hi) + seq![
            base + spec_dec((hi + 1) as nat),
        ],
    decreases hi + 1 - lo,
{
    if lo > hi {
        assert(value_pieces(base, lo, hi) =~= Seq::<Seq<char>>::empty());
        assert(value_pieces(base, lo, hi + 1) == seq![base + spec_dec(lo)] + value_pieces(
            base,
            lo + 1,
            hi + 1,
        ));
        assert(value_pieces(base, (lo + 1) as nat, hi + 1) =~= Seq::<Seq<char>>::empty());
        assert(value_pieces(base, lo, hi + 1) =~= value_pieces(base, lo, hi) + seq![
            base + spec_dec((hi + 1) as nat),
        ]);
    } else {
        lemma_value_pieces_extend(base, (lo + 1) as nat, hi);
        assert(value_pieces(base, lo, hi + 1) == seq![base + spec_dec(lo)] + value_pieces(
            base,
            (lo + 1) as nat,
            hi + 1,
        ));
        assert(value_pieces(base, lo, hi) == seq![base + spec_dec(lo)] + value_pieces(
            base,
            (lo + 1) as nat,
            hi,
        ));
        assert(value_pieces(base, lo, hi + 1) =~= value_pieces(base, lo, hi) + seq![
            base + spec_dec((hi + 1) as nat),
        ]);
    }
}

/// Appending one numeric appends its value pieces.
proof fn lemma_num_pieces_snoc(base: Seq<char>, ns: Seq<Numeric>, n2: Numeric, k: int)
    requires
        0 <= k <= ns.len(),
    ensures
        num_pieces(base, ns.push(n2), k) == num_pieces(base, ns, k) + value_pieces(
            base,
            n2.lo(),
            n2.hi(),
        ),
    decreases ns.len() - k,
{
    let e = ns.push(n2);
    if k < ns.len() {
        lemma_num_pieces_snoc(base, ns, n2, k + 1);
        assert(e[k] == ns[k]);
        assert(num_pieces(base, e, k) =~= num_pieces(base, ns, k) + value_pieces(
            base,
            n2.lo(),
            n2.hi(),
        ));
    } else {
        assert(e[k] == n2);
        assert(num_pieces(base, e, k) == value_pieces(base, n2.lo(), n2.hi()) + num_pieces(
            base,
            e,
            k + 1,
        ));
        assert(num_pieces(base, e, k + 1) =~= Seq::<Seq<char>>::empty());
        assert(num_pieces(base, ns, k) =~= Seq::<Seq<char>>::empty());
        assert(num_pieces(base, e, k) =~= num_pieces(base, ns, k) + value_pieces(
            base,
            n2.lo(),
            n2.hi(),
        ));
    }
}

/// Merged numerics enumerate exactly the merged values, in order: the
/// pieces of the merge of a strictly ascending value list are one piece
/// per value, ascending.
pub proof fn lemma_merge_enumeration(base: Seq<char>, vs: Seq<nat>)
    requires
        strictly_ascending(vs),
        forall|k: int| 0 <= k < vs.len() ==> (#[trigger] vs[k]) <= u32::MAX,
    ensures
        num_pieces(base, merge_values(vs), 0) == dec_pieces(base, vs, 0),
    decreases vs.len(),
{
    if vs.len() == 0 {
        assert(num_pieces(base, merge_values(vs), 0) =~= dec_pieces(base, vs, 0));
    } else {
        let dl = vs.drop_last();
        let v = vs.last();
        assert(forall|k: int| 0 <= k < dl.len() ==> #[trigger] dl[k] == vs[k]);
        lemma_merge_enumeration(base, dl);
        lemma_merge_values_merged(dl);
        let ns = merge_values(dl);
        assert(merge_values(vs) == merge_push(ns, v));
        lemma_dec_pieces_snoc(base, vs);
        if ns.len() > 0 && ns.last().hi() + 1 == v {
            let last = ns.last();
            let upd = ns.update(ns.len() - 1, Numeric::Range(last.lo() as u32, v as u32));
            let front = ns.drop_last();
            assert(ns =~= front.push(last));
            assert(upd =~= front.push(Numeric::Range(last.lo() as u32, v as u32)));
            lemma_num_pieces_snoc(base, front, last, 0);
            lemma_num_pieces_snoc(base, front, Numeric::Range(last.lo() as u32, v as u32), 0);
            assert(last.wf());
            assert(Numeric::Range(last.lo() as u32, v as u32).lo() == last.lo());
            assert(Numeric::Range(last.lo() as u32, v as u32).hi() == v);
            lemma_value_pieces_extend(base, last.lo(), last.hi());
            assert(num_pieces(base, front.push(last), 0) == num_pieces(base, ns, 0));
            assert(num_pieces(base, upd, 0) =~= num_pieces(base, ns, 0) + seq![
                base + spec_dec(v),
            ]);
            assert(num_pieces(base, merge_values(vs), 0) =~= dec_pieces(base, vs, 0));
        } else {
            let single = Numeric::Single(v as u32);
            lemma_num_pieces_snoc(base, ns, single, 0);
            assert(single.lo() == v && single.hi() == v);
            assert(value_pieces(base, v, v) == seq![base + spec_dec(v)] + value_pieces(
                base,
                v + 1,
                v,
            ));
            assert(value_pieces(base, (v + 1) as nat, v) =~= Seq::<Seq<char>>::empty());
            assert(value_pieces(base, v, v) =~= seq![base + spec_dec(v)]);
            assert(num_pieces(base, merge_values(vs), 0) =~= dec_pieces(base, vs, 0));
        }
    }
}


/// Splitting a stem with canonically rendered trailing digits.
proof fn lemma_split_stem_of(stem: Seq<char>, v: nat)
    requires
        forall|k: int| 0 <= k < stem.len() ==> !is_digit(#[trigger] stem[k]),
    ensures
        split_stem(stem + spec_dec(v)) == (stem, Some(spec_dec(v))),
{
    let cand = stem + spec_dec(v);
    lemma_dec(v);
    assert forall|k: int| 0 <= k < stem.len() implies !is_digit(#[trigger] cand[k]) by {
        assert(cand[k] == stem[k]);
    }
    assert(cand[stem.len() as int] == spec_dec(v)[0]);
    assert(is_digit(cand[stem.len() as int]));
    lemma_first_digit_pos_is(cand, 0, stem.len() as int);
    assert forall|k: int| stem.len() <= k < cand.len() implies is_digit(#[trigger] cand[k]) by {
        assert(cand[k] == spec_dec(v)[k - stem.len()]);
    }
    lemma_scan_digit_end_is(cand, stem.len() as int, cand.len() as int);
    assert(cand.subrange(0, stem.len() as int) =~= stem);
    assert(cand.subrange(stem.len() as int, cand.len() as int) =~= spec_dec(v));
}

/// Sorted insertion of a value above every present value appends it.
proof fn lemma_insert_sorted_append(vs: Seq<nat>, v: nat)
    requires
        forall|k: int| 0 <= k < vs.len() ==> (#[trigger] vs[k]) < v,
    ensures
        insert_sorted(vs, v) == vs.push(v),
{
    lemma_num_ins_pos_is(vs, v, 0, vs.len() as int);
    assert(vs.insert(vs.len() as int, v) =~= vs.push(v));
}

/// Compacting canonical single-stem candidates collects exactly their
/// values, in order.
proof fn lemma_compact_single_stem(stem: Seq<char>, vs: Seq<nat>, cs: Seq<Seq<char>>)
    requires
        vs.len() == cs.len(),
        vs.len() >= 1,
        strictly_ascending(vs),
        forall|k: int| 0 <= k < stem.len() ==> !is_digit(#[trigger] stem[k]),
        forall|c: int| 0 <= c < cs.len() ==> #[trigger] cs[c] == stem + spec_dec(vs[c]),
    ensures
        compact_cands(cs).0 == Seq::<Seq<char>>::empty(),
        compact_cands(cs).1 == seq![(stem, vs)],
    decreases cs.len(),
{
    let v = vs.last();
    lemma_dec(v);
    lemma_split_stem_of(stem, v);
    assert(cs.last() == stem + spec_dec(v));
    if cs.len() == 1 {
        let dl = cs.drop_last();
        assert(dl =~= Seq::<Seq<char>>::empty());
        assert(compact_cands(dl) == (Seq::<Seq<char>>::empty(), Seq::<(Seq<char>, Seq<nat>)>::empty()));
        assert(compact_cands(cs) == compact_step(compact_cands(dl), cs.last()));
        assert(crate::encode::stem_pos(Seq::<(Seq<char>, Seq<nat>)>::empty(), stem, 0) == 0);
        assert(compact_cands(cs).1 =~= seq![(stem, seq![digits_val(spec_dec(v))])]);
        assert(seq![digits_val(spec_dec(v))] =~= vs);
        assert(compact_cands(cs).1 =~= seq![(stem, vs)]);
    } else {
        let csdl = cs.drop_last();
        let vsdl = vs.drop_last();
        assert(forall|c: int| 0 <= c < csdl.len() ==> #[trigger] csdl[c] == cs[c]);
        assert(forall|c: int| 0 <= c < vsdl.len() ==> #[trigger] vsdl[c] == vs[c]);
        lemma_compact_single_stem(stem, vsdl, csdl);
        let prev = compact_cands(csdl);
        assert(compact_cands(cs) == compact_step(prev, cs.last()));
        assert(prev.1 == seq![(stem, vsdl)]);
        assert(prev.1[0].0 == stem);
        lemma_stem_pos_is(prev.1, stem, 0, 0);
        assert(digits_val(spec_dec(v)) == v);
        assert forall|k: int| 0 <= k < vsdl.len() implies (#[trigger] vsdl[k]) < v by {
            assert(vsdl[k] == vs[k]);
        }
        lemma_insert_sorted_append(vsdl, v);
        assert(vsdl.push(v) =~= vs);
        assert(compact_cands(cs).1 == prev.1.update(0, (stem, vs)));
        assert(compact_cands(cs).1 =~= seq![(stem, vs)]);
        assert(compact_cands(cs).0 =~= Seq::<Seq<char>>::empty());
    }
}

/// A group whose candidates share one stem (with no digits of its own)
/// and carry canonically rendered, strictly ascending values compacts
/// losslessly: its suffix pieces are exactly its candidates, so such a
/// group meets the encoder's acceptance condition.
pub proof fn lemma_single_stem_canonical(
    prefix: Seq<char>,
    stem: Seq<char>,
    vs: Seq<nat>,
    cs: Seq<Seq<char>>,
)
    requires
        vs.len() == cs.len(),
        vs.len() >= 1,
        strictly_ascending(vs),
        forall|k: int| 0 <= k < vs.len() ==> (#[trigger] vs[k]) <= u32::MAX,
        forall|k: int| 0 <= k < stem.len() ==> !is_digit(#[trigger] stem[k]),
        forall|c: int| 0 <= c < cs.len() ==> #[trigger] cs[c] == stem + spec_dec(vs[c]),
    ensures
        suffixes_pieces(compact_group(prefix, cs).suffixes, 0) == cs,
{
    lemma_compact_single_stem(stem, vs, cs);
    let g = compact_group(prefix, cs);
    let tbl = compact_cands(cs).1;
    let sfv = SuffixV { text: stem, numerics: Some(merge_values(vs)) };
    assert(numeric_suffixes(tbl, 0) == seq![sfv] + numeric_suffixes(tbl, 1)) by {
        assert(tbl[0] == (stem, vs));
    }
    assert(numeric_suffixes(tbl, 1) =~= Seq::<SuffixV>::empty());
    assert(literal_suffixes(Seq::<Seq<char>>::empty(), 0) =~= Seq::<SuffixV>::empty());
    assert(g.suffixes =~= seq![sfv]);
    assert(suffixes_pieces(g.suffixes, 0) == suffix_pieces(sfv) + suffixes_pieces(g.suffixes, 1));
    assert(suffixes_pieces(g.suffixes, 1) =~= Seq::<Seq<char>>::empty());
    assert(suffix_pieces(sfv) == num_pieces(stem, merge_values(vs), 0));
    lemma_merge_enumeration(stem, vs);
    lemma_dec_pieces_index(stem, vs, 0);
    assert(dec_pieces(stem, vs, 0) =~= cs);
    assert(suffixes_pieces(g.suffixes, 0) =~= cs);
}


/// A group whose candidates all stay literal (no trailing digit runs)
/// compacts losslessly: its suffix pieces are exactly its candidates,
/// so such a group meets the encoder's acceptance condition.
pub proof fn lemma_all_literal_canonical(prefix: Seq<char>, cs: Seq<Seq<char>>)
    requires
        forall|c: int| 0 <= c < cs.len() ==> split_stem(#[trigger] cs[c]).1 is None,
    ensures
        suffixes_pieces(compact_group(prefix, cs).suffixes, 0) == cs,
{
    lemma_compact_all_literal(cs);
    let g = compact_group(prefix, cs);
    assert(numeric_suffixes(compact_cands(cs).1, 0) =~= Seq::<SuffixV>::empty());
    assert(g.suffixes =~= literal_suffixes(cs, 0));
    lemma_literal_pieces(cs, 0);
}

/// Compacting all-literal candidates keeps them unchanged, in order.
proof fn lemma_compact_all_literal(cs: Seq<Seq<char>>)
    requires
        forall|c: int| 0 <= c < cs.len() ==> split_stem(#[trigger] cs[c]).1 is None,
    ensures
        compact_cands(cs).0 == cs,
        compact_cands(cs).1 == Seq::<(Seq<char>, Seq<nat>)>::empty(),
    decreases cs.len(),
{
    if cs.len() == 0 {
        assert(compact_cands(cs).0 =~= cs);
        assert(compact_cands(cs).1 =~= Seq::<(Seq<char>, Seq<nat>)>::empty());
    } else {
        let dl = cs.drop_last();
        assert(forall|c: int| 0 <= c < dl.len() ==> #[trigger] dl[c] == cs[c]);
        lemma_compact_all_literal(dl);
        assert(split_stem(cs.last()).1 is None);
        assert(split_stem(cs.last()).0 == cs.last());
        assert(compact_cands(cs).0 =~= cs);
    }
}

/// The pieces of literal suffixes are their texts, in order.
proof fn lemma_literal_pieces(cs: Seq<Seq<char>>, k: int)
    requires
        0 <= k <= cs.len(),
    ensures
        suffixes_pieces(literal_suffixes(cs, 0), k) == cs.subrange(k, cs.len() as int),
    decreases cs.len() - k,
{
    lemma_literal_suffixes_index(cs, 0);
    if k < cs.len() {
        lemma_literal_pieces(cs, k + 1);
        assert(literal_suffixes(cs, 0)[k] == (SuffixV { text: cs[k], numerics: None }));
        assert(suffix_pieces(literal_suffixes(cs, 0)[k]) == seq![cs[k]]);
        assert(suffixes_pieces(literal_suffixes(cs, 0), k) =~= cs.subrange(k, cs.len() as int));
    } else {
        assert(suffixes_pieces(literal_suffixes(cs, 0), k) =~= cs.subrange(k, cs.len() as int));
    }
}

} // verus!
