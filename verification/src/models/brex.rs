//! The top-level grammar model and its canonical text serialization.

use vstd::prelude::*;
use vstd::string::*;
use crate::models::group::{groups_view, Group, GroupV};
use crate::models::numeric::Numeric;
use crate::models::suffix::{suffixes_view, Suffix, SuffixV};
use crate::util::{spec_dec, u32_to_dec};

verus! {

/// IR of a brex string.
///
/// Created via [`crate::encode()`] or [`Brex::parse()`].
/// To expand out to plaintext, see [`Brex::unroll()`].
#[derive(Debug, Clone)]
pub struct Brex<'a> {
    /// Plaintext before the block start symbol
    pub preamble: Option<&'a str>,
    /// The groups within the block delimiter pair
    pub groups: Vec<Group<'a>>,
    /// Plaintext after the block end symbol
    pub postamble: Option<&'a str>,
}

/// The mathematical shape of a [`Brex`].
#[verifier::ext_equal]
pub struct BrexV {
    /// Literal text before the group block.
    pub preamble: Option<Seq<char>>,
    /// The groups, in construction order.
    pub groups: Seq<GroupV>,
    /// Literal text after the group block.
    pub postamble: Option<Seq<char>>,
}

impl<'a> View for Brex<'a> {
    type V = BrexV;

    open spec fn view(&self) -> BrexV {
        BrexV {
            preamble: match self.preamble {
                Some(p) => Some(p@),
                None => None,
            },
            groups: groups_view(self.groups@),
            postamble: match self.postamble {
                Some(p) => Some(p@),
                None => None,
            },
        }
    }
}

impl<'a> Brex<'a> {
    /// The model of an unencodable input: the whole text as preamble,
    /// no groups, no postamble.
    pub fn empty(preamble: &'a str) -> (r: Self)
        ensures
            r@.preamble == Some(preamble@),
            r@.groups == Seq::<GroupV>::empty(),
            r@.postamble is None,
    {
        let r = Self { preamble: Some(preamble), groups: Vec::new(), postamble: None };
        proof {
            assert(r@.groups =~= Seq::<GroupV>::empty());
        }
        r
    }
}

/// The text of an optional literal field: the text itself, or nothing.
pub open spec fn opt_text(t: Option<Seq<char>>) -> Seq<char> {
    match t {
        Some(s) => s,
        None => Seq::empty(),
    }
}

/// Serialization of one numeric: the value, or `start→end` for a range.
pub open spec fn spec_ser_numeric(n: Numeric) -> Seq<char> {
    match n {
        Numeric::Single(v) => spec_dec(v as nat),
        Numeric::Range(s, e) => spec_dec(s as nat) + seq!['→'] + spec_dec(e as nat),
    }
}

/// Serialization of the numerics after the first, each preceded by the
/// list separator, from position `i` on.
pub open spec fn spec_ser_numerics_tail(ns: Seq<Numeric>, i: int) -> Seq<char>
    decreases ns.len() - i,
{
    if i < 0 || i >= ns.len() {
        Seq::empty()
    } else {
        seq![','] + spec_ser_numeric(ns[i]) + spec_ser_numerics_tail(ns, i + 1)
    }
}

/// Serialization of a numeric list, separated by the list separator.
pub open spec fn spec_ser_numerics(ns: Seq<Numeric>) -> Seq<char> {
    if ns.len() == 0 {
        Seq::empty()
    } else {
        spec_ser_numeric(ns[0]) + spec_ser_numerics_tail(ns, 1)
    }
}

/// Serialization of one suffix: its text, then its numeric block if any.
pub open spec fn spec_ser_suffix(s: SuffixV) -> Seq<char> {
    match s.numerics {
        None => s.text,
        Some(ns) => s.text + seq!['{'] + spec_ser_numerics(ns) + seq!['}'],
    }
}

/// Serialization of the suffixes after the first, each preceded by the
/// suffix separator, from position `i` on.
pub open spec fn spec_ser_suffixes_tail(ss: Seq<SuffixV>, i: int) -> Seq<char>
    decreases ss.len() - i,
{
    if i < 0 || i >= ss.len() {
        Seq::empty()
    } else {
        seq![','] + spec_ser_suffix(ss[i]) + spec_ser_suffixes_tail(ss, i + 1)
    }
}

/// Serialization of a suffix list, separated by the suffix separator.
pub open spec fn spec_ser_suffixes(ss: Seq<SuffixV>) -> Seq<char> {
    if ss.len() == 0 {
        Seq::empty()
    } else {
        spec_ser_suffix(ss[0]) + spec_ser_suffixes_tail(ss, 1)
    }
}

/// Serialization of one group: prefix, then the braced suffix list.
pub open spec fn spec_ser_group(g: GroupV) -> Seq<char> {
    g.prefix + seq!['{'] + spec_ser_suffixes(g.suffixes) + seq!['}']
}

/// Serialization of the groups from position `i` on, concatenated.
pub open spec fn spec_ser_groups(gs: Seq<GroupV>, i: int) -> Seq<char>
    decreases gs.len() - i,
{
    if i < 0 || i >= gs.len() {
        Seq::empty()
    } else {
        spec_ser_group(gs[i]) + spec_ser_groups(gs, i + 1)
    }
}

/// The canonical, order-preserving text rendering of a model. A model
/// without groups renders as its preamble alone; otherwise the groups
/// stand between the block delimiters, with the preamble before and the
/// postamble after.
pub open spec fn spec_serialize(b: BrexV) -> Seq<char> {
    if b.groups.len() == 0 {
        opt_text(b.preamble)
    } else {
        opt_text(b.preamble) + seq!['❮'] + spec_ser_groups(b.groups, 0) + seq!['❯']
            + opt_text(b.postamble)
    }
}

/// Renders one numeric.
fn ser_numeric(n: &Numeric) -> (r: String)
    ensures
        r@ == spec_ser_numeric(*n),
{
    match n {
        Numeric::Single(v) => u32_to_dec(*v),
        Numeric::Range(s, e) => {
            let mut out = u32_to_dec(*s);
            out.append("→");
            let etext = u32_to_dec(*e);
            out.append(etext.as_str());
            proof {
                reveal_strlit("→");
                assert("→"@ =~= seq!['→']);
                assert(out@ =~= spec_ser_numeric(*n));
            }
            out
        },
    }
}

/// Renders a numeric list with its separators.
fn ser_numerics(ns: &Vec<Numeric>) -> (r: String)
    ensures
        r@ == spec_ser_numerics(ns@),
{
    let mut out = String::new();
    let mut i: usize = 0;
    while i < ns.len()
        invariant
            0 <= i <= ns.len(),
            i == 0 ==> out@ == Seq::<char>::empty(),
            i >= 1 ==> spec_ser_numerics(ns@) == out@ + spec_ser_numerics_tail(ns@, i as int),
        decreases ns.len() - i,
    {
        if i > 0 {
            out.append(",");
            proof {
                reveal_strlit(",");
                assert(","@ =~= seq![',']);
            }
        }
        let ntext = ser_numeric(&ns[i]);
        out.append(ntext.as_str());
        proof {
            if i == 0 {
                assert(out@ =~= spec_ser_numeric(ns@[0]));
            } else {
                assert(spec_ser_numerics_tail(ns@, i as int)
                    == seq![','] + spec_ser_numeric(ns@[i as int])
                        + spec_ser_numerics_tail(ns@, i as int + 1));
                assert(spec_ser_numerics(ns@)
                    =~= out@ + spec_ser_numerics_tail(ns@, i as int + 1));
            }
        }
        i = i + 1;
    }
    proof {
        if ns@.len() == 0 {
            assert(out@ =~= spec_ser_numerics(ns@));
        } else {
            assert(spec_ser_numerics_tail(ns@, ns@.len() as int) =~= Seq::<char>::empty());
            assert(spec_ser_numerics(ns@) =~= out@);
        }
    }
    out
}

/// Renders one suffix.
fn ser_suffix(s: &Suffix<'_>) -> (r: String)
    ensures
        r@ == spec_ser_suffix(s@),
{
    let mut out = String::from_str(s.suffix);
    match &s.numerics {
        None => out,
        Some(ns) => {
            out.append("{");
            let ntext = ser_numerics(ns);
            out.append(ntext.as_str());
            out.append("}");
            proof {
                reveal_strlit("{");
                reveal_strlit("}");
                assert("{"@ =~= seq!['{']);
                assert("}"@ =~= seq!['}']);
                assert(out@ =~= spec_ser_suffix(s@));
            }
            out
        },
    }
}

/// Renders a suffix list with its separators.
fn ser_suffixes(ss: &Vec<Suffix<'_>>) -> (r: String)
    ensures
        r@ == spec_ser_suffixes(suffixes_view(ss@)),
{
    let ghost sv = suffixes_view(ss@);
    let mut out = String::new();
    let mut i: usize = 0;
    while i < ss.len()
        invariant
            0 <= i <= ss.len(),
            sv == suffixes_view(ss@),
            i == 0 ==> out@ == Seq::<char>::empty(),
            i >= 1 ==> spec_ser_suffixes(sv) == out@ + spec_ser_suffixes_tail(sv, i as int),
        decreases ss.len() - i,
    {
        if i > 0 {
            out.append(",");
            proof {
                reveal_strlit(",");
                assert(","@ =~= seq![',']);
            }
        }
        let stext = ser_suffix(&ss[i]);
        out.append(stext.as_str());
        proof {
            if i == 0 {
                assert(out@ =~= spec_ser_suffix(sv[0]));
            } else {
                assert(spec_ser_suffixes_tail(sv, i as int)
                    == seq![','] + spec_ser_suffix(sv[i as int])
                        + spec_ser_suffixes_tail(sv, i as int + 1));
                assert(spec_ser_suffixes(sv) =~= out@ + spec_ser_suffixes_tail(sv, i as int + 1));
            }
        }
        i = i + 1;
    }
    proof {
        if sv.len() == 0 {
            assert(out@ =~= spec_ser_suffixes(sv));
        } else {
            assert(spec_ser_suffixes_tail(sv, sv.len() as int) =~= Seq::<char>::empty());
            assert(spec_ser_suffixes(sv) =~= out@);
        }
    }
    out
}

impl<'a> Brex<'a> {
    /// Renders this model as canonical grammar text.
    pub fn to_text(&self) -> (r: String)
        ensures
            r@ == spec_serialize(self@),
    {
        let ghost gv = groups_view(self.groups@);
        let mut out = match self.preamble {
            Some(p) => String::from_str(p),
            None => String::new(),
        };
        if self.groups.len() == 0 {
            proof {
                assert(out@ =~= spec_serialize(self@));
            }
            return out;
        }
        out.append("❮");
        proof {
            reveal_strlit("❮");
            assert("❮"@ =~= seq!['❮']);
            assert(out@ =~= opt_text(self@.preamble) + seq!['❮'] + spec_ser_groups_front(gv, 0));
        }
        let mut i: usize = 0;
        while i < self.groups.len()
            invariant
                0 <= i <= self.groups.len(),
                gv == groups_view(self.groups@),
                gv.len() > 0,
                out@ == opt_text(self@.preamble) + seq!['❮'] + spec_ser_groups_front(gv, i as int),
            decreases self.groups.len() - i,
        {
            let g = &self.groups[i];
            out.append(g.prefix);
            out.append("{");
            let stext = ser_suffixes(&g.suffixes);
            out.append(stext.as_str());
            out.append("}");
            proof {
                reveal_strlit("{");
                reveal_strlit("}");
                assert("{"@ =~= seq!['{']);
                assert("}"@ =~= seq!['}']);
                assert(g@.suffixes == suffixes_view(g.suffixes@));
                assert(stext@ == spec_ser_suffixes(g@.suffixes));
                lemma_ser_groups_front_snoc(gv, i as int);
                assert(out@ =~= opt_text(self@.preamble) + seq!['❮']
                    + spec_ser_groups_front(gv, i as int + 1));
            }
            i = i + 1;
        }
        out.append("❯");
        match self.postamble {
            Some(p) => out.append(p),
            None => (),
        }
        proof {
            reveal_strlit("❮");
            reveal_strlit("❯");
            assert("❮"@ =~= seq!['❮']);
            assert("❯"@ =~= seq!['❯']);
            lemma_ser_groups_front_full(gv);
            assert(out@ =~= spec_serialize(self@));
        }
        out
    }
}

/// The serialization of the first `i` groups.
pub open spec fn spec_ser_groups_front(gs: Seq<GroupV>, i: int) -> Seq<char>
    decreases i,
{
    if i <= 0 {
        Seq::empty()
    } else {
        spec_ser_groups_front(gs, i - 1) + spec_ser_group(gs[i - 1])
    }
}

/// Extending the rendered front by one group appends that group's text.
pub proof fn lemma_ser_groups_front_snoc(gs: Seq<GroupV>, i: int)
    requires
        0 <= i < gs.len(),
    ensures
        spec_ser_groups_front(gs, i + 1) == spec_ser_groups_front(gs, i) + spec_ser_group(gs[i]),
{
}

/// The full rendered front equals the groups' serialization.
pub proof fn lemma_ser_groups_front_full(gs: Seq<GroupV>)
    ensures
        spec_ser_groups_front(gs, gs.len() as int) == spec_ser_groups(gs, 0),
{
    lemma_ser_groups_split(gs, gs.len() as int);
    assert(spec_ser_groups(gs, gs.len() as int) =~= Seq::<char>::empty());
    assert(spec_ser_groups_front(gs, gs.len() as int) + Seq::<char>::empty()
        =~= spec_ser_groups_front(gs, gs.len() as int));
}

/// Splitting the groups' serialization at `i`.
pub proof fn lemma_ser_groups_split(gs: Seq<GroupV>, i: int)
    requires
        0 <= i <= gs.len(),
    ensures
        spec_ser_groups(gs, 0) == spec_ser_groups_front(gs, i) + spec_ser_groups(gs, i),
    decreases gs.len() - i,
{
    if i == 0 {
        assert(spec_ser_groups(gs, 0) =~= Seq::<char>::empty() + spec_ser_groups(gs, 0));
    } else {
        lemma_ser_groups_split_step(gs, 0, i);
    }
}

/// The front through `i` plus the tail from `i` gives the tail from `j`.
proof fn lemma_ser_groups_split_step(gs: Seq<GroupV>, j: int, i: int)
    requires
        0 <= j <= i <= gs.len(),
    ensures
        spec_ser_groups_front(gs, i) + spec_ser_groups(gs, i)
            == spec_ser_groups_front(gs, j) + spec_ser_groups(gs, j),
    decreases i - j,
{
    if j < i {
        lemma_ser_groups_split_step(gs, j, i - 1);
        lemma_ser_groups_front_snoc(gs, i - 1);
        assert(spec_ser_groups(gs, i - 1) == spec_ser_group(gs[i - 1]) + spec_ser_groups(gs, i));
        assert(spec_ser_groups_front(gs, i) + spec_ser_groups(gs, i)
            =~= spec_ser_groups_front(gs, i - 1) + spec_ser_groups(gs, i - 1));
    }
}

} // verus!
