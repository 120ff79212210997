use std::cmp::Ordering;

use brex::hash::{Hasher, WadHasher};
use brex::util::{inverted_substr_sort, split_inclusive_start};
use brex::{Brex, Group, Numeric, Suffix};

/// The inverted comparator ranks a string's proper prefix after the
/// string itself.
#[test]
fn inverted_comparator_ranks_prefix_after() {
    assert_eq!(inverted_substr_sort("superfan", "superfanvariant"), Ordering::Greater);
    assert_eq!(inverted_substr_sort("superfanvariant", "superfan"), Ordering::Less);
    assert_eq!(inverted_substr_sort("super", "superfan"), Ordering::Greater);
    assert_eq!(inverted_substr_sort("a", "b"), Ordering::Less);
    assert_eq!(inverted_substr_sort("same", "same"), Ordering::Equal);
}

/// Expansion of a model is invariant to the construction order of its
/// groups: only the prefix-comparator order determines emission order.
#[test]
fn expansion_order_invariant() {
    let g1 = Group { prefix: "super", suffixes: vec![Suffix::simple("a")] };
    let g2 = Group { prefix: "superfan", suffixes: vec![Suffix::simple("b")] };
    let m1 = Brex { preamble: None, groups: vec![g1.clone(), g2.clone()], postamble: None };
    let m2 = Brex { preamble: None, groups: vec![g2, g1], postamble: None };
    assert_eq!(m1.unroll(), "superfanbsupera");
    assert_eq!(m1.unroll(), m2.unroll());
}

/// The splitter keeps the delimiter at the start of each piece; the
/// pieces concatenate back to the input.
#[test]
fn split_inclusive_start_pieces() {
    let mut it = split_inclusive_start("a_b_c", '_');
    assert_eq!(it.next(), Some("a"));
    assert_eq!(it.next(), Some("_b"));
    assert_eq!(it.next(), Some("_c"));
    assert_eq!(it.next(), None);

    let mut it = split_inclusive_start("_a__b", '_');
    assert_eq!(it.next(), Some("_a"));
    assert_eq!(it.next(), Some("_"));
    assert_eq!(it.next(), Some("_b"));
    assert_eq!(it.next(), None);

    let mut it = split_inclusive_start("", '_');
    assert_eq!(it.next(), None);
}

/// Numeric accessors: a single returns its one value for both ends; an
/// extended end converts a single to a range and refuses to shrink.
#[test]
fn numeric_accessors() {
    let single = Numeric::new(3);
    assert_eq!(single.start(), 3);
    assert_eq!(single.end(), 3);
    assert!(matches!(single.with_end(5), Some(Numeric::Range(3, 5))));
    assert!(matches!(single.with_end(3), Some(Numeric::Range(3, 3))));
    let range = Numeric::Range(3, 4);
    assert_eq!(range.start(), 3);
    assert_eq!(range.end(), 4);
    assert!(range.with_end(2).is_none());
}

/// An unencodable input's model: the whole text as preamble.
#[test]
fn empty_model() {
    let m = Brex::empty("anything");
    assert_eq!(m.preamble, Some("anything"));
    assert!(m.groups.is_empty());
    assert_eq!(m.postamble, None);
    assert_eq!(m.unroll(), "anything");
}

/// A suffix without numerics unrolls to its own text once; one with
/// numerics unrolls each covered value in ascending order.
#[test]
fn suffix_unroll() {
    assert_eq!(Suffix::simple("tail").unroll(), vec!["tail".to_string()]);
    let s = Suffix::numeric("v", vec![Numeric::Range(1, 3), Numeric::new(7)]);
    assert_eq!(s.unroll(), vec!["v1", "v2", "v3", "v7"]);
}

/// A group prepends its prefix to every unrolled suffix piece.
#[test]
fn group_unroll() {
    let g = Group {
        prefix: "p",
        suffixes: vec![Suffix::simple("x"), Suffix::numeric("y", vec![Numeric::Range(0, 1)])],
    };
    assert_eq!(g.unroll(), vec!["px", "py0", "py1"]);
}

/// The alphabet's block pair constructor.
#[test]
fn alphabet_pair() {
    let p = brex::alphabet::Pair::new('❮', '❯');
    assert_eq!(p.start, '❮');
    assert_eq!(p.end, '❯');
}

/// The wad hasher digests the lowercased value: case variants collide,
/// and the digest matches the underlying 64-bit XXH64 of the folded
/// bytes.
#[test]
fn wad_hasher_folds_case() {
    let upper = WadHasher::hash("Assets/Characters/Ahri");
    let lower = WadHasher::hash("assets/characters/ahri");
    assert_eq!(upper, lower);
    assert_eq!(
        upper,
        xxhash_rust::xxh64::xxh64("assets/characters/ahri".as_bytes(), 0)
    );
    assert_ne!(upper, WadHasher::hash("assets/characters/akali"));
}

/// The serializer renders a hand-built model literally, in order.
#[test]
fn serialize_hand_built_model() {
    let m = Brex {
        preamble: Some("p"),
        groups: vec![Group {
            prefix: "x",
            suffixes: vec![
                Suffix::simple("lit"),
                Suffix::numeric("a", vec![Numeric::Range(1, 2), Numeric::new(9)]),
            ],
        }],
        postamble: Some("q"),
    };
    assert_eq!(m.to_text(), "p❮x{lit,a{1→2,9}}❯q");
    assert_eq!(m.unroll(), "pxlitxa1xa2xa9q");
}
