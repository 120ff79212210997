use brex::{decode, encode, Brex, Numeric};

/// A token repeating three times, each followed by digits 0,1,2 and a
/// shared tail: one group keyed on the stem, numerics merged to a range.
#[test]
fn scenario_repeating_token_with_digits() {
    let raw = "_x_skin0_x_skin1_x_skin2.bin";
    let model = encode(raw).unwrap();
    assert_eq!(model.preamble, None);
    assert_eq!(model.postamble, Some(".bin"));
    assert_eq!(model.groups.len(), 1);
    let group = &model.groups[0];
    assert_eq!(group.prefix, "_x");
    assert_eq!(group.suffixes.len(), 1);
    let suffix = &group.suffixes[0];
    assert_eq!(suffix.suffix, "_skin");
    let numerics = suffix.numerics.as_ref().unwrap();
    assert_eq!(numerics.len(), 1);
    assert!(matches!(numerics[0], Numeric::Range(0, 2)));

    let text = model.to_text();
    assert_eq!(text, "❮_x{_skin{0→2}}❯.bin");
    assert_eq!(decode(&text).unwrap(), raw);
}

/// An input without repeated structure stays one literal preamble and
/// decodes back unchanged.
#[test]
fn literal_fallback() {
    let model = encode("no_repeats_here").unwrap();
    assert_eq!(model.preamble, Some("no_repeats_here"));
    assert!(model.groups.is_empty());
    assert_eq!(model.postamble, None);
    let text = model.to_text();
    assert_eq!(text, "no_repeats_here");
    assert_eq!(decode(&text).unwrap(), "no_repeats_here");
}

/// An input containing none of the alphabet's structural delimiters
/// encodes to a pure-literal model and decodes back unchanged.
#[test]
fn no_structural_delimiters() {
    let raw = "hello world";
    let model = encode(raw).unwrap();
    assert!(model.groups.is_empty());
    assert_eq!(model.preamble, Some(raw));
    assert_eq!(decode(&model.to_text()).unwrap(), raw);
}

/// Numeric tails {1,2,3,5} on a shared stem merge to [Range(1,3),
/// Single(5)] in ascending order.
#[test]
fn numeric_merge() {
    let raw = "_x_a1_x_a2_x_a3_x_a5";
    let model = encode(raw).unwrap();
    assert_eq!(model.groups.len(), 1);
    let suffix = &model.groups[0].suffixes[0];
    assert_eq!(suffix.suffix, "_a");
    let numerics = suffix.numerics.as_ref().unwrap();
    assert_eq!(numerics.len(), 2);
    assert!(matches!(numerics[0], Numeric::Range(1, 3)));
    assert!(matches!(numerics[1], Numeric::Single(5)));
    assert_eq!(decode(&model.to_text()).unwrap(), raw);
}

/// One encode/serialize/parse cycle reaches a serialization fixed point.
#[test]
fn serialization_fixpoint() {
    for raw in [
        "_x_skin0_x_skin1_x_skin2.bin",
        "no_repeats_here",
        "_x_a1_x_a2_x_a3_x_a5",
        "pre_x_a1_x_a2",
        "",
    ] {
        let first = encode(raw).unwrap().to_text();
        let reparsed = Brex::parse(&first).unwrap();
        assert_eq!(reparsed.to_text(), first);
    }
}

/// Candidate suffixes whose digits sit mid-text stay literal and round
/// trip unchanged.
#[test]
fn mid_text_digits_stay_literal() {
    let raw = "_x_a1b_x_a2b";
    let model = encode(raw).unwrap();
    assert_eq!(model.groups.len(), 1);
    assert_eq!(model.groups[0].suffixes.len(), 2);
    assert!(model.groups[0].suffixes[0].numerics.is_none());
    assert_eq!(decode(&model.to_text()).unwrap(), raw);
}

/// Leading zeros are not width-preserved: the decimal rendering of the
/// merged values is canonical.
#[test]
fn leading_zeros_not_preserved() {
    let raw = "_x_a007_x_a008";
    let model = encode(raw).unwrap();
    assert_eq!(decode(&model.to_text()).unwrap(), "_x_a7_x_a8");
}

/// A digit run that does not fit an unsigned 32-bit integer is a
/// recoverable encoding error.
#[test]
fn encode_numeric_overflow() {
    let raw = "_x_a99999999999_x_a2";
    assert!(matches!(encode(raw), Err(brex::EncodeError::NumericOverflow)));
}

/// The empty input encodes to the empty literal model.
#[test]
fn empty_input() {
    let model = encode("").unwrap();
    assert!(model.groups.is_empty());
    assert_eq!(model.to_text(), "");
    assert_eq!(decode("").unwrap(), "");
}

/// Every parity-equal repetition becomes its own group, in construction
/// order; expansion re-orders by the inverted prefix comparator.
#[test]
fn two_groups_round_trip() {
    let raw = "_a_s1_a_s2_b_t1_b_t2";
    let model = encode(raw).unwrap();
    assert_eq!(model.groups.len(), 2);
    assert_eq!(model.groups[0].prefix, "_a");
    assert_eq!(model.groups[1].prefix, "_b");
    assert_eq!(decode(&model.to_text()).unwrap(), raw);
}

/// When the odd-position tokens carry the repetition, they supply the
/// prefixes and the leading token stays literal preamble.
#[test]
fn odd_parity_prefixes() {
    let raw = "h_x_s1_x_s2";
    let model = encode(raw).unwrap();
    assert_eq!(model.preamble, Some("h"));
    assert_eq!(model.groups.len(), 1);
    assert_eq!(model.groups[0].prefix, "_x");
    assert_eq!(decode(&model.to_text()).unwrap(), raw);
}

/// A prefix whose runs are separated re-appears as two groups; the
/// expander gathers them, so the reconstruction reorders the segments.
#[test]
fn split_runs_regroup_on_expansion() {
    let raw = "_a_x1_a_x2_b_y1_b_y2_a_z1_a_z2";
    let model = encode(raw).unwrap();
    assert_eq!(model.groups.len(), 3);
    assert_eq!(
        decode(&model.to_text()).unwrap(),
        "_a_x1_a_x2_a_z1_a_z2_b_y1_b_y2"
    );
}
