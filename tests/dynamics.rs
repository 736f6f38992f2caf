use bubble::dynamics::{classify, clamp_opinion, respond, Regime, OPINION_CEILING};

const UNIT: i64 = 1_000_000;

#[test]
fn consensus_strengthens_and_attracts() {
    let (weight, opinion) = respond(500_000, 50 * UNIT, 55 * UNIT, 10 * UNIT, 40 * UNIT);
    assert_eq!(weight, 550_000);
    assert_eq!(opinion, 50_025_000);
}

#[test]
fn consensus_moves_down_towards_lower_message() {
    let (weight, opinion) = respond(500_000, 50 * UNIT, 45 * UNIT, 10 * UNIT, 40 * UNIT);
    assert_eq!(weight, 550_000);
    assert_eq!(opinion, 49_975_000);
}

#[test]
fn opposition_weakens_and_repels() {
    let (weight, opinion) = respond(500_000, 50 * UNIT, 0, 10 * UNIT, 40 * UNIT);
    assert_eq!(weight, 400_000);
    assert_eq!(opinion, 50_250_000);
}

#[test]
fn opposition_moves_down_away_from_higher_message() {
    let (weight, opinion) = respond(500_000, 10 * UNIT, 60 * UNIT, 10 * UNIT, 40 * UNIT);
    assert_eq!(weight, 400_000);
    assert_eq!(opinion, 9_750_000);
}

#[test]
fn weight_is_capped_at_one() {
    let (weight, _) = respond(990_000, 50 * UNIT, 50 * UNIT, 10 * UNIT, 40 * UNIT);
    assert_eq!(weight, 1_000_000);
}

#[test]
fn weight_is_floored_at_zero() {
    let (weight, _) = respond(50_000, 0, 100 * UNIT, 10 * UNIT, 40 * UNIT);
    assert_eq!(weight, 0);
}

#[test]
fn difference_at_consensus_threshold_is_neutral() {
    assert_eq!(classify(10 * UNIT as i128, 10 * UNIT, 40 * UNIT), Regime::Neutral);
    let r = respond(500_000, 50 * UNIT, 60 * UNIT, 10 * UNIT, 40 * UNIT);
    assert_eq!(r, (500_000, 50 * UNIT));
}

#[test]
fn difference_at_opposition_threshold_is_neutral() {
    assert_eq!(classify(40 * UNIT as i128, 10 * UNIT, 40 * UNIT), Regime::Neutral);
    let r = respond(500_000, 50 * UNIT, 90 * UNIT, 10 * UNIT, 40 * UNIT);
    assert_eq!(r, (500_000, 50 * UNIT));
}

#[test]
fn classify_regimes() {
    assert_eq!(classify(0, 10, 40), Regime::Consensus);
    assert_eq!(classify(9, 10, 40), Regime::Consensus);
    assert_eq!(classify(25, 10, 40), Regime::Neutral);
    assert_eq!(classify(41, 10, 40), Regime::Opposition);
}

#[test]
fn clamp_keeps_range() {
    assert_eq!(clamp_opinion(-5), 0);
    assert_eq!(clamp_opinion(0), 0);
    assert_eq!(clamp_opinion(42 * UNIT), 42 * UNIT);
    assert_eq!(clamp_opinion(OPINION_CEILING), OPINION_CEILING);
    assert_eq!(clamp_opinion(130 * UNIT), OPINION_CEILING);
}
