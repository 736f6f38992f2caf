//! How one message changes a recipient's opinion and the edge it came over.
use vstd::prelude::*;
use crate::graph::FULL_WEIGHT;

verus! {

/// The opinion that stands for 1.0.
pub const OPINION_UNIT: i64 = 1_000_000;

/// The highest opinion, 100.0, that the clamp lets through.
pub const OPINION_CEILING: i64 = 100_000_000;

/// The largest magnitude of an opinion or message that the update takes in.
pub const OPINION_LIMIT: i64 = 1_000_000_000_000_000_000;

/// How a recipient relates to a message.
#[derive(PartialEq, Eq, Structural, Clone, Copy, Debug)]
pub enum Regime {
    Consensus,
    Neutral,
    Opposition,
}

/// Consensus below the consensus threshold, opposition above the opposition
/// threshold, both strict; neutral otherwise.
pub open spec fn regime_of(difference: int, consensus: int, opposition: int) -> Regime {
    if difference < consensus {
        Regime::Consensus
    } else if difference > opposition {
        Regime::Opposition
    } else {
        Regime::Neutral
    }
}

pub open spec fn abs(x: int) -> int {
    if x < 0 {
        -x
    } else {
        x
    }
}

/// `|message - opinion|`.
pub open spec fn difference_of(opinion: int, message: int) -> int {
    abs(message - opinion)
}

/// `|weight * (message - opinion) / 100|` in fixed point.
pub open spec fn shift_of(weight: int, opinion: int, message: int) -> int {
    weight * difference_of(opinion, message) / (FULL_WEIGHT * 100)
}

/// The edge weight after the recipient has heard the message.
pub open spec fn next_weight(
    weight: int,
    opinion: int,
    message: int,
    consensus: int,
    opposition: int,
) -> int {
    let d = difference_of(opinion, message);
    match regime_of(d, consensus, opposition) {
        Regime::Consensus => {
            let w = weight + (consensus - d) / 100;
            if w > FULL_WEIGHT {
                FULL_WEIGHT as int
            } else {
                w
            }
        },
        Regime::Opposition => {
            let w = weight - (d - opposition) / 100;
            if w < 0 {
                0
            } else {
                w
            }
        },
        Regime::Neutral => weight,
    }
}

/// The recipient's opinion after it has heard the message: towards the
/// message on consensus, away from it on opposition.
pub open spec fn next_opinion(
    weight: int,
    opinion: int,
    message: int,
    consensus: int,
    opposition: int,
) -> int {
    let s = shift_of(weight, opinion, message);
    match regime_of(difference_of(opinion, message), consensus, opposition) {
        Regime::Consensus => if message < opinion {
            opinion - s
        } else {
            opinion + s
        },
        Regime::Opposition => if message < opinion {
            opinion + s
        } else {
            opinion - s
        },
        Regime::Neutral => opinion,
    }
}

/// The opinion held within `[0, OPINION_CEILING]`.
pub open spec fn clamped(opinion: int) -> int {
    if opinion < 0 {
        0
    } else if opinion > OPINION_CEILING {
        OPINION_CEILING as int
    } else {
        opinion
    }
}

/// A difference equal to either threshold falls in the neutral regime, since
/// both tests are strict; the neutral regime leaves the edge weight and the
/// opinion unchanged.
pub proof fn lemma_threshold_is_neutral(
    weight: int,
    opinion: int,
    message: int,
    consensus: int,
    opposition: int,
)
    requires
        consensus <= opposition,
        difference_of(opinion, message) == consensus || difference_of(opinion, message)
            == opposition,
    ensures
        regime_of(difference_of(opinion, message), consensus, opposition) == Regime::Neutral,
        next_weight(weight, opinion, message, consensus, opposition) == weight,
        next_opinion(weight, opinion, message, consensus, opposition) == opinion,
{
}

/// The regime of a pair whose opinions lie `difference` apart.
pub fn classify(difference: i128, consensus: i64, opposition: i64) -> (r: Regime)
    ensures
        r == regime_of(difference as int, consensus as int, opposition as int),
{
    if difference < consensus as i128 {
        Regime::Consensus
    } else if difference > opposition as i128 {
        Regime::Opposition
    } else {
        Regime::Neutral
    }
}

/// The new edge weight and the new recipient opinion after one message.
pub fn respond(weight: u32, opinion: i64, message: i64, consensus: i64, opposition: i64) -> (r: (
    u32,
    i64,
))
    requires
        weight <= FULL_WEIGHT,
        -OPINION_LIMIT <= opinion <= OPINION_LIMIT,
        -OPINION_LIMIT <= message <= OPINION_LIMIT,
    ensures
        r.0 == next_weight(
            weight as int,
            opinion as int,
            message as int,
            consensus as int,
            opposition as int,
        ),
        r.1 == next_opinion(
            weight as int,
            opinion as int,
            message as int,
            consensus as int,
            opposition as int,
        ),
        r.0 <= FULL_WEIGHT,
{
    let gap: i128 = message as i128 - opinion as i128;
    let difference: i128 = if gap < 0 {
        -gap
    } else {
        gap
    };
    assert(0 <= weight as i128 * difference <= FULL_WEIGHT as int * (2 * OPINION_LIMIT))
        by (nonlinear_arith)
        requires
            0 <= weight <= FULL_WEIGHT,
            0 <= difference <= 2 * OPINION_LIMIT,
    ;
    let shift: i128 = (weight as i128 * difference) / (FULL_WEIGHT as i128 * 100);
    assert(shift <= difference) by (nonlinear_arith)
        requires
            shift == (weight as i128 * difference) / (FULL_WEIGHT as i128 * 100),
            0 <= weight <= FULL_WEIGHT,
            0 <= difference,
    ;
    let opinion_wide = opinion as i128;
    match classify(difference, consensus, opposition) {
        Regime::Consensus => {
            let raised: i128 = weight as i128 + (consensus as i128 - difference) / 100;
            let w: u32 = if raised > FULL_WEIGHT as i128 {
                FULL_WEIGHT
            } else {
                raised as u32
            };
            let o: i128 = if message < opinion {
                opinion_wide - shift
            } else {
                opinion_wide + shift
            };
            (w, o as i64)
        },
        Regime::Opposition => {
            let lowered: i128 = weight as i128 - (difference - opposition as i128) / 100;
            let w: u32 = if lowered < 0 {
                0
            } else {
                lowered as u32
            };
            let o: i128 = if message < opinion {
                opinion_wide + shift
            } else {
                opinion_wide - shift
            };
            (w, o as i64)
        },
        Regime::Neutral => (weight, opinion),
    }
}

/// The opinion held within `[0, OPINION_CEILING]`.
pub fn clamp_opinion(opinion: i64) -> (r: i64)
    ensures
        r == clamped(opinion as int),
{
    if opinion < 0 {
        0
    } else if opinion > OPINION_CEILING {
        OPINION_CEILING
    } else {
        opinion
    }
}

} // verus!
