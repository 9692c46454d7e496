//! Behaviours a simulated node can follow, named on the command line.
use vstd::prelude::*;
use crate::strings::str_eq;

verus! {

/// How a simulated node behaves.
#[derive(Clone, Copy, Debug, PartialEq, Eq, Structural)]
pub enum AttackType {
    Honest,
    Coordinated,
    RandomNoise,
    GaussianNoise,
    FlipFlop,
    Sleeper,
    Drift,
    OutlierBurst,
    Adaptive,
    Clone,
    Sybil,
}

/// The behaviour a name selects (`Honest` for an unknown name).
pub open spec fn attack_of(s: Seq<char>) -> AttackType {
    if s == "honest"@ {
        AttackType::Honest
    } else if s == "coordinated"@ {
        AttackType::Coordinated
    } else if s == "random"@ {
        AttackType::RandomNoise
    } else if s == "gaussian"@ {
        AttackType::GaussianNoise
    } else if s == "flipflop"@ {
        AttackType::FlipFlop
    } else if s == "sleeper"@ {
        AttackType::Sleeper
    } else if s == "drift"@ {
        AttackType::Drift
    } else if s == "outlier"@ {
        AttackType::OutlierBurst
    } else if s == "adaptive"@ {
        AttackType::Adaptive
    } else if s == "clone"@ {
        AttackType::Clone
    } else if s == "sybil"@ {
        AttackType::Sybil
    } else {
        AttackType::Honest
    }
}

impl AttackType {
    /// Parses a behaviour name; unknown names give `Honest`.
    pub fn from_str(s: &str) -> (t: Self)
        ensures
            t == attack_of(s@),
    {
        if str_eq(s, "honest") {
            AttackType::Honest
        } else if str_eq(s, "coordinated") {
            AttackType::Coordinated
        } else if str_eq(s, "random") {
            AttackType::RandomNoise
        } else if str_eq(s, "gaussian") {
            AttackType::GaussianNoise
        } else if str_eq(s, "flipflop") {
            AttackType::FlipFlop
        } else if str_eq(s, "sleeper") {
            AttackType::Sleeper
        } else if str_eq(s, "drift") {
            AttackType::Drift
        } else if str_eq(s, "outlier") {
            AttackType::OutlierBurst
        } else if str_eq(s, "adaptive") {
            AttackType::Adaptive
        } else if str_eq(s, "clone") {
            AttackType::Clone
        } else if str_eq(s, "sybil") {
            AttackType::Sybil
        } else {
            AttackType::Honest
        }
    }
}

} // verus!
