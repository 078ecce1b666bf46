//! The profiles of the search and the models and branching factors that
//! each one tries.
use vstd::prelude::*;
use vstd::arithmetic::power2::{lemma2_to64, lemma_pow2_strictly_increases, lemma_pow2_unfold, pow2};
use crate::text::str_equal;

verus! {

/// How wide the search goes.
#[derive(Clone, Copy, Debug, PartialEq, Eq, Structural)]
pub enum OptimizerProfile {
    /// What is searched where no profile is named.
    Standard,
    Fast,
    Memory,
    Disk,
}

impl OptimizerProfile {
    /// The profile that a name calls: no name calls the standard one.
    pub open spec fn named(name: Option<Seq<char>>) -> Option<OptimizerProfile> {
        match name {
            None => Some(OptimizerProfile::Standard),
            Some(s) => if s == "fast"@ {
                Some(OptimizerProfile::Fast)
            } else if s == "memory"@ {
                Some(OptimizerProfile::Memory)
            } else if s == "disk"@ {
                Some(OptimizerProfile::Disk)
            } else {
                None
            },
        }
    }

    /// Reads a profile from what the caller found under the profile's
    /// setting: nothing, or a name. Any name but the three known is
    /// refused.
    pub fn from_name(name: Option<&str>) -> (r: Option<OptimizerProfile>)
        ensures
            r == OptimizerProfile::named(
                match name {
                    Some(s) => Some(s@),
                    None => None,
                },
            ),
    {
        match name {
            None => Some(OptimizerProfile::Standard),
            Some(s) => {
                if str_equal(s, "fast") {
                    Some(OptimizerProfile::Fast)
                } else if str_equal(s, "memory") {
                    Some(OptimizerProfile::Memory)
                } else if str_equal(s, "disk") {
                    Some(OptimizerProfile::Disk)
                } else {
                    None
                }
            },
        }
    }

    /// The least exponent of a branching factor.
    pub open spec fn first_exponent(self) -> nat {
        6
    }

    /// The exponent that no branching factor reaches.
    pub open spec fn end_exponent(self) -> nat {
        match self {
            OptimizerProfile::Disk => 28,
            _ => 25,
        }
    }

    /// The distance from one exponent to the next.
    pub open spec fn exponent_step(self) -> nat {
        match self {
            OptimizerProfile::Fast => 2,
            _ => 1,
        }
    }

    /// The number of branching factors.
    pub open spec fn factor_count(self) -> nat {
        match self {
            OptimizerProfile::Fast => 10,
            OptimizerProfile::Disk => 22,
            _ => 19,
        }
    }
}

/// What each text of a list holds.
pub open spec fn strs(names: Seq<&'static str>) -> Seq<Seq<char>> {
    Seq::new(names.len(), |i: int| names[i]@)
}

/// The models that the profile tries at the root only.
pub open spec fn top_only_spec(profile: OptimizerProfile) -> Seq<Seq<char>> {
    match profile {
        OptimizerProfile::Fast => seq!["robust_linear"@],
        OptimizerProfile::Disk => seq![
            "radix"@,
            "radix18"@,
            "radix22"@,
            "robust_linear"@,
            "normal"@,
            "lognormal"@,
            "loglinear"@,
        ],
        _ => seq!["radix"@, "radix18"@, "radix22"@, "robust_linear"@],
    }
}

/// The models that the profile tries in any layer.
pub open spec fn anywhere_spec(profile: OptimizerProfile) -> Seq<Seq<char>> {
    match profile {
        OptimizerProfile::Fast => seq!["linear"@, "cubic"@],
        _ => seq!["linear"@, "cubic"@, "linear_spline"@],
    }
}

/// The branching factors that the profile tries: two to the power of each
/// of its exponents.
pub open spec fn branching_factors_spec(profile: OptimizerProfile) -> Seq<u64> {
    Seq::new(
        profile.factor_count(),
        |i: int| pow2((profile.first_exponent() + i * profile.exponent_step()) as nat) as u64,
    )
}

pub fn top_only_layers(profile: OptimizerProfile) -> (r: Vec<&'static str>)
    ensures
        strs(r@) == top_only_spec(profile),
{
    let mut r: Vec<&'static str> = Vec::new();
    match profile {
        OptimizerProfile::Fast => {
            r.push("robust_linear");
        },
        OptimizerProfile::Disk => {
            r.push("radix");
            r.push("radix18");
            r.push("radix22");
            r.push("robust_linear");
            r.push("normal");
            r.push("lognormal");
            r.push("loglinear");
        },
        _ => {
            r.push("radix");
            r.push("radix18");
            r.push("radix22");
            r.push("robust_linear");
        },
    }
    assert(strs(r@) =~= top_only_spec(profile));
    r
}

pub fn anywhere_layers(profile: OptimizerProfile) -> (r: Vec<&'static str>)
    ensures
        strs(r@) == anywhere_spec(profile),
{
    let mut r: Vec<&'static str> = Vec::new();
    match profile {
        OptimizerProfile::Fast => {
            r.push("linear");
            r.push("cubic");
        },
        _ => {
            r.push("linear");
            r.push("cubic");
            r.push("linear_spline");
        },
    }
    assert(strs(r@) =~= anywhere_spec(profile));
    r
}

pub fn get_branching_factors(profile: OptimizerProfile) -> (r: Vec<u64>)
    ensures
        r@ == branching_factors_spec(profile),
{
    let end: u32 = match profile {
        OptimizerProfile::Disk => 28,
        _ => 25,
    };
    let step: u32 = match profile {
        OptimizerProfile::Fast => 2,
        _ => 1,
    };
    let mut r: Vec<u64> = Vec::new();
    let mut e: u32 = 6;
    let mut v: u64 = 64;
    proof {
        lemma2_to64();
    }
    while e < end
        invariant
            6 <= e <= end + 1,
            end == profile.end_exponent(),
            step == profile.exponent_step(),
            v == pow2(e as nat),
            e - step < end,
            1 <= step <= 2,
            e == 6 + r@.len() * step,
            forall|i: int| 0 <= i < r@.len() ==> r@[i] == pow2((6 + i * step) as nat) as u64,
        decreases end + 1 - e,
    {
        r.push(v);
        proof {
            lemma2_to64();
            lemma_pow2_strictly_increases(e as nat, 30);
            lemma_pow2_unfold((e + 1) as nat);
            lemma_pow2_unfold((e + 2) as nat);
            assert((r@.len() - 1) * step + step == r@.len() * step) by (nonlinear_arith);
        }
        if step == 2 {
            v = v * 4;
        } else {
            v = v * 2;
        }
        e = e + step;
    }
    proof {
        assert(r@.len() == profile.factor_count()) by (nonlinear_arith)
            requires
                e == 6 + r@.len() * step,
                e >= end,
                e <= end + 1,
                e - step < end,
                step == profile.exponent_step(),
                end == profile.end_exponent(),
                profile.factor_count() == (match profile {
                    OptimizerProfile::Fast => 10nat,
                    OptimizerProfile::Disk => 22nat,
                    _ => 19nat,
                }),
                profile.end_exponent() == (match profile {
                    OptimizerProfile::Disk => 28nat,
                    _ => 25nat,
                }),
                profile.exponent_step() == (match profile {
                    OptimizerProfile::Fast => 2nat,
                    _ => 1nat,
                }),
        ;
        assert(r@ =~= branching_factors_spec(profile));
    }
    r
}

} // verus!
