//! The score scale: how much a similarity ratio weighs against a
//! difference in length.

use vstd::prelude::*;

verus! {

/// The highest similarity ratio.
pub const MAX_RATIO: u8 = 100;

/// The quotient of `a` by `b`, rounded to the nearest integer, halves
/// upwards.
pub open spec fn rounded_quotient(a: int, b: int) -> int {
    (2 * a + b) / (2 * b)
}

/// A score scale: for every similarity ratio from 0 to 100 the ratio as it
/// counts in a combined score, that is the ratio times the scale, rounded.
pub struct ScoreScale {
    steps: Vec<i32>,
}

impl ScoreScale {
    #[verifier::type_invariant]
    spec fn complete(self) -> bool {
        self.steps@.len() == MAX_RATIO + 1
    }

    /// What the given ratio counts under this scale.
    pub closed spec fn scaled(self, ratio: int) -> int {
        self.steps@[ratio] as int
    }

    /// The scale whose scaled ratios are listed in `table`, the one for ratio
    /// `r` at position `r`. The table must list the ratios 0 to 100, no more
    /// and no fewer.
    pub fn from_table(table: Vec<i32>) -> (scale: Option<ScoreScale>)
        ensures
            match scale {
                Some(s) => table@.len() == MAX_RATIO + 1 && forall|r: int|
                    0 <= r <= MAX_RATIO ==> #[trigger] s.scaled(r) == table@[r],
                None => table@.len() != MAX_RATIO + 1,
            },
    {
        if table.len() == 101 {
            Some(ScoreScale { steps: table })
        } else {
            None
        }
    }

    /// The scale `numer / denom`: a ratio counts as the ratio times the
    /// scale, rounded to the nearest integer. There is none where `denom` is
    /// zero or a scaled ratio would not fit the score's integer type.
    pub fn from_ratio(numer: u32, denom: u32) -> (scale: Option<ScoreScale>)
        ensures
            match scale {
                Some(s) => denom > 0 && forall|r: int|
                    0 <= r <= MAX_RATIO ==> #[trigger] s.scaled(r) == rounded_quotient(
                        r * numer,
                        denom as int,
                    ),
                None => denom == 0 || rounded_quotient(MAX_RATIO * numer, denom as int) > i32::MAX,
            },
    {
        if denom == 0 {
            return None;
        }
        let n: u64 = numer as u64;
        let d: u64 = denom as u64;
        let top: u64 = (200 * n + d) / (2 * d);
        if top > 2147483647 {
            return None;
        }
        let mut steps: Vec<i32> = Vec::with_capacity(101);
        let mut r: u64 = 0;
        while r <= 100
            invariant
                r <= 101,
                n == numer,
                d == denom,
                d > 0,
                rounded_quotient(100 * n, d as int) <= i32::MAX,
                steps@.len() == r,
                forall|p: int|
                    0 <= p < r ==> #[trigger] steps@[p] as int == rounded_quotient(p * n, d as int),
            decreases 101 - r,
        {
            assert(r * n <= 100 * n) by (nonlinear_arith)
                requires
                    r <= 100,
                    n >= 0,
            ;
            assert(r * n >= 0) by (nonlinear_arith)
                requires
                    r >= 0,
                    n >= 0,
            ;
            let value: u64 = (2 * (r * n) + d) / (2 * d);
            proof {
                vstd::arithmetic::div_mod::lemma_div_is_ordered(
                    2 * (r * n) + d,
                    2 * (100 * n) + d,
                    2 * d,
                );
                vstd::arithmetic::div_mod::lemma_div_pos_is_pos(2 * (r * n) + d, 2 * d);
            }
            steps.push(value as i32);
            r += 1;
        }
        Some(ScoreScale { steps })
    }

    /// What the given ratio counts under this scale.
    pub fn apply(&self, ratio: u8) -> (value: i32)
        requires
            ratio <= MAX_RATIO,
        ensures
            value == self.scaled(ratio as int),
    {
        proof {
            use_type_invariant(self);
        }
        self.steps[ratio as usize]
    }
}

} // verus!
