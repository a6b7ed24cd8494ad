use vstd::prelude::*;

verus! {

/// A balanced ternary digit: -1, 0 or 1.
pub type Trit = i8;

/// Number of trits in one digest.
pub const HASH_LENGTH: usize = 243;

/// Number of trits in the sponge state.
pub const STATE_LENGTH: usize = 729;

/// Substitution table, indexed by `a + 4 * b + 5` for two trits `a`, `b`.
pub const TRUTH_TABLE: [Trit; 11] = [1, 0, -1, 2, 1, -1, 0, 2, -1, 1, 0];

/// The substitution table as a sequence.
pub open spec fn truth_table() -> Seq<Trit> {
    seq![1i8, 0i8, -1i8, 2i8, 1i8, -1i8, 0i8, 2i8, -1i8, 1i8, 0i8]
}

pub open spec fn is_trit(t: Trit) -> bool {
    -1 <= t <= 1
}

/// Looks up the substitution for the trit pair `(a, b)`.
pub fn substitute(a: Trit, b: Trit) -> (r: Trit)
    requires
        is_trit(a),
        is_trit(b),
    ensures
        r == truth_table()[a + 4 * b + 5],
{
    let idx: usize = (a as i32 + 4 * b as i32 + 5) as usize;
    proof {
        assert(TRUTH_TABLE@ == truth_table());
    }
    TRUTH_TABLE[idx]
}

/// Eight trits packed bit by bit: bit `k` of the low word and bit `k` of
/// the high word together encode lane `k`.
///
/// | low | high | trit    |
/// |-----|------|---------|
/// | 0   | 0    | invalid |
/// | 0   | 1    | 1       |
/// | 1   | 0    | -1      |
/// | 1   | 1    | 0       |
#[derive(Clone, Copy, Debug)]
pub struct Ptrit(pub u8, pub u8);

impl Default for Ptrit {
    /// Every lane holds the trit 0.
    fn default() -> (r: Ptrit)
        ensures
            r.0 == 255 && r.1 == 255,
    {
        Ptrit(255, 255)
    }
}

} // verus!
