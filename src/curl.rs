//! The scalar sponge over plain trits.
use vstd::prelude::*;

use crate::constants::{is_trit, substitute, truth_table, Trit, HASH_LENGTH, STATE_LENGTH};
use crate::sponge::{
    absorb_all, absorb_chunks, chunk, chunk_count, iterate, overwrite, squeeze_blocks, squeeze_output,
    squeeze_state, lemma_squeeze_one_block,
};

verus! {

/// Position read for output `i` of a round: the cursor advances by 364
/// modulo 729 from one output position to the next.
pub open spec fn rot(i: int) -> int {
    (364 * i) % 729
}

/// Every item of `s` is a trit.
pub open spec fn all_trits(s: Seq<Trit>) -> bool {
    forall|i: int| 0 <= i < s.len() ==> is_trit(#[trigger] s[i])
}

/// One round of the permutation: output `i` is the table entry for the pair
/// of trits at positions `rot(i)` and `rot(i + 1)` of the previous state.
pub open spec fn round(s: Seq<Trit>) -> Seq<Trit> {
    Seq::new(729, |i: int| truth_table()[s[rot(i)] + 4 * s[rot(i + 1)] + 5])
}

/// `n` rounds of the permutation.
pub open spec fn permute(s: Seq<Trit>, n: nat) -> Seq<Trit>
    decreases n,
{
    if n == 0 {
        s
    } else {
        round(permute(s, (n - 1) as nat))
    }
}

/// The cursor stays inside the state and advances by 364 modulo 729.
pub proof fn lemma_rot_step(i: int)
    requires
        0 <= i,
    ensures
        0 <= rot(i) < 729,
        rot(i + 1) == if rot(i) < 365 { rot(i) + 364 } else { rot(i) - 365 },
{
    assert(364 * (i + 1) == 364 * i + 364) by (nonlinear_arith);
    vstd::arithmetic::div_mod::lemma_add_mod_noop(364 * i, 364, 729);
}

proof fn lemma_round_trits(s: Seq<Trit>)
    requires
        s.len() == 729,
        all_trits(s),
    ensures
        round(s).len() == 729,
        all_trits(round(s)),
{
    assert forall|i: int| 0 <= i < 729 implies is_trit(#[trigger] round(s)[i]) by {
        lemma_rot_step(i);
        lemma_rot_step(i + 1);
        let a = s[rot(i)];
        let b = s[rot(i + 1)];
        assert(is_trit(a) && is_trit(b));
    }
}

/// Applies `rounds` rounds of the permutation to `state`. Each round reads
/// only the state the previous round left and writes a fresh one.
pub fn transform(state: &mut [Trit; STATE_LENGTH], rounds: usize)
    requires
        all_trits(old(state)@),
    ensures
        final(state)@ == permute(old(state)@, rounds as nat),
        all_trits(final(state)@),
{
    let mut r: usize = 0;
    while r < rounds
        invariant
            r <= rounds,
            state@ == permute(old(state)@, r as nat),
            state@.len() == 729,
            all_trits(state@),
        decreases rounds - r,
    {
        let prev: [Trit; STATE_LENGTH] = *state;
        let mut cursor: usize = 0;
        let mut i: usize = 0;
        while i < STATE_LENGTH
            invariant
                i <= 729,
                cursor == rot(i as int),
                prev@.len() == 729,
                state@.len() == 729,
                all_trits(prev@),
                forall|j: int| 0 <= j < i ==> state@[j] == #[trigger] round(prev@)[j],
            decreases 729 - i,
        {
            proof {
                lemma_rot_step(i as int);
            }
            let next: usize = if cursor < 365 {
                cursor + 364
            } else {
                cursor - 365
            };
            state[i] = substitute(prev[cursor], prev[next]);
            cursor = next;
            i += 1;
        }
        proof {
            assert(state@ =~= round(prev@));
            lemma_round_trits(prev@);
        }
        r += 1;
    }
}

/// The output position of a round that reads position `p` as its first
/// operand.
pub open spec fn reader_of(p: int) -> int {
    if p == 0 {
        0
    } else if p <= 364 {
        729 - 2 * p
    } else {
        1458 - 2 * p
    }
}

proof fn lemma_reader_of(p: int)
    requires
        0 <= p < 729,
    ensures
        0 <= reader_of(p) < 729,
        rot(reader_of(p)) == p,
{
    if 0 < p <= 364 {
        assert(364 * (729 - 2 * p) == 729 * (364 - p) + p) by (nonlinear_arith);
        vstd::arithmetic::div_mod::lemma_mod_multiples_vanish(364 - p, p, 729);
        vstd::arithmetic::div_mod::lemma_small_mod(p as nat, 729);
    } else if p > 364 {
        assert(364 * (1458 - 2 * p) == 729 * (728 - p) + p) by (nonlinear_arith);
        vstd::arithmetic::div_mod::lemma_mod_multiples_vanish(728 - p, p, 729);
        vstd::arithmetic::div_mod::lemma_small_mod(p as nat, 729);
    }
}

/// One round never merges two trit states that differ in exactly one
/// position: the output position that reads that position as its first
/// operand reads the same second operand in both, and for a fixed second
/// operand the table is one to one.
pub proof fn lemma_round_keeps_single_difference(s: Seq<Trit>, t: Seq<Trit>, p: int)
    requires
        s.len() == 729,
        t.len() == 729,
        all_trits(s),
        all_trits(t),
        0 <= p < 729,
        s[p] != t[p],
        forall|j: int| 0 <= j < 729 && j != p ==> s[j] == t[j],
    ensures
        round(s) != round(t),
{
    let i = reader_of(p);
    lemma_reader_of(p);
    lemma_rot_step(i);
    let q = rot(i + 1);
    assert(q != p && 0 <= q < 729);
    assert(s[q] == t[q]);
    assert(is_trit(s[p]) && is_trit(t[p]) && is_trit(s[q]));
    assert(round(s)[i] != round(t)[i]);
}

/// The permutation a sponge with `rounds` rounds applies between chunks.
pub open spec fn permutation(rounds: nat) -> spec_fn(Seq<Trit>) -> Seq<Trit> {
    |s: Seq<Trit>| permute(s, rounds)
}

pub open spec fn zero_state() -> Seq<Trit> {
    Seq::new(729, |i: int| 0i8)
}

/// Copies the first `len` trits of `src` into `out` from position `start` on.
fn copy_block(out: &mut [Trit], start: usize, src: &[Trit; STATE_LENGTH], len: usize)
    requires
        start + len <= old(out)@.len(),
        len <= 729,
    ensures
        final(out)@ == old(out)@.subrange(0, start as int) + src@.take(len as int) + old(out)@.skip(
            start + len,
        ),
{
    let n = out.len();
    let mut j: usize = 0;
    while j < len
        invariant
            j <= len <= 729,
            n == out@.len(),
            start + len <= out@.len(),
            out@.len() == old(out)@.len(),
            forall|t: int| 0 <= t < start ==> out@[t] == old(out)@[t],
            forall|t: int| 0 <= t < j ==> out@[start + t] == src@[t],
            forall|t: int| start + j <= t < out@.len() ==> out@[t] == old(out)@[t],
        decreases len - j,
    {
        out[start + j] = src[j];
        j += 1;
    }
    assert(out@ =~= old(out)@.subrange(0, start as int) + src@.take(len as int) + old(out)@.skip(
        start + len,
    ));
}

/// `digest_into` with a 243-trit output and `digest` agree: from equal
/// states and on equal input they return the same trits and leave the same
/// state.
pub proof fn lemma_digest_into_matches_digest(rounds: nat, s: Seq<Trit>, input: Seq<Trit>)
    ensures
        squeeze_output(permutation(rounds), absorb_all(permutation(rounds), s, input), 243)
            == absorb_all(permutation(rounds), s, input).take(243),
        squeeze_state(permutation(rounds), absorb_all(permutation(rounds), s, input), 243)
            == permutation(rounds)(absorb_all(permutation(rounds), s, input)),
{
    lemma_squeeze_one_block(permutation(rounds), absorb_all(permutation(rounds), s, input));
}

/// Digesting is deterministic: two sponges with the same round count and
/// the same state return the same digest for the same input and are left
/// in the same state; in particular two fresh sponges, or a sponge before
/// and after `reset`, give equal digests.
pub proof fn lemma_digest_deterministic(a: Curl, b: Curl, input: Seq<Trit>)
    requires
        a.spec_rounds() == b.spec_rounds(),
        a.spec_state() == b.spec_state(),
    ensures
        absorb_all(a.spec_permutation(), a.spec_state(), input).take(243) == absorb_all(
            b.spec_permutation(),
            b.spec_state(),
            input,
        ).take(243),
        a.spec_permutation()(absorb_all(a.spec_permutation(), a.spec_state(), input))
            == b.spec_permutation()(absorb_all(b.spec_permutation(), b.spec_state(), input)),
{
}

/// The state whose every trit is `c`.
pub open spec fn constant_state(c: Trit) -> Seq<Trit> {
    Seq::new(729, |i: int| c)
}

proof fn lemma_round_constant(c: Trit)
    requires
        is_trit(c),
    ensures
        round(constant_state(c)) == constant_state(truth_table()[5 * c + 5]),
{
    assert forall|i: int| 0 <= i < 729 implies #[trigger] round(constant_state(c))[i]
        == truth_table()[5 * c + 5] by {
        lemma_rot_step(i);
        lemma_rot_step(i + 1);
    }
    assert(round(constant_state(c)) =~= constant_state(truth_table()[5 * c + 5]));
}

/// Rounds take the zero state to all -1, then to all 1, then back to zero.
proof fn lemma_permute_zero(n: nat)
    ensures
        permute(zero_state(), n) == if n % 3 == 0 {
            constant_state(0i8)
        } else if n % 3 == 1 {
            constant_state(-1i8)
        } else {
            constant_state(1i8)
        },
    decreases n,
{
    if n == 0 {
        assert(zero_state() =~= constant_state(0i8));
    } else {
        let m = (n - 1) as nat;
        lemma_permute_zero(m);
        assert(permute(zero_state(), n) == round(permute(zero_state(), m)));
        if m % 3 == 0 {
            lemma_round_constant(0i8);
            assert(truth_table()[5] == -1i8);
        } else if m % 3 == 1 {
            lemma_round_constant(-1i8);
            assert(truth_table()[0] == 1i8);
        } else {
            lemma_round_constant(1i8);
            assert(truth_table()[10] == 0i8);
        }
    }
}

proof fn lemma_absorb_zeros(rounds: nat, input: Seq<Trit>, k: nat)
    requires
        rounds % 3 == 0,
        forall|i: int| 0 <= i < input.len() ==> input[i] == 0,
        k <= chunk_count(input.len() as int),
    ensures
        absorb_chunks(permutation(rounds), zero_state(), input, k) == zero_state(),
    decreases k,
{
    if k > 0 {
        lemma_absorb_zeros(rounds, input, (k - 1) as nat);
        let c = chunk(input, k - 1);
        assert(overwrite(zero_state(), c) =~= zero_state());
        lemma_permute_zero(rounds);
        assert(zero_state() =~= constant_state(0i8));
    }
}

/// With a round count that is a multiple of three the zero state is a fixed
/// point of the permutation, so a fresh sponge that absorbs only zero trits
/// returns 243 zero trits.
pub proof fn lemma_zero_input_digest(rounds: nat, input: Seq<Trit>)
    requires
        rounds % 3 == 0,
        forall|i: int| 0 <= i < input.len() ==> input[i] == 0,
    ensures
        absorb_all(permutation(rounds), zero_state(), input).take(243) == Seq::new(
            243,
            |i: int| 0i8,
        ),
{
    lemma_absorb_zeros(rounds, input, chunk_count(input.len() as int) as nat);
    assert(zero_state().take(243) =~= Seq::new(243, |i: int| 0i8));
}

/// A sponge over trits, with a round count fixed at construction.
#[derive(Clone, Copy, Debug)]
pub struct Curl {
    rounds: usize,
    state: [Trit; STATE_LENGTH],
}

impl Default for Curl {
    /// A sponge with 81 rounds and a zero state.
    fn default() -> (r: Curl)
        ensures
            r.wf(),
            r.spec_rounds() == 81,
            r.spec_state() == zero_state(),
    {
        let c = Curl { rounds: 81, state: [0; STATE_LENGTH] };
        proof {
            assert(c.state@ =~= zero_state());
        }
        c
    }
}

impl Curl {
    pub closed spec fn spec_rounds(&self) -> nat {
        self.rounds as nat
    }

    /// The 729 trits of the state.
    pub closed spec fn spec_state(&self) -> Seq<Trit> {
        self.state@
    }

    /// The state holds only trits.
    pub open spec fn wf(&self) -> bool {
        self.spec_state().len() == 729 && all_trits(self.spec_state())
    }

    /// The permutation this sponge applies between chunks.
    pub open spec fn spec_permutation(&self) -> spec_fn(Seq<Trit>) -> Seq<Trit> {
        permutation(self.spec_rounds())
    }

    proof fn lemma_view(&self)
        ensures
            self.spec_state() == self.state@,
            self.state@.len() == 729,
            self.spec_rounds() == self.rounds,
    {
    }

    /// Squeezes `out.len()` trits out of the sponge into `out`, a block of
    /// 243 per permutation. A short tail is copied once, the state permuted,
    /// and copied again from the new state, which is permuted once more.
    pub fn squeeze_into(&mut self, out: &mut [Trit])
        requires
            old(self).wf(),
        ensures
            final(self).wf(),
            final(self).spec_rounds() == old(self).spec_rounds(),
            final(out)@ == squeeze_output(
                old(self).spec_permutation(),
                old(self).spec_state(),
                old(out)@.len(),
            ),
            final(self).spec_state() == squeeze_state(
                old(self).spec_permutation(),
                old(self).spec_state(),
                old(out)@.len(),
            ),
    {
        proof {
            self.lemma_view();
        }
        let ghost f = self.spec_permutation();
        let ghost s0 = self.state@;
        let n = out.len();
        let q = n / HASH_LENGTH;
        let mut k: usize = 0;
        while k < q
            invariant
                k <= q,
                q == n / 243,
                n == out@.len(),
                f == permutation(self.rounds as nat),
                self.rounds == old(self).rounds,
                self.state@.len() == 729,
                all_trits(self.state@),
                self.state@ == iterate(f, s0, k as nat),
                out@.subrange(0, 243 * k) == squeeze_blocks(f, s0, k as nat),
            decreases q - k,
        {
            let ghost prev = out@;
            copy_block(out, k * HASH_LENGTH, &self.state, HASH_LENGTH);
            proof {
                assert(out@.subrange(0, 243 * k) =~= prev.subrange(0, 243 * k));
                assert(out@.subrange(0, 243 * (k + 1)) =~= squeeze_blocks(f, s0, (k + 1) as nat));
            }
            transform(&mut self.state, self.rounds);
            k += 1;
        }
        let last = n - q * HASH_LENGTH;
        let ghost blocks = out@.subrange(0, 243 * q);
        if last != 0 {
            copy_block(out, q * HASH_LENGTH, &self.state, last);
            transform(&mut self.state, self.rounds);
        }
        let ghost prev = out@;
        copy_block(out, n - last, &self.state, last);
        proof {
            assert(prev.subrange(0, 243 * q) =~= blocks);
            if last == 0 {
                assert(out@ =~= blocks);
            } else {
                assert(out@ =~= blocks + iterate(f, s0, (q + 1) as nat).take(last as int));
            }
        }
        if n % HASH_LENGTH != 0 {
            transform(&mut self.state, self.rounds);
        }
    }

    /// Squeezes one block of 243 trits: the current state's first 243 trits.
    pub fn squeeze(&mut self) -> (r: [Trit; HASH_LENGTH])
        requires
            old(self).wf(),
        ensures
            final(self).wf(),
            final(self).spec_rounds() == old(self).spec_rounds(),
            r@ == squeeze_output(old(self).spec_permutation(), old(self).spec_state(), 243),
            r@ == old(self).spec_state().take(243),
            final(self).spec_state() == old(self).spec_permutation()(old(self).spec_state()),
    {
        let mut output: [Trit; HASH_LENGTH] = [0; HASH_LENGTH];
        self.squeeze_into(&mut output);
        proof {
            lemma_squeeze_one_block(old(self).spec_permutation(), old(self).spec_state());
        }
        output
    }

    /// Sets every trit of the state back to 0; the round count stays.
    pub fn reset(&mut self)
        ensures
            final(self).wf(),
            final(self).spec_rounds() == old(self).spec_rounds(),
            final(self).spec_state() == zero_state(),
    {
        self.state = [0; STATE_LENGTH];
        assert(self.state@ =~= zero_state());
    }

    /// Absorbs `input`, then squeezes one block of 243 trits.
    pub fn digest(&mut self, input: &[Trit]) -> (r: [Trit; HASH_LENGTH])
        requires
            old(self).wf(),
            all_trits(input@),
        ensures
            final(self).wf(),
            final(self).spec_rounds() == old(self).spec_rounds(),
            r@ == absorb_all(old(self).spec_permutation(), old(self).spec_state(), input@).take(243),
            final(self).spec_state() == old(self).spec_permutation()(
                absorb_all(old(self).spec_permutation(), old(self).spec_state(), input@),
            ),
    {
        self.absorb(input);
        self.squeeze()
    }

    /// Absorbs `input`, then squeezes `output.len()` trits into `output`.
    pub fn digest_into(&mut self, input: &[Trit], output: &mut [Trit])
        requires
            old(self).wf(),
            all_trits(input@),
        ensures
            final(self).wf(),
            final(self).spec_rounds() == old(self).spec_rounds(),
            final(output)@ == squeeze_output(
                old(self).spec_permutation(),
                absorb_all(old(self).spec_permutation(), old(self).spec_state(), input@),
                old(output)@.len(),
            ),
            final(self).spec_state() == squeeze_state(
                old(self).spec_permutation(),
                absorb_all(old(self).spec_permutation(), old(self).spec_state(), input@),
                old(output)@.len(),
            ),
    {
        self.absorb(input);
        self.squeeze_into(output);
    }

    /// A sponge with `rounds` rounds per permutation and a zero state.
    pub fn new(rounds: usize) -> (r: Curl)
        ensures
            r.wf(),
            r.spec_rounds() == rounds,
            r.spec_state() == zero_state(),
    {
        let mut curl = Curl::default();
        curl.rounds = rounds;
        curl
    }

    /// The current state, read only.
    pub fn state(&self) -> (r: &[Trit])
        ensures
            r@ == self.spec_state(),
    {
        self.state.as_slice()
    }

    /// Absorbs `trits` chunk by chunk, permuting after each chunk.
    pub fn absorb(&mut self, trits: &[Trit])
        requires
            old(self).wf(),
            all_trits(trits@),
        ensures
            final(self).wf(),
            final(self).spec_rounds() == old(self).spec_rounds(),
            final(self).spec_state() == absorb_all(
                old(self).spec_permutation(),
                old(self).spec_state(),
                trits@,
            ),
    {
        proof {
            self.lemma_view();
        }
        let len = trits.len();
        let ghost f = self.spec_permutation();
        let ghost s0 = self.state@;
        let ghost mut k: nat = 0;
        let mut pos: usize = 0;
        while pos < len
            invariant
                len == trits@.len(),
                all_trits(trits@),
                pos <= len,
                pos < len ==> pos == 243 * k,
                pos == len ==> k == chunk_count(len as int),
                f == permutation(self.rounds as nat),
                self.rounds == old(self).rounds,
                self.state@.len() == 729,
                all_trits(self.state@),
                self.state@ == absorb_chunks(f, s0, trits@, k),
            decreases len - pos,
        {
            let end: usize = if len - pos >= HASH_LENGTH {
                pos + HASH_LENGTH
            } else {
                len
            };
            let ghost before = self.state@;
            let mut j: usize = 0;
            while j < end - pos
                invariant
                    pos <= end <= len,
                    pos == 243 * k,
                    end == if pos + 243 <= len { pos + 243 } else { len as int },
                    self.rounds == old(self).rounds,
                    j <= end - pos,
                    len == trits@.len(),
                    all_trits(trits@),
                    end - pos <= 243,
                    self.state@.len() == 729,
                    forall|t: int| 0 <= t < j ==> self.state@[t] == trits@[pos + t],
                    forall|t: int| j <= t < 729 ==> self.state@[t] == before[t],
                    before.len() == 729,
                    all_trits(before),
                decreases end - pos - j,
            {
                self.state[j] = trits[pos + j];
                j += 1;
            }
            proof {
                assert(self.state@ =~= overwrite(before, chunk(trits@, k as int)));
            }
            transform(&mut self.state, self.rounds);
            proof {
                if end == len {
                    assert(243 * k < len <= 243 * k + 243);
                    assert((len + 242) / 243 == k + 1);
                }
                k = k + 1;
            }
            pos = end;
        }
    }
}

} // verus!
