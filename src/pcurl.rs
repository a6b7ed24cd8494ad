//! The bit-sliced sponge: each state cell packs eight lanes, and one
//! permutation advances eight independent scalar sponges at once.
use vstd::prelude::*;

use crate::constants::{truth_table, Ptrit, Trit, HASH_LENGTH, STATE_LENGTH};
use crate::curl::{lemma_rot_step, permutation, permute, rot, round, zero_state};
use crate::sponge::{
    absorb_all, absorb_chunks, chunk, chunk_count, iterate, overwrite, squeeze_blocks, squeeze_output,
    squeeze_state, lemma_squeeze_one_block,
};

verus! {

/// The packed substitution: eight independent table lookups done with
/// boolean operations on whole words.
pub open spec fn cell(a: Ptrit, b: Ptrit) -> Ptrit {
    let delta = (a.0 | !b.1) & (b.0 ^ a.1);
    Ptrit(!delta, (a.0 ^ b.1) | delta)
}

/// One round of the packed permutation.
pub open spec fn pround(s: Seq<Ptrit>) -> Seq<Ptrit> {
    Seq::new(729, |i: int| cell(s[rot(i)], s[rot(i + 1)]))
}

/// `n` rounds of the packed permutation.
pub open spec fn ppermute(s: Seq<Ptrit>, n: nat) -> Seq<Ptrit>
    decreases n,
{
    if n == 0 {
        s
    } else {
        pround(ppermute(s, (n - 1) as nat))
    }
}

/// The permutation a packed sponge with `rounds` rounds applies between chunks.
pub open spec fn ppermutation(rounds: nat) -> spec_fn(Seq<Ptrit>) -> Seq<Ptrit> {
    |s: Seq<Ptrit>| ppermute(s, rounds)
}

/// The packed state whose every lane is the zero state.
pub open spec fn zero_pstate() -> Seq<Ptrit> {
    Seq::new(729, |i: int| Ptrit(255, 255))
}

/// Bit `k` of `x` is set.
pub open spec fn bit(x: u8, k: u8) -> bool {
    (x >> k) & 1u8 == 1u8
}

/// Lane `k` of `p` holds a trit: the encoding (0, 0) is invalid.
pub open spec fn lane_valid(p: Ptrit, k: u8) -> bool {
    bit(p.0, k) || bit(p.1, k)
}

/// The trit in lane `k` of `p`.
pub open spec fn lane_trit(p: Ptrit, k: u8) -> Trit {
    if bit(p.0, k) && bit(p.1, k) {
        0i8
    } else if bit(p.0, k) {
        -1i8
    } else if bit(p.1, k) {
        1i8
    } else {
        0i8
    }
}

/// The trit sequence in lane `k` of the packed sequence `s`.
pub open spec fn lane(s: Seq<Ptrit>, k: u8) -> Seq<Trit> {
    Seq::new(s.len(), |i: int| lane_trit(s[i], k))
}

/// Every cell of `s` holds a trit in lane `k`.
pub open spec fn lane_ok(s: Seq<Ptrit>, k: u8) -> bool {
    forall|i: int| 0 <= i < s.len() ==> lane_valid(#[trigger] s[i], k)
}

proof fn lemma_cell_bits(a0: u8, a1: u8, b0: u8, b1: u8, k: u8)
    requires
        k < 8,
    ensures
        ((!((a0 | !b1) & (b0 ^ a1)) >> k) & 1u8 == 1u8) == !((((a0 >> k) & 1u8 == 1u8) || !((b1
            >> k) & 1u8 == 1u8)) && (((b0 >> k) & 1u8 == 1u8) != ((a1 >> k) & 1u8 == 1u8))),
        ((((a0 ^ b1) | ((a0 | !b1) & (b0 ^ a1))) >> k) & 1u8 == 1u8) == ((((a0 >> k) & 1u8
            == 1u8) != ((b1 >> k) & 1u8 == 1u8)) || ((((a0 >> k) & 1u8 == 1u8) || !((b1 >> k)
            & 1u8 == 1u8)) && (((b0 >> k) & 1u8 == 1u8) != ((a1 >> k) & 1u8 == 1u8)))),
        (255u8 >> k) & 1u8 == 1u8,
{
    assert(((!((a0 | !b1) & (b0 ^ a1)) >> k) & 1u8 == 1u8) == !((((a0 >> k) & 1u8 == 1u8) || !((b1
                >> k) & 1u8 == 1u8)) && (((b0 >> k) & 1u8 == 1u8) != ((a1 >> k) & 1u8 == 1u8)))) by (bit_vector)
        requires
            k < 8,
    ;
    assert(((((a0 ^ b1) | ((a0 | !b1) & (b0 ^ a1))) >> k) & 1u8 == 1u8) == ((((a0 >> k) & 1u8
                == 1u8) != ((b1 >> k) & 1u8 == 1u8)) || ((((a0 >> k) & 1u8 == 1u8) || !((b1 >> k)
                & 1u8 == 1u8)) && (((b0 >> k) & 1u8 == 1u8) != ((a1 >> k) & 1u8 == 1u8))))) by (bit_vector)
        requires
            k < 8,
    ;
    assert((255u8 >> k) & 1u8 == 1u8) by (bit_vector)
        requires
            k < 8,
    ;
}

/// In every lane, the packed substitution is the table lookup of the two
/// lanes' trits, and its result is a valid trit whatever the inputs were.
pub proof fn lemma_cell_lane(a: Ptrit, b: Ptrit, k: u8)
    requires
        k < 8,
    ensures
        lane_valid(cell(a, b), k),
        lane_valid(a, k) && lane_valid(b, k) ==> lane_trit(cell(a, b), k) == truth_table()[lane_trit(
            a,
            k,
        ) + 4 * lane_trit(b, k) + 5],
{
    lemma_cell_bits(a.0, a.1, b.0, b.1, k);
}

proof fn lemma_round_lane(s: Seq<Ptrit>, k: u8)
    requires
        k < 8,
        s.len() == 729,
        lane_ok(s, k),
    ensures
        lane(pround(s), k) == round(lane(s, k)),
        lane_ok(pround(s), k),
{
    assert forall|i: int| 0 <= i < 729 implies lane_valid(#[trigger] pround(s)[i], k)
        && lane(pround(s), k)[i] == round(lane(s, k))[i] by {
        lemma_rot_step(i);
        lemma_rot_step(i + 1);
        lemma_cell_lane(s[rot(i)], s[rot(i + 1)], k);
    }
    assert(lane(pround(s), k) =~= round(lane(s, k)));
}

proof fn lemma_permute_lane(s: Seq<Ptrit>, n: nat, k: u8)
    requires
        k < 8,
        s.len() == 729,
        lane_ok(s, k),
    ensures
        lane(ppermute(s, n), k) == permute(lane(s, k), n),
        lane_ok(ppermute(s, n), k),
        ppermute(s, n).len() == 729,
    decreases n,
{
    if n > 0 {
        lemma_permute_lane(s, (n - 1) as nat, k);
        lemma_round_lane(ppermute(s, (n - 1) as nat), k);
    }
}

proof fn lemma_iterate_lane(rounds: nat, s: Seq<Ptrit>, n: nat, k: u8)
    requires
        k < 8,
        s.len() == 729,
        lane_ok(s, k),
    ensures
        lane(iterate(ppermutation(rounds), s, n), k) == iterate(permutation(rounds), lane(s, k), n),
        lane_ok(iterate(ppermutation(rounds), s, n), k),
        iterate(ppermutation(rounds), s, n).len() == 729,
    decreases n,
{
    if n > 0 {
        let prev = iterate(ppermutation(rounds), s, (n - 1) as nat);
        lemma_iterate_lane(rounds, s, (n - 1) as nat, k);
        lemma_permute_lane(prev, rounds, k);
    }
}

proof fn lemma_absorb_lane(rounds: nat, s: Seq<Ptrit>, input: Seq<Ptrit>, m: nat, k: u8)
    requires
        k < 8,
        s.len() == 729,
        lane_ok(s, k),
        lane_ok(input, k),
        m <= chunk_count(input.len() as int),
    ensures
        lane(absorb_chunks(ppermutation(rounds), s, input, m), k) == absorb_chunks(
            permutation(rounds),
            lane(s, k),
            lane(input, k),
            m,
        ),
        lane_ok(absorb_chunks(ppermutation(rounds), s, input, m), k),
        absorb_chunks(ppermutation(rounds), s, input, m).len() == 729,
    decreases m,
{
    if m > 0 {
        let pf = ppermutation(rounds);
        let prev = absorb_chunks(pf, s, input, (m - 1) as nat);
        lemma_absorb_lane(rounds, s, input, (m - 1) as nat, k);
        let c = chunk(input, m - 1);
        assert(c.len() <= 243);
        let w = overwrite(prev, c);
        assert(lane(chunk(input, m - 1), k) =~= chunk(lane(input, k), m - 1));
        assert(lane(w, k) =~= overwrite(lane(prev, k), lane(c, k)));
        assert(lane_ok(w, k)) by {
            assert forall|i: int| 0 <= i < w.len() implies lane_valid(#[trigger] w[i], k) by {
                if i < c.len() {
                    assert(w[i] == input[243 * (m - 1) + i]);
                } else {
                    assert(w[i] == prev[i]);
                }
            }
        }
        lemma_permute_lane(w, rounds, k);
    }
}

proof fn lemma_squeeze_blocks_lane(rounds: nat, s: Seq<Ptrit>, q: nat, k: u8)
    requires
        k < 8,
        s.len() == 729,
        lane_ok(s, k),
    ensures
        lane(squeeze_blocks(ppermutation(rounds), s, q), k) == squeeze_blocks(
            permutation(rounds),
            lane(s, k),
            q,
        ),
    decreases q,
{
    if q > 0 {
        lemma_squeeze_blocks_lane(rounds, s, (q - 1) as nat, k);
        lemma_iterate_lane(rounds, s, (q - 1) as nat, k);
        let blocks = squeeze_blocks(ppermutation(rounds), s, (q - 1) as nat);
        let t = iterate(ppermutation(rounds), s, (q - 1) as nat);
        assert(lane(blocks + t.take(243), k) =~= lane(blocks, k) + lane(t, k).take(243));
    } else {
        assert(lane(Seq::<Ptrit>::empty(), k) =~= Seq::<Trit>::empty());
    }
}

proof fn lemma_squeeze_lane(rounds: nat, s: Seq<Ptrit>, n: nat, k: u8)
    requires
        k < 8,
        s.len() == 729,
        lane_ok(s, k),
    ensures
        lane(squeeze_output(ppermutation(rounds), s, n), k) == squeeze_output(
            permutation(rounds),
            lane(s, k),
            n,
        ),
{
    let q = n / 243;
    let r = n % 243;
    lemma_squeeze_blocks_lane(rounds, s, q, k);
    if r != 0 {
        lemma_iterate_lane(rounds, s, q + 1, k);
        let blocks = squeeze_blocks(ppermutation(rounds), s, q);
        let t = iterate(ppermutation(rounds), s, q + 1);
        assert(lane(blocks + t.take(r as int), k) =~= lane(blocks, k) + lane(t, k).take(r as int));
    }
}

/// The zero packed state is the zero trit state in every lane.
proof fn lemma_zero_lane(k: u8)
    requires
        k < 8,
    ensures
        lane(zero_pstate(), k) == zero_state(),
        lane_ok(zero_pstate(), k),
{
    lemma_cell_bits(0, 0, 0, 0, k);
    assert(lane(zero_pstate(), k) =~= zero_state());
}

/// Lane `k` of what a fresh packed sponge with `rounds` rounds returns from
/// `digest_into` on `input`, for an output of `n` cells, is what a fresh
/// trit sponge with the same round count returns for lane `k` of `input`,
/// provided every cell of `input` holds a trit in that lane.
pub proof fn lemma_lane_digest_into(rounds: nat, input: Seq<Ptrit>, n: nat, k: u8)
    requires
        k < 8,
        lane_ok(input, k),
    ensures
        lane(
            squeeze_output(
                ppermutation(rounds),
                absorb_all(ppermutation(rounds), zero_pstate(), input),
                n,
            ),
            k,
        ) == squeeze_output(
            permutation(rounds),
            absorb_all(permutation(rounds), zero_state(), lane(input, k)),
            n,
        ),
{
    lemma_zero_lane(k);
    let m = chunk_count(input.len() as int) as nat;
    lemma_absorb_lane(rounds, zero_pstate(), input, m, k);
    lemma_squeeze_lane(rounds, absorb_all(ppermutation(rounds), zero_pstate(), input), n, k);
}

/// Lane `k` of the packed digest of `input` is the trit digest of lane `k`
/// of `input`, with the same round count, provided every cell of `input`
/// holds a trit in that lane.
pub proof fn lemma_lane_digest(rounds: nat, input: Seq<Ptrit>, k: u8)
    requires
        k < 8,
        lane_ok(input, k),
    ensures
        lane(absorb_all(ppermutation(rounds), zero_pstate(), input).take(243), k) == absorb_all(
            permutation(rounds),
            zero_state(),
            lane(input, k),
        ).take(243),
{
    lemma_zero_lane(k);
    let m = chunk_count(input.len() as int) as nat;
    lemma_absorb_lane(rounds, zero_pstate(), input, m, k);
    let a = absorb_all(ppermutation(rounds), zero_pstate(), input);
    assert(lane(a.take(243), k) =~= lane(a, k).take(243));
}

/// Copies the first `len` cells of `src` into `out` from position `start` on.
fn copy_block(out: &mut [Ptrit], start: usize, src: &[Ptrit; STATE_LENGTH], len: usize)
    requires
        start + len <= old(out)@.len(),
        len <= 729,
    ensures
        final(out)@ == old(out)@.subrange(0, start as int) + src@.take(len as int) + old(out)@.skip(
            start + len,
        ),
{
    let n = out.len();
    let mut j: usize = 0;
    while j < len
        invariant
            j <= len <= 729,
            n == out@.len(),
            start + len <= out@.len(),
            out@.len() == old(out)@.len(),
            forall|t: int| 0 <= t < start ==> out@[t] == old(out)@[t],
            forall|t: int| 0 <= t < j ==> out@[start + t] == src@[t],
            forall|t: int| start + j <= t < out@.len() ==> out@[t] == old(out)@[t],
        decreases len - j,
    {
        out[start + j] = src[j];
        j += 1;
    }
    assert(out@ =~= old(out)@.subrange(0, start as int) + src@.take(len as int) + old(out)@.skip(
        start + len,
    ));
}

/// A bit-sliced sponge: eight trit sponges side by side, with a round count
/// fixed at construction.
#[derive(Clone, Copy, Debug)]
pub struct Curl {
    rounds: usize,
    state: [Ptrit; STATE_LENGTH],
}

impl Default for Curl {
    /// A sponge with 81 rounds whose every lane is zero.
    fn default() -> (r: Curl)
        ensures
            r.wf(),
            r.spec_rounds() == 81,
            r.spec_state() == zero_pstate(),
    {
        let c = Curl { rounds: 81, state: [Ptrit(255, 255); STATE_LENGTH] };
        proof {
            assert(c.state@ =~= zero_pstate());
        }
        c
    }
}

impl Curl {
    pub closed spec fn spec_rounds(&self) -> nat {
        self.rounds as nat
    }

    /// The 729 packed cells of the state.
    pub closed spec fn spec_state(&self) -> Seq<Ptrit> {
        self.state@
    }

    pub open spec fn wf(&self) -> bool {
        self.spec_state().len() == 729
    }

    /// The permutation this sponge applies between chunks.
    pub open spec fn spec_permutation(&self) -> spec_fn(Seq<Ptrit>) -> Seq<Ptrit> {
        ppermutation(self.spec_rounds())
    }

    proof fn lemma_view(&self)
        ensures
            self.spec_state() == self.state@,
            self.state@.len() == 729,
            self.spec_rounds() == self.rounds,
    {
    }

    /// Applies the round count's worth of packed rounds to the state. Each
    /// round reads only the state the previous round left.
    fn transform(&mut self)
        requires
            old(self).wf(),
        ensures
            final(self).wf(),
            final(self).rounds == old(self).rounds,
            final(self).state@ == ppermute(old(self).state@, old(self).rounds as nat),
    {
        proof {
            self.lemma_view();
        }
        let mut r: usize = 0;
        while r < self.rounds
            invariant
                r <= self.rounds,
                self.rounds == old(self).rounds,
                self.state@ == ppermute(old(self).state@, r as nat),
                self.state@.len() == 729,
            decreases self.rounds - r,
        {
            let prev: [Ptrit; STATE_LENGTH] = self.state;
            let mut cursor: usize = 0;
            let mut i: usize = 0;
            while i < STATE_LENGTH
                invariant
                    i <= 729,
                    cursor == rot(i as int),
                    prev@.len() == 729,
                    self.state@.len() == 729,
                    self.rounds == old(self).rounds,
                    r < self.rounds,
                    forall|j: int| 0 <= j < i ==> self.state@[j] == #[trigger] pround(prev@)[j],
                decreases 729 - i,
            {
                proof {
                    lemma_rot_step(i as int);
                }
                let next: usize = if cursor < 365 {
                    cursor + 364
                } else {
                    cursor - 365
                };
                let a = prev[cursor];
                let b = prev[next];
                let delta: u8 = (a.0 | !b.1) & (b.0 ^ a.1);
                self.state[i] = Ptrit(!delta, (a.0 ^ b.1) | delta);
                cursor = next;
                i += 1;
            }
            proof {
                assert(self.state@ =~= pround(prev@));
            }
            r += 1;
        }
    }

    /// Squeezes `out.len()` items out of the sponge into `out`, a block of
    /// 243 per permutation. A short tail is copied once, the state permuted,
    /// and copied again from the new state, which is permuted once more.
    pub fn squeeze_into(&mut self, out: &mut [Ptrit])
        requires
            old(self).wf(),
        ensures
            final(self).wf(),
            final(self).spec_rounds() == old(self).spec_rounds(),
            final(out)@ == squeeze_output(
                old(self).spec_permutation(),
                old(self).spec_state(),
                old(out)@.len(),
            ),
            final(self).spec_state() == squeeze_state(
                old(self).spec_permutation(),
                old(self).spec_state(),
                old(out)@.len(),
            ),
    {
        proof {
            self.lemma_view();
        }
        let ghost f = self.spec_permutation();
        let ghost s0 = self.state@;
        let n = out.len();
        let q = n / HASH_LENGTH;
        let mut k: usize = 0;
        while k < q
            invariant
                k <= q,
                q == n / 243,
                n == out@.len(),
                f == ppermutation(self.rounds as nat),
                self.rounds == old(self).rounds,
                self.state@.len() == 729,
                self.state@ == iterate(f, s0, k as nat),
                out@.subrange(0, 243 * k) == squeeze_blocks(f, s0, k as nat),
            decreases q - k,
        {
            let ghost prev = out@;
            copy_block(out, k * HASH_LENGTH, &self.state, HASH_LENGTH);
            proof {
                assert(out@.subrange(0, 243 * k) =~= prev.subrange(0, 243 * k));
                assert(out@.subrange(0, 243 * (k + 1)) =~= squeeze_blocks(f, s0, (k + 1) as nat));
            }
            self.transform();
            k += 1;
        }
        let last = n - q * HASH_LENGTH;
        let ghost blocks = out@.subrange(0, 243 * q);
        if last != 0 {
            copy_block(out, q * HASH_LENGTH, &self.state, last);
            self.transform();
        }
        let ghost prev = out@;
        copy_block(out, n - last, &self.state, last);
        proof {
            assert(prev.subrange(0, 243 * q) =~= blocks);
            if last == 0 {
                assert(out@ =~= blocks);
            } else {
                assert(out@ =~= blocks + iterate(f, s0, (q + 1) as nat).take(last as int));
            }
        }
        if n % HASH_LENGTH != 0 {
            self.transform();
        }
    }

    /// Squeezes one block of 243 items: the current state's first 243 items.
    pub fn squeeze(&mut self) -> (r: [Ptrit; HASH_LENGTH])
        requires
            old(self).wf(),
        ensures
            final(self).wf(),
            final(self).spec_rounds() == old(self).spec_rounds(),
            r@ == squeeze_output(old(self).spec_permutation(), old(self).spec_state(), 243),
            r@ == old(self).spec_state().take(243),
            final(self).spec_state() == old(self).spec_permutation()(old(self).spec_state()),
    {
        let mut output: [Ptrit; HASH_LENGTH] = [Ptrit(255, 255); HASH_LENGTH];
        self.squeeze_into(&mut output);
        proof {
            lemma_squeeze_one_block(old(self).spec_permutation(), old(self).spec_state());
        }
        output
    }

    /// Sets every lane of every cell back to the trit 0; the round count stays.
    pub fn reset(&mut self)
        ensures
            final(self).wf(),
            final(self).spec_rounds() == old(self).spec_rounds(),
            final(self).spec_state() == zero_pstate(),
    {
        self.state = [Ptrit(255, 255); STATE_LENGTH];
        assert(self.state@ =~= zero_pstate());
    }

    /// Absorbs `input`, then squeezes one block of 243 items.
    pub fn digest(&mut self, input: &[Ptrit]) -> (r: [Ptrit; HASH_LENGTH])
        requires
            old(self).wf(),
        ensures
            final(self).wf(),
            final(self).spec_rounds() == old(self).spec_rounds(),
            r@ == absorb_all(old(self).spec_permutation(), old(self).spec_state(), input@).take(243),
            final(self).spec_state() == old(self).spec_permutation()(
                absorb_all(old(self).spec_permutation(), old(self).spec_state(), input@),
            ),
    {
        self.absorb(input);
        self.squeeze()
    }

    /// Absorbs `input`, then squeezes `output.len()` items into `output`.
    pub fn digest_into(&mut self, input: &[Ptrit], output: &mut [Ptrit])
        requires
            old(self).wf(),
        ensures
            final(self).wf(),
            final(self).spec_rounds() == old(self).spec_rounds(),
            final(output)@ == squeeze_output(
                old(self).spec_permutation(),
                absorb_all(old(self).spec_permutation(), old(self).spec_state(), input@),
                old(output)@.len(),
            ),
            final(self).spec_state() == squeeze_state(
                old(self).spec_permutation(),
                absorb_all(old(self).spec_permutation(), old(self).spec_state(), input@),
                old(output)@.len(),
            ),
    {
        self.absorb(input);
        self.squeeze_into(output);
    }

    /// A sponge with `rounds` rounds per permutation and a zero state.
    pub fn new(rounds: usize) -> (r: Curl)
        ensures
            r.wf(),
            r.spec_rounds() == rounds,
            r.spec_state() == zero_pstate(),
    {
        let mut curl = Curl::default();
        curl.rounds = rounds;
        curl
    }

    /// The current state, read only.
    pub fn state(&self) -> (r: &[Ptrit])
        ensures
            r@ == self.spec_state(),
    {
        self.state.as_slice()
    }

    /// Absorbs `items` chunk by chunk, permuting after each chunk.
    pub fn absorb(&mut self, items: &[Ptrit])
        requires
            old(self).wf(),
        ensures
            final(self).wf(),
            final(self).spec_rounds() == old(self).spec_rounds(),
            final(self).spec_state() == absorb_all(
                old(self).spec_permutation(),
                old(self).spec_state(),
                items@,
            ),
    {
        proof {
            self.lemma_view();
        }
        let len = items.len();
        let ghost f = self.spec_permutation();
        let ghost s0 = self.state@;
        let ghost mut k: nat = 0;
        let mut pos: usize = 0;
        while pos < len
            invariant
                len == items@.len(),
                pos <= len,
                pos < len ==> pos == 243 * k,
                pos == len ==> k == chunk_count(len as int),
                f == ppermutation(self.rounds as nat),
                self.rounds == old(self).rounds,
                self.state@.len() == 729,
                self.state@ == absorb_chunks(f, s0, items@, k),
            decreases len - pos,
        {
            let end: usize = if len - pos >= HASH_LENGTH {
                pos + HASH_LENGTH
            } else {
                len
            };
            let ghost before = self.state@;
            let mut j: usize = 0;
            while j < end - pos
                invariant
                    pos <= end <= len,
                    pos == 243 * k,
                    end == if pos + 243 <= len { pos + 243 } else { len as int },
                    self.rounds == old(self).rounds,
                    j <= end - pos,
                    len == items@.len(),
                    end - pos <= 243,
                    self.state@.len() == 729,
                    forall|t: int| 0 <= t < j ==> self.state@[t] == items@[pos + t],
                    forall|t: int| j <= t < 729 ==> self.state@[t] == before[t],
                    before.len() == 729,
                decreases end - pos - j,
            {
                self.state[j] = items[pos + j];
                j += 1;
            }
            proof {
                assert(self.state@ =~= overwrite(before, chunk(items@, k as int)));
            }
            self.transform();
            proof {
                if end == len {
                    assert(243 * k < len <= 243 * k + 243);
                    assert((len + 242) / 243 == k + 1);
                }
                k = k + 1;
            }
            pos = end;
        }
    }
}

} // verus!
