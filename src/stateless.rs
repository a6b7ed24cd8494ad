//! A one-shot digest that needs no sponge object.
use vstd::prelude::*;

use crate::constants::{Trit, HASH_LENGTH, STATE_LENGTH};
use crate::curl::{all_trits, permutation, permute, transform, zero_state};
use crate::sponge::{absorb_all, absorb_chunks, chunk, chunk_count, overwrite};

verus! {

/// The state after `input` has been absorbed into `s` with `rounds` rounds
/// per permutation: the first chunk of at most 243 trits goes in, the state
/// is permuted, and the rest of the input follows.
pub open spec fn absorb_from_front(rounds: nat, s: Seq<Trit>, input: Seq<Trit>) -> Seq<Trit>
    decreases input.len(),
{
    if input.len() == 0 {
        s
    } else {
        let n = if input.len() < 243 {
            input.len() as int
        } else {
            243
        };
        absorb_from_front(rounds, permute(overwrite(s, input.take(n)), rounds), input.skip(n))
    }
}

/// Absorbing `k + 1` chunks is absorbing the first chunk, then `k` chunks of
/// what follows it.
proof fn lemma_absorb_shift(
    f: spec_fn(Seq<Trit>) -> Seq<Trit>,
    s: Seq<Trit>,
    input: Seq<Trit>,
    k: nat,
)
    requires
        input.len() > 243,
        243 * k < input.len(),
    ensures
        absorb_chunks(f, s, input, k + 1) == absorb_chunks(
            f,
            f(overwrite(s, chunk(input, 0))),
            input.skip(243),
            k,
        ),
    decreases k,
{
    let s1 = f(overwrite(s, chunk(input, 0)));
    let rest = input.skip(243);
    assert(absorb_chunks(f, s, input, 0) == s);
    if k == 0 {
        assert(absorb_chunks(f, s1, rest, 0) == s1);
    } else {
        lemma_absorb_shift(f, s, input, (k - 1) as nat);
        assert(chunk(input, k as int) =~= chunk(rest, k - 1));
        assert(absorb_chunks(f, s, input, k + 1) == f(
            overwrite(absorb_chunks(f, s, input, k), chunk(input, k as int)),
        ));
        assert(absorb_chunks(f, s1, rest, k) == f(
            overwrite(absorb_chunks(f, s1, rest, (k - 1) as nat), chunk(rest, k - 1)),
        ));
    }
}

/// Absorbing from the front agrees with absorbing chunk by chunk.
proof fn lemma_front_is_chunked(rounds: nat, s: Seq<Trit>, input: Seq<Trit>)
    ensures
        absorb_from_front(rounds, s, input) == absorb_all(permutation(rounds), s, input),
    decreases input.len(),
{
    let f = permutation(rounds);
    let len = input.len() as int;
    if len == 0 {
    } else if len <= 243 {
        assert(chunk_count(len) == 1);
        assert(chunk(input, 0) =~= input.take(len));
        assert(input.skip(len) =~= Seq::<Trit>::empty());
        assert(absorb_chunks(f, s, input, 0) == s);
        assert(f(overwrite(s, chunk(input, 0))) == permute(overwrite(s, input.take(len)), rounds));
        assert(absorb_chunks(f, s, input, 1) == f(overwrite(s, chunk(input, 0))));
        let s1 = permute(overwrite(s, input.take(len)), rounds);
        assert(absorb_from_front(rounds, s1, input.skip(len)) == s1);
    } else {
        let rest = input.skip(243);
        let s1 = permute(overwrite(s, input.take(243)), rounds);
        lemma_front_is_chunked(rounds, s1, rest);
        assert(chunk(input, 0) =~= input.take(243));
        assert(chunk_count(len) == chunk_count(len - 243) + 1);
        let k = chunk_count(len - 243) as nat;
        assert(243 * k < len);
        lemma_absorb_shift(f, s, input, k);
        assert(f(overwrite(s, chunk(input, 0))) == s1);
        assert(absorb_from_front(rounds, s, input) == absorb_from_front(rounds, s1, rest));
    }
}

/// The one-shot digest of `input` equals the digest that a fresh sponge
/// with the same round count returns for `input`: both are the first 243
/// trits of the state left after absorbing `input` into a zero state.
pub proof fn lemma_stateless_matches_sponge(input: Seq<Trit>, rounds: nat)
    ensures
        absorb_from_front(rounds, zero_state(), input).take(243) == absorb_all(
            permutation(rounds),
            zero_state(),
            input,
        ).take(243),
{
    lemma_front_is_chunked(rounds, zero_state(), input);
}

/// Hashes `trits` with `num_rounds` rounds per permutation, starting from a
/// zero state, and returns the first 243 trits of the final state.
pub fn digest(trits: &[Trit], num_rounds: usize) -> (r: [Trit; HASH_LENGTH])
    requires
        all_trits(trits@),
    ensures
        r@ == absorb_from_front(num_rounds as nat, zero_state(), trits@).take(243),
{
    let mut state: [Trit; STATE_LENGTH] = [0; STATE_LENGTH];
    assert(state@ =~= zero_state());
    assert(trits@.skip(0) =~= trits@);
    let len = trits.len();
    let mut pos: usize = 0;
    while pos < len
        invariant
            pos <= len,
            len == trits@.len(),
            all_trits(trits@),
            state@.len() == 729,
            all_trits(state@),
            absorb_from_front(num_rounds as nat, zero_state(), trits@) == absorb_from_front(
                num_rounds as nat,
                state@,
                trits@.skip(pos as int),
            ),
        decreases len - pos,
    {
        let n: usize = if len - pos < HASH_LENGTH {
            len - pos
        } else {
            HASH_LENGTH
        };
        let ghost before = state@;
        let mut j: usize = 0;
        while j < n
            invariant
                j <= n <= 243,
                pos + n <= len,
                len == trits@.len(),
                all_trits(trits@),
                state@.len() == 729,
                before.len() == 729,
                all_trits(before),
                forall|t: int| 0 <= t < j ==> state@[t] == trits@[pos + t],
                forall|t: int| j <= t < 729 ==> state@[t] == before[t],
            decreases n - j,
        {
            state[j] = trits[pos + j];
            j += 1;
        }
        proof {
            let rest = trits@.skip(pos as int);
            assert(state@ =~= overwrite(before, rest.take(n as int)));
            assert(rest.skip(n as int) =~= trits@.skip(pos + n));
        }
        transform(&mut state, num_rounds);
        pos = pos + n;
    }
    assert(trits@.skip(len as int) =~= Seq::<Trit>::empty());
    let mut hash: [Trit; HASH_LENGTH] = [0; HASH_LENGTH];
    let mut i: usize = 0;
    while i < HASH_LENGTH
        invariant
            i <= 243,
            state@.len() == 729,
            forall|t: int| 0 <= t < i ==> hash@[t] == state@[t],
        decreases 243 - i,
    {
        hash[i] = state[i];
        i += 1;
    }
    assert(hash@ =~= state@.take(243));
    hash
}

} // verus!
