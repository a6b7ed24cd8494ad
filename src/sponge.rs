//! The sponge protocol as mathematics: how absorbing and squeezing act on a
//! state, for any item type and any permutation of the state.
use vstd::prelude::*;

verus! {

/// The state with its first `c.len()` items replaced by `c`.
pub open spec fn overwrite<T>(s: Seq<T>, c: Seq<T>) -> Seq<T> {
    c + s.skip(c.len() as int)
}

/// `f` applied `n` times to `s`.
pub open spec fn iterate<T>(f: spec_fn(Seq<T>) -> Seq<T>, s: Seq<T>, n: nat) -> Seq<T>
    decreases n,
{
    if n == 0 {
        s
    } else {
        f(iterate(f, s, (n - 1) as nat))
    }
}

/// Number of chunks of at most `243` items that an input of `len` items
/// is cut into.
pub open spec fn chunk_count(len: int) -> int {
    (len + 242) / 243
}

/// The `j`-th chunk of `input`; only the last one may be short.
pub open spec fn chunk<T>(input: Seq<T>, j: int) -> Seq<T> {
    input.subrange(243 * j, if 243 * j + 243 <= input.len() {
        243 * j + 243
    } else {
        input.len() as int
    })
}

/// The state after the first `k` chunks of `input` have been absorbed into `s`.
pub open spec fn absorb_chunks<T>(
    f: spec_fn(Seq<T>) -> Seq<T>,
    s: Seq<T>,
    input: Seq<T>,
    k: nat,
) -> Seq<T>
    decreases k,
{
    if k == 0 {
        s
    } else {
        f(overwrite(absorb_chunks(f, s, input, (k - 1) as nat), chunk(input, k - 1)))
    }
}

/// The state after all of `input` has been absorbed into `s`.
pub open spec fn absorb_all<T>(f: spec_fn(Seq<T>) -> Seq<T>, s: Seq<T>, input: Seq<T>) -> Seq<T> {
    absorb_chunks(f, s, input, chunk_count(input.len() as int) as nat)
}

/// The first `q` full blocks squeezed out of `s`.
pub open spec fn squeeze_blocks<T>(f: spec_fn(Seq<T>) -> Seq<T>, s: Seq<T>, q: nat) -> Seq<T>
    decreases q,
{
    if q == 0 {
        Seq::empty()
    } else {
        squeeze_blocks(f, s, (q - 1) as nat) + iterate(f, s, (q - 1) as nat).take(243)
    }
}

/// The `n` items squeezed out of `s`. When `n` is not a multiple of the rate,
/// the short tail is taken from the state after one more permutation than
/// the full blocks used.
pub open spec fn squeeze_output<T>(f: spec_fn(Seq<T>) -> Seq<T>, s: Seq<T>, n: nat) -> Seq<T> {
    let q = n / 243;
    let r = n % 243;
    if r == 0 {
        squeeze_blocks(f, s, q)
    } else {
        squeeze_blocks(f, s, q) + iterate(f, s, q + 1).take(r as int)
    }
}

/// The state after `n` items were squeezed out of `s`. A short tail costs
/// two permutations.
pub open spec fn squeeze_state<T>(f: spec_fn(Seq<T>) -> Seq<T>, s: Seq<T>, n: nat) -> Seq<T> {
    let q = n / 243;
    if n % 243 == 0 {
        iterate(f, s, q)
    } else {
        iterate(f, s, q + 2)
    }
}

/// Squeezing one block returns the state's first block and permutes once.
pub proof fn lemma_squeeze_one_block<T>(f: spec_fn(Seq<T>) -> Seq<T>, s: Seq<T>)
    ensures
        squeeze_output(f, s, 243) == s.take(243),
        squeeze_state(f, s, 243) == f(s),
{
    assert(iterate(f, s, 0) == s);
    assert(squeeze_blocks(f, s, 0) == Seq::<T>::empty());
    assert(squeeze_blocks(f, s, 1) =~= s.take(243));
    assert(squeeze_output(f, s, 243) == squeeze_blocks(f, s, 1));
    assert(iterate(f, s, 1) == f(s));
}

} // verus!
