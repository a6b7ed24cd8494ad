use curl::curl::{transform, Curl};
use curl::stateless::digest;
use curl::{substitute, Trit, HASH_LENGTH, STATE_LENGTH, TRUTH_TABLE};

fn sample_input() -> Vec<Trit> {
    (0..500).map(|i: i32| ((i * 7) % 3 - 1) as Trit).collect()
}

const DIGEST_500: [Trit; 243] = [
        1, -1, -1, 0, 0, 0, -1, 0, -1, 0, -1, 0, 1, -1, 0, 0, 1, -1, -1, 0, 0, 0, 1, -1, 0, 1, -1,
        1, -1, -1, -1, 0, 1, -1, 0, 1, -1, -1, 0, -1, 1, -1, -1, -1, 1, 0, 1, -1, -1, 0, 0, 1, 1, 1,
        1, 0, -1, -1, -1, 1, 0, 0, -1, 0, 0, -1, -1, 1, 1, 0, 0, -1, 0, 1, 1, -1, -1, 0, 1, -1, 0,
        0, 1, 0, -1, -1, 1, 1, 0, -1, 0, 1, 1, 0, 0, -1, 0, -1, -1, 0, -1, -1, 1, 1, -1, 1, 0, 1,
        1, 0, -1, 0, 0, -1, 1, 1, 1, 0, 0, 1, -1, 0, 0, -1, -1, -1, 1, -1, 0, -1, 0, 0, 0, -1, -1,
        0, 0, 1, 0, 0, -1, 1, 1, 0, 0, 1, 1, -1, 1, -1, -1, 1, 1, -1, -1, 0, 1, 1, 0, -1, 0, 0,
        1, 0, 1, -1, 0, -1, -1, 0, 0, -1, 1, 1, -1, 1, -1, 1, 0, 1, 1, -1, 1, 1, -1, -1, 1, 0, 1,
        0, 1, 0, 1, -1, -1, 1, 1, 0, 0, 0, 1, -1, -1, 0, 0, 0, 1, 0, 0, 1, 0, -1, 1, -1, -1, 0,
        -1, 1, -1, 0, 1, 1, 1, 0, 1, -1, 1, -1, -1, 0, 0, 1, 1, 1, 1, 1, 0, -1, 1, -1, 0, 0, 0,
    ];

const SQUEEZE_300: [Trit; 300] = [
        1, -1, -1, 0, 0, 0, -1, 0, -1, 0, -1, 0, 1, -1, 0, 0, 1, -1, -1, 0, 0, 0, 1, -1, 0, 1, -1,
        1, -1, -1, -1, 0, 1, -1, 0, 1, -1, -1, 0, -1, 1, -1, -1, -1, 1, 0, 1, -1, -1, 0, 0, 1, 1, 1,
        1, 0, -1, -1, -1, 1, 0, 0, -1, 0, 0, -1, -1, 1, 1, 0, 0, -1, 0, 1, 1, -1, -1, 0, 1, -1, 0,
        0, 1, 0, -1, -1, 1, 1, 0, -1, 0, 1, 1, 0, 0, -1, 0, -1, -1, 0, -1, -1, 1, 1, -1, 1, 0, 1,
        1, 0, -1, 0, 0, -1, 1, 1, 1, 0, 0, 1, -1, 0, 0, -1, -1, -1, 1, -1, 0, -1, 0, 0, 0, -1, -1,
        0, 0, 1, 0, 0, -1, 1, 1, 0, 0, 1, 1, -1, 1, -1, -1, 1, 1, -1, -1, 0, 1, 1, 0, -1, 0, 0,
        1, 0, 1, -1, 0, -1, -1, 0, 0, -1, 1, 1, -1, 1, -1, 1, 0, 1, 1, -1, 1, 1, -1, -1, 1, 0, 1,
        0, 1, 0, 1, -1, -1, 1, 1, 0, 0, 0, 1, -1, -1, 0, 0, 0, 1, 0, 0, 1, 0, -1, 1, -1, -1, 0,
        -1, 1, -1, 0, 1, 1, 1, 0, 1, -1, 1, -1, -1, 0, 0, 1, 1, 1, 1, 1, 0, -1, 1, -1, 0, 0, 0,
        -1, 1, -1, -1, -1, -1, 1, 0, 1, 0, 1, -1, 0, 1, 0, 0, 1, 1, 1, 0, 0, -1, 1, 0, -1, 1, 1,
        0, 1, 1, 1, 0, 1, 0, 0, 1, -1, -1, -1, 1, 0, 0, 0, 1, 0, 0, 1, -1, -1, 0, -1, 1, 1, -1,
        0, 1, 1,
    ];

const DIGEST_486_ROUNDS_27: [Trit; 243] = [
        1, 0, 1, -1, 1, -1, -1, -1, -1, -1, 0, 1, -1, -1, -1, 1, 1, 1, 1, -1, 0, 1, -1, 1, 1, 0, 0,
        0, -1, 1, 0, -1, 0, 1, 1, -1, 0, -1, 0, 0, 1, -1, -1, -1, 1, 1, 0, -1, 1, 0, 1, 0, 0, 0,
        -1, -1, 0, 0, -1, -1, 0, 1, 1, -1, 0, 0, 0, 1, -1, -1, 1, 0, 1, 1, 0, 0, 0, -1, 1, -1, 1,
        -1, 0, -1, 1, -1, 0, -1, 0, -1, 0, -1, 1, 0, 0, 1, 1, -1, -1, -1, 0, 0, 1, 1, 1, 1, 0, -1,
        0, 0, 0, -1, 1, -1, 1, 1, 0, -1, -1, 0, -1, -1, -1, 0, 1, 1, -1, -1, 1, -1, 0, -1, -1, -1, -1,
        1, -1, 0, 1, -1, 0, 0, -1, -1, 0, 1, 1, 0, -1, 1, 0, -1, 0, 0, 1, -1, 0, 1, -1, 0, 0, -1,
        -1, 0, 1, -1, -1, 0, -1, 1, 1, -1, 1, 1, 1, -1, 1, 1, 1, -1, -1, -1, 1, -1, 0, 0, 0, 0, -1,
        -1, 0, -1, -1, 1, -1, 0, 1, 1, 0, 1, -1, 0, -1, 0, 0, 1, 1, 0, 1, 1, 1, 1, -1, 0, -1, 0,
        1, 1, -1, -1, 1, 0, -1, 0, 0, 0, -1, 0, -1, -1, 1, 0, -1, 1, 0, 0, 1, 1, 0, -1, 1, 0, 0,
    ];

#[test]
fn curl_digest() {
    let transaction = [0i8; 8019];
    let mut tx_hash1 = [0i8; 243];
    let mut curl = Curl::default();
    curl.digest_into(&transaction, &mut tx_hash1);
    curl.reset();
    let tx_hash2 = curl.digest(&transaction);

    for i in 0..243 {
        assert_eq!(tx_hash1[i], tx_hash2[i]);
    }
}

#[test]
fn curl_works() {
    let transaction = [0i8; 8019];
    let _output = digest(&transaction, 81);
}

#[test]
fn zero_transaction_digest_is_all_zero() {
    let transaction = [0i8; 8019];
    let mut curl = Curl::default();
    assert_eq!(curl.digest(&transaction), [0i8; 243]);
    assert_eq!(digest(&transaction, 81), [0i8; 243]);
}

#[test]
fn digest_of_known_input() {
    let input = sample_input();
    let mut curl = Curl::new(81);
    assert_eq!(curl.digest(&input), DIGEST_500);
    assert_eq!(digest(&input, 81), DIGEST_500);
}

#[test]
fn stateless_matches_sponge_on_two_full_chunks() {
    let input: Vec<Trit> = (0..486).map(|i: i32| ((i * i) % 3 - 1) as Trit).collect();
    let mut curl = Curl::new(27);
    let from_sponge = curl.digest(&input);
    let one_shot = digest(&input, 27);
    assert_eq!(from_sponge, one_shot);
    assert_eq!(one_shot, DIGEST_486_ROUNDS_27);
}

#[test]
fn stateless_matches_sponge_on_short_tail() {
    let input: Vec<Trit> = (0..250).map(|i: i32| ((i * 5 + 1) % 3 - 1) as Trit).collect();
    for rounds in [1usize, 2, 9, 81] {
        let mut curl = Curl::new(rounds);
        assert_eq!(curl.digest(&input), digest(&input, rounds));
    }
}

#[test]
fn digest_into_matches_digest_for_one_block() {
    let input = sample_input();
    let mut out = [0i8; 243];
    let mut a = Curl::default();
    a.digest_into(&input, &mut out);
    let mut b = Curl::default();
    assert_eq!(b.digest(&input), out);
    assert_eq!(a.state(), b.state());
}

#[test]
fn squeeze_longer_than_one_block() {
    let input = sample_input();
    let mut out = [0i8; 300];
    let mut curl = Curl::default();
    curl.digest_into(&input, &mut out);
    assert_eq!(out, SQUEEZE_300);
    let expected_state: [Trit; 20] = [-1, 0, -1, 1, 1, 1, 0, 1, 0, 1, 0, 0, 0, -1, 1, 0, 1, 0, 1, 1];
    assert_eq!(&curl.state()[..20], &expected_state[..]);
}

#[test]
fn squeeze_short_tail_is_taken_after_one_more_permutation() {
    // One round maps the zero state to all -1, and all -1 to all 1.
    let mut curl = Curl::new(1);
    let mut out = [0i8; 100];
    curl.squeeze_into(&mut out);
    assert_eq!(out, [-1i8; 100]);
    assert!(curl.state().iter().all(|&t| t == 1));
}

#[test]
fn squeeze_empty_output_leaves_state() {
    let mut curl = Curl::new(1);
    let mut out: [Trit; 0] = [];
    curl.squeeze_into(&mut out);
    assert!(curl.state().iter().all(|&t| t == 0));
}

#[test]
fn squeeze_returns_state_prefix_and_permutes() {
    let mut curl = Curl::new(1);
    assert_eq!(curl.squeeze(), [0i8; 243]);
    assert!(curl.state().iter().all(|&t| t == -1));
    assert_eq!(curl.squeeze(), [-1i8; 243]);
}

#[test]
fn absorb_overwrites_prefix_without_padding() {
    let mut curl = Curl::new(0);
    curl.absorb(&[1, 1, 1]);
    curl.absorb(&[-1]);
    let state = curl.state();
    assert_eq!(&state[..4], &[-1, 1, 1, 0]);
    assert!(state[4..].iter().all(|&t| t == 0));
}

#[test]
fn reset_returns_to_zero_state() {
    let mut curl = Curl::new(5);
    curl.absorb(&sample_input());
    assert!(curl.state().iter().any(|&t| t != 0));
    curl.reset();
    assert_eq!(curl.state().len(), STATE_LENGTH);
    assert!(curl.state().iter().all(|&t| t == 0));
    let mut fresh = Curl::new(5);
    assert_eq!(curl.digest(&sample_input()), fresh.digest(&sample_input()));
}

#[test]
fn repeated_digests_are_identical() {
    let input = sample_input();
    let mut a = Curl::new(81);
    let first = a.digest(&input);
    for _ in 0..3 {
        a.reset();
        assert_eq!(a.digest(&input), first);
        assert_eq!(digest(&input, 81), first);
    }
}

#[test]
fn one_round_spreads_a_single_difference() {
    let mut a = [0i8; STATE_LENGTH];
    let mut b = [0i8; STATE_LENGTH];
    b[5] = 1;
    transform(&mut a, 1);
    transform(&mut b, 1);
    assert_ne!(a, b);
    let differing = a.iter().zip(b.iter()).filter(|(x, y)| x != y).count();
    assert_eq!(differing, 2);
}

#[test]
fn random_states_stay_distinct_after_one_round() {
    let mut seed: u64 = 0x9e37_79b9_7f4a_7c15;
    let mut next_trit = || {
        seed ^= seed << 13;
        seed ^= seed >> 7;
        seed ^= seed << 17;
        ((seed % 3) as i8) - 1
    };
    for _ in 0..50 {
        let mut a = [0i8; STATE_LENGTH];
        for t in a.iter_mut() {
            *t = next_trit();
        }
        let mut b = a;
        let pos = (next_trit() + 1) as usize * 200;
        b[pos] = if a[pos] == 1 { -1 } else { a[pos] + 1 };
        transform(&mut a, 1);
        transform(&mut b, 1);
        assert_ne!(a, b);
    }
}

#[test]
fn substitution_follows_the_table() {
    assert_eq!(TRUTH_TABLE, [1, 0, -1, 2, 1, -1, 0, 2, -1, 1, 0]);
    for a in -1i8..=1 {
        for b in -1i8..=1 {
            assert_eq!(substitute(a, b), TRUTH_TABLE[(a + 4 * b + 5) as usize]);
        }
    }
    assert_eq!(substitute(1, -1), -1);
    assert_eq!(substitute(0, 0), -1);
    assert_eq!(substitute(0, 1), 1);
}

#[test]
fn default_has_81_rounds_and_zero_state() {
    let input = sample_input();
    let mut a = Curl::default();
    let mut b = Curl::new(81);
    assert_eq!(a.state().len(), STATE_LENGTH);
    assert!(a.state().iter().all(|&t| t == 0));
    assert_eq!(a.digest(&input), b.digest(&input));
    assert_eq!(HASH_LENGTH, 243);
}
