use curl::pcurl::Curl as PackedCurl;
use curl::Curl;
use curl::{Ptrit, Trit, STATE_LENGTH};

/// Packs eight trit sequences of equal length, one per lane.
fn pack(lanes: &[Vec<Trit>]) -> Vec<Ptrit> {
    let len = lanes[0].len();
    (0..len)
        .map(|i| {
            let mut lo = 0u8;
            let mut hi = 0u8;
            for (k, lane) in lanes.iter().enumerate() {
                let t = lane[i];
                if t != 1 {
                    lo |= 1 << k;
                }
                if t != -1 {
                    hi |= 1 << k;
                }
            }
            Ptrit(lo, hi)
        })
        .collect()
}

/// The trit held in lane `k` of `p`.
fn unpack(p: Ptrit, k: usize) -> Trit {
    match ((p.0 >> k) & 1, (p.1 >> k) & 1) {
        (1, 1) => 0,
        (1, 0) => -1,
        (0, 1) => 1,
        _ => panic!("invalid lane"),
    }
}

fn lane_inputs(len: usize) -> Vec<Vec<Trit>> {
    (0..8)
        .map(|k: i64| {
            (0..len as i64)
                .map(|i| ((i * (k + 2) + k) % 3 - 1) as Trit)
                .collect()
        })
        .collect()
}

#[test]
fn pcurl_digest() {
    let transaction = [Ptrit::default(); 8019];
    let mut tx_hash1 = [Ptrit::default(); 243];
    let mut curl = PackedCurl::default();
    curl.digest_into(&transaction, &mut tx_hash1);
    curl.reset();
    let tx_hash2 = curl.digest(&transaction);

    for i in 0..243 {
        assert_eq!(tx_hash1[i].0, tx_hash2[i].0);
        assert_eq!(tx_hash1[i].1, tx_hash2[i].1);
    }
}

#[test]
fn packed_zero_transaction_digest_is_zero_in_every_lane() {
    let transaction = [Ptrit::default(); 8019];
    let mut curl = PackedCurl::default();
    let hash = curl.digest(&transaction);
    assert!(hash.iter().all(|p| p.0 == 255 && p.1 == 255));
}

#[test]
fn each_lane_matches_the_scalar_digest() {
    for (len, rounds) in [(300usize, 9usize), (243, 81), (10, 3), (0, 5)] {
        let inputs = lane_inputs(len);
        let packed = pack(&inputs);
        let mut curl = PackedCurl::new(rounds);
        let hash = curl.digest(&packed);
        for (k, input) in inputs.iter().enumerate() {
            let mut scalar = Curl::new(rounds);
            let expected = scalar.digest(input);
            for i in 0..243 {
                assert_eq!(unpack(hash[i], k), expected[i]);
            }
        }
    }
}

#[test]
fn each_lane_matches_the_scalar_squeeze_with_short_tail() {
    let inputs = lane_inputs(260);
    let packed = pack(&inputs);
    let mut curl = PackedCurl::new(4);
    let mut out = vec![Ptrit::default(); 400];
    curl.digest_into(&packed, &mut out);
    for (k, input) in inputs.iter().enumerate() {
        let mut scalar = Curl::new(4);
        let mut expected = vec![0i8; 400];
        scalar.digest_into(input, &mut expected);
        for i in 0..400 {
            assert_eq!(unpack(out[i], k), expected[i]);
        }
        for i in 0..STATE_LENGTH {
            assert_eq!(unpack(curl.state()[i], k), scalar.state()[i]);
        }
    }
}

#[test]
fn packed_round_matches_table_for_every_pair() {
    // Lane 0 absorbs the pair (a, b) at positions 0 and 364 and nothing else
    // changes, so one round writes the table entry for (a, b) at position 0.
    for a in -1i8..=1 {
        for b in -1i8..=1 {
            let mut input = vec![0i8; 365];
            input[0] = a;
            input[364] = b;
            let lanes: Vec<Vec<Trit>> = (0..8).map(|_| input.clone()).collect();
            let mut packed = PackedCurl::new(1);
            packed.absorb(&pack(&lanes));
            let mut scalar = Curl::new(1);
            scalar.absorb(&input);
            for k in 0..8 {
                for i in 0..STATE_LENGTH {
                    assert_eq!(unpack(packed.state()[i], k), scalar.state()[i]);
                }
            }
        }
    }
}

#[test]
fn packed_reset_sets_every_lane_to_zero() {
    let mut curl = PackedCurl::new(3);
    curl.absorb(&pack(&lane_inputs(100)));
    assert!(curl.state().iter().any(|p| p.0 != 255 || p.1 != 255));
    curl.reset();
    assert_eq!(curl.state().len(), STATE_LENGTH);
    assert!(curl.state().iter().all(|p| p.0 == 255 && p.1 == 255));
}

#[test]
fn packed_squeeze_returns_state_prefix() {
    let mut curl = PackedCurl::new(1);
    let first = curl.squeeze();
    assert!(first.iter().all(|p| p.0 == 255 && p.1 == 255));
    let second = curl.squeeze();
    assert!(second.iter().all(|p| unpack(*p, 0) == -1 && unpack(*p, 7) == -1));
}

#[test]
fn ptrit_default_is_zero_in_every_lane() {
    let p = Ptrit::default();
    assert_eq!((p.0, p.1), (255, 255));
    for k in 0..8 {
        assert_eq!(unpack(p, k), 0);
    }
}
