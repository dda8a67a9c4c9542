use moonshine::coins::{coins_of_token, fields_ok, spend_coin, spend_coins, CoinError, SpendCoin};
use moonshine::db::spending::UnspentNote;
use moonshine::tx_builder::{
    assert_witness_at_tip, authentic_coins, call_data, check_fee_root, choose_fee_source,
    compute_remainder_blind, fee_call_data, fee_candidates, find_circuits, merkle_root_from_path,
    plan_fee, prepare_transfer, Circuit, FeeError, FeeSource, OwnNote, PrepareError, ReadableOutput,
    SpentCoin, WitnessError,
};
use pasta_curves::group::ff::{Field, PrimeField};
use pasta_curves::pallas;

fn combine(level: u8, left: &[u8; 32], right: &[u8; 32]) -> [u8; 32] {
    let mut hasher = blake3::Hasher::new();
    hasher.update(&[level]);
    hasher.update(left);
    hasher.update(right);
    hasher.finalize().into()
}

/// The root and the paths of a full tree over four leaves.
fn tree(leaves: [[u8; 32]; 4]) -> ([u8; 32], Vec<Vec<[u8; 32]>>) {
    let low = combine(0, &leaves[0], &leaves[1]);
    let high = combine(0, &leaves[2], &leaves[3]);
    let root = combine(1, &low, &high);
    let paths = vec![
        vec![leaves[1], high],
        vec![leaves[0], high],
        vec![leaves[3], low],
        vec![leaves[2], low],
    ];
    (root, paths)
}

fn coin(tag: u8, value: u64, leaf_position: u64) -> SpendCoin {
    SpendCoin {
        coin: [tag; 32],
        value,
        token_id: [0x44; 32],
        spend_hook: [0; 32],
        user_data: [0; 32],
        coin_blind: [0; 32],
        value_blind: [0; 32],
        token_blind: [0; 32],
        secret: [1; 32],
        leaf_position,
    }
}

#[test]
fn a_path_leads_to_the_root() {
    let leaves = [[1; 32], [2; 32], [3; 32], [4; 32]];
    let (root, paths) = tree(leaves);
    for (i, path) in paths.iter().enumerate() {
        assert_eq!(merkle_root_from_path(leaves[i], i as u64, path, &combine), root);
    }
    assert_ne!(merkle_root_from_path(leaves[0], 1, &paths[0], &combine), root);
    assert_eq!(merkle_root_from_path([9; 32], 5, &vec![], &combine), [9; 32]);
}

#[test]
fn a_coin_is_held_against_the_tip() {
    let leaves = [[1; 32], [2; 32], [3; 32], [4; 32]];
    let (root, paths) = tree(leaves);
    let path = Some(paths[2].clone());
    assert_eq!(
        assert_witness_at_tip(&Some(root), &path, [3; 32], 2, &combine).unwrap(),
        root
    );
    let e = assert_witness_at_tip(&None, &path, [3; 32], 2, &combine).unwrap_err();
    assert_eq!(e.message(), "Merkle tree has no current root");
    let e = assert_witness_at_tip(&Some(root), &None, [3; 32], 2, &combine).unwrap_err();
    assert_eq!(e.message(), "Merkle witness missing for leaf Position(2)");
    let e = assert_witness_at_tip(&Some(root), &path, [3; 32], 0, &combine).unwrap_err();
    match e {
        WitnessError::Mismatch { position, witnessed, tip } => {
            assert_eq!((position, tip), (0, root));
            assert_eq!(
                e.message(),
                format!(
                    "Merkle witness for leaf 0 hashes to {} but tree tip is {}. \
                     Rebuild with: moonshine sync --rebuild-merkle --allow-trial",
                    hex::encode(witnessed),
                    hex::encode(root)
                )
            );
        }
        other => panic!("{other:?}"),
    }
}

#[test]
fn only_authentic_coins_are_spent() {
    let leaves = [[1; 32], [2; 32], [3; 32], [4; 32]];
    let (root, paths) = tree(leaves);
    let coins = vec![coin(1, 5, 0), coin(2, 6, 2), coin(3, 7, 2), coin(4, 8, 3)];
    let given = vec![
        Some(paths[0].clone()),
        Some(paths[1].clone()),
        Some(paths[2].clone()),
        None,
    ];
    let (kept, skipped) = authentic_coins(&coins, &Some(root), &given, &combine).unwrap();
    let tags: Vec<u8> = kept.iter().map(|c| c.coin[0]).collect();
    assert_eq!(tags, [1, 3]);
    assert_eq!(skipped.len(), 2);
    assert!(matches!(skipped[0], WitnessError::Mismatch { position: 2, .. }));
    assert!(matches!(skipped[1], WitnessError::NoPath(3)));

    let none = authentic_coins(&coins, &None, &given, &combine).unwrap_err();
    assert_eq!(none.len(), 4);
    assert!(authentic_coins(&vec![], &Some(root), &vec![], &combine).is_err());
}

#[test]
fn a_payment_needs_three_circuits_and_a_coin() {
    let bins = |names: &[&str]| -> Vec<(String, Vec<u8>)> {
        names.iter().map(|n| (n.to_string(), vec![])).collect()
    };
    let all = bins(&["x", "Burn", "Mint", "Fee", "Mint"]);
    assert_eq!(find_circuits(&all, "Mint", "Burn", "Fee"), Ok((2, 1, 3)));
    assert_eq!(
        find_circuits(&bins(&["Burn"]), "Mint", "Burn", "Fee"),
        Err(Circuit::Mint)
    );
    assert_eq!(
        find_circuits(&bins(&["Mint"]), "Mint", "Burn", "Fee"),
        Err(Circuit::Burn)
    );
    assert_eq!(
        find_circuits(&bins(&["Mint", "Burn"]), "Mint", "Burn", "Fee"),
        Err(Circuit::Fee)
    );

    let leaves = [[1; 32], [2; 32], [3; 32], [4; 32]];
    let (root, paths) = tree(leaves);
    let coins = vec![coin(1, 5, 0)];
    let given = vec![Some(paths[0].clone())];
    let p = prepare_transfer(
        &all, "Mint", "Burn", "Fee", &coins, &Some(root), &given, &combine,
    )
    .unwrap();
    assert_eq!((p.mint, p.burn, p.fee, p.spendable.len()), (2, 1, 3, 1));
    assert!(matches!(
        prepare_transfer(&bins(&[]), "Mint", "Burn", "Fee", &coins, &Some(root), &given, &combine),
        Err(PrepareError::CircuitMissing(Circuit::Mint))
    ));
    assert!(matches!(
        prepare_transfer(&all, "Mint", "Burn", "Fee", &coins, &None, &given, &combine),
        Err(PrepareError::NoSpendableCoins(_))
    ));
}

#[test]
fn the_fee_comes_from_a_leftover_or_from_change() {
    let coins = vec![coin(1, 100, 0), coin(2, 3, 1), coin(3, 50, 2)];
    let mut foreign = coin(4, 900, 3);
    foreign.token_id = [0; 32];
    let mut with_foreign = coins.clone();
    with_foreign.push(foreign);
    assert_eq!(fee_candidates(&with_foreign, 10, &[0x44; 32]), [0, 2]);

    let note = |value: u64, derived: u8| OwnNote {
        value,
        token_id: [0x44; 32],
        derived_coin: [derived; 32],
    };
    let outputs = vec![
        ReadableOutput { coin: [7; 32], note: None },
        ReadableOutput { coin: [8; 32], note: Some(note(4, 8)) },
        ReadableOutput { coin: [9; 32], note: Some(note(40, 9)) },
    ];
    let pick = |fee: u64, spent: &[u8]| {
        let spent: Vec<[u8; 32]> = spent.iter().map(|t| [*t; 32]).collect();
        choose_fee_source(&with_foreign, &outputs, fee, &[0x44; 32], &spent)
    };
    assert_eq!(pick(0, &[]).unwrap(), FeeSource::NoFee);
    assert_eq!(pick(10, &[1]).unwrap(), FeeSource::Leftover(2));
    assert_eq!(pick(10, &[1, 3]).unwrap(), FeeSource::Change(2));
    let e = pick(41, &[1, 3]).unwrap_err();
    assert_eq!(
        e.message(),
        "Not enough native tokens to pay for fee (need a leftover coin or change >= fee)"
    );

    let wrong = vec![ReadableOutput { coin: [9; 32], note: Some(note(40, 1)) }];
    let e = choose_fee_source(&vec![], &wrong, 10, &[0x44; 32], &vec![]).unwrap_err();
    assert!(matches!(e, FeeError::CoinMismatch { .. }));
    assert_eq!(
        e.message(),
        format!(
            "tx-local change coin mismatch: output={} derived={}",
            "09".repeat(32),
            "01".repeat(32)
        )
    );
}

#[test]
fn a_leftover_fee_coin_is_spent_too() {
    let coins = vec![coin(1, 100, 0), coin(3, 50, 2)];
    let nullifiers = vec![[0xA1; 32], [0xA3; 32]];
    let spent = vec![SpentCoin { commitment: [1; 32], nullifier: [0xA1; 32] }];
    let plan = plan_fee(&coins, &nullifiers, &vec![], &spent, 20, &[0x44; 32]).unwrap();
    assert_eq!(plan.source, FeeSource::Leftover(1));
    assert_eq!(plan.change_value, 30);
    assert_eq!(plan.spent_commitments, vec![vec![1; 32], vec![3; 32]]);
    assert_eq!(plan.spent_nullifiers, vec![vec![0xA1; 32], vec![0xA3; 32]]);

    let outputs = vec![ReadableOutput {
        coin: [9; 32],
        note: Some(OwnNote { value: 25, token_id: [0x44; 32], derived_coin: [9; 32] }),
    }];
    let both = vec![
        spent[0],
        SpentCoin { commitment: [3; 32], nullifier: [0xA3; 32] },
    ];
    let plan = plan_fee(&coins, &nullifiers, &outputs, &both, 20, &[0x44; 32]).unwrap();
    assert_eq!(plan.source, FeeSource::Change(0));
    assert_eq!(plan.change_value, 5);
    assert_eq!(plan.spent_commitments.len(), 2);

    let plan = plan_fee(&coins, &nullifiers, &outputs, &both, 0, &[0x44; 32]).unwrap();
    assert_eq!((plan.source, plan.change_value), (FeeSource::NoFee, 0));
    assert!(plan_fee(&coins, &nullifiers, &vec![], &both, 20, &[0x44; 32]).is_err());
}

#[test]
fn a_fee_proof_must_publish_the_expected_root() {
    assert!(check_fee_root(&None, &[1; 32]).is_ok());
    assert!(check_fee_root(&Some([1; 32]), &[1; 32]).is_ok());
    assert_eq!(
        check_fee_root(&Some([2; 32]), &[1; 32]).unwrap_err(),
        format!(
            "fee proof Merkle root {} != wallet tree root {}",
            "01".repeat(32),
            "02".repeat(32)
        )
    );
}

#[test]
fn the_remainder_balances_the_blinds() {
    let scalar = |n: u64| pallas::Scalar::from(n).to_repr();
    assert_eq!(
        compute_remainder_blind(&vec![scalar(10), scalar(5)], &vec![scalar(4)]),
        scalar(11)
    );
    assert_eq!(
        compute_remainder_blind(&vec![scalar(1)], &vec![scalar(3)]),
        (-pallas::Scalar::from(2)).to_repr()
    );
    assert_eq!(
        compute_remainder_blind(&vec![], &vec![]),
        pallas::Scalar::ZERO.to_repr()
    );
    let big = (-pallas::Scalar::from(1)).to_repr();
    assert_eq!(
        compute_remainder_blind(&vec![big, big], &vec![]),
        (-pallas::Scalar::from(2)).to_repr()
    );
}

#[test]
fn calls_begin_with_their_function() {
    assert_eq!(call_data(3, &[9, 8]), [3, 9, 8]);
    assert_eq!(
        fee_call_data(0, 0x0102, &[7]),
        [0, 2, 1, 0, 0, 0, 0, 0, 0, 7]
    );
    assert_eq!(
        fee_call_data(0, u64::MAX, &[])[1..],
        [0xff; 8]
    );
}

fn row() -> UnspentNote {
    (
        "tx".to_string(),
        0,
        70,
        "44".repeat(32),
        vec![1; 32],
        vec![2; 32],
        vec![3; 32],
        vec![5; 32],
        vec![4; 32],
        6,
        vec![8; 32],
        vec![9; 33],
    )
}

#[test]
fn notes_become_coins() {
    let r = row();
    assert!(fields_ok(&r));
    let c = spend_coin(&r).unwrap();
    assert_eq!(c.coin, [8; 32]);
    assert_eq!((c.value, c.leaf_position), (70, 6));
    assert_eq!(c.token_id, [0x44; 32]);
    assert_eq!(c.coin_blind, [1; 32]);
    assert_eq!(c.value_blind, [2; 32]);
    assert_eq!(c.token_blind, [3; 32]);
    assert_eq!(c.user_data, [4; 32]);
    assert_eq!(c.spend_hook, [5; 32]);
    assert_eq!(c.secret, [9; 32]);

    let mut short = row();
    short.11 = vec![9; 31];
    assert!(fields_ok(&short));
    assert_eq!(spend_coin(&short).unwrap_err(), CoinError::OwnerSecretTooShort);
    assert!(spend_coins(&vec![row(), short]).is_err());
    assert_eq!(spend_coins(&vec![row(), row()]).unwrap().len(), 2);
}

#[test]
fn fields_of_no_coin_are_found_out() {
    let broken: Vec<fn(&mut UnspentNote)> = vec![
        |r| r.3 = "zz".to_string(),
        |r| r.3 = "44".to_string(),
        |r| r.4 = vec![0xFF; 32],
        |r| r.4 = vec![1; 31],
        |r| r.5 = vec![0xFF; 32],
        |r| r.6 = vec![0xFF; 32],
        |r| r.8 = vec![],
        |r| r.7 = vec![0; 1],
        |r| r.10 = vec![0; 33],
    ];
    for b in broken {
        let mut r = row();
        b(&mut r);
        assert!(!fields_ok(&r));
    }
    // The greatest canonical elements, and the orders of the fields.
    let mut r = row();
    r.4 = (-pallas::Base::from(1)).to_repr().to_vec();
    r.5 = (-pallas::Scalar::from(1)).to_repr().to_vec();
    assert!(fields_ok(&r));
    r.4[0] += 1;
    assert!(!fields_ok(&r));
    r.4[0] -= 1;
    r.5[0] += 1;
    assert!(!fields_ok(&r));
}

#[test]
fn coins_are_kept_by_token() {
    let mut other = coin(2, 1, 0);
    other.token_id = [0xAB; 32];
    let coins = vec![coin(1, 1, 0), other];
    let native = "44".repeat(32);
    let tags = |token: &str| -> Vec<u8> {
        coins_of_token(&coins, token, &native)
            .iter()
            .map(|c| c.coin[0])
            .collect()
    };
    assert_eq!(tags("drk"), [1]);
    assert_eq!(tags(&native), [1]);
    assert_eq!(tags(&"ab".repeat(32)), [2]);
    assert!(tags(&"AB".repeat(32)).is_empty());
}

#[test]
fn a_path_leads_on_step_by_step() {
    let path = vec![[2; 32], [3; 32], [4; 32]];
    for position in [0u64, 1, 2, 3, 4, 5, 6, 7, 8 + 5, u64::MAX] {
        for k in 0..path.len() {
            let lower = path[..k].to_vec();
            let longer = path[..k + 1].to_vec();
            let below = merkle_root_from_path([1; 32], position, &lower, &combine);
            let above = if position >> k & 1 == 0 {
                combine(k as u8, &below, &path[k])
            } else {
                combine(k as u8, &path[k], &below)
            };
            assert_eq!(merkle_root_from_path([1; 32], position, &longer, &combine), above);
        }
    }
    let low = merkle_root_from_path([1; 32], 5, &path, &combine);
    assert_eq!(merkle_root_from_path([1; 32], 5 + 8, &path, &combine), low);
    assert_eq!(merkle_root_from_path([1; 32], 5 + (1 << 63), &path, &combine), low);
    assert_ne!(merkle_root_from_path([1; 32], 4, &path, &combine), low);
}

#[test]
fn a_refused_payment_says_why() {
    for (missing, words) in [
        (Circuit::Mint, "Mint circuit missing"),
        (Circuit::Burn, "Burn circuit missing"),
        (Circuit::Fee, "Fee circuit missing"),
    ] {
        assert_eq!(PrepareError::CircuitMissing(missing).message(), words);
    }
    assert_eq!(
        PrepareError::NoSpendableCoins(vec![]).message(),
        "No spendable coins with a valid Merkle witness. Rebuild with: \
         moonshine sync --rebuild-merkle --allow-trial"
    );
}
