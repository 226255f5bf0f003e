use omni_relayer::decoder::{
    classify, find_sequence, validate, DecodedEvent, DepositEvent, Malformed, MessagePublished, RawLogRecord,
    RecordOutcome, WithdrawEvent,
};
use omni_relayer::driver::{record_key, Driver, NextStep, RecordAction};
use omni_relayer::log_source::{start_block, BlockRange, BlockScanner, ScanStep};
use omni_relayer::resolver::{
    after_attestation, after_receipt_proof, begin_resolution, claim_payload, envelope_of, ProofEnvelope, ProofPath, ProofTask,
    Resolution, Unresolved,
};
use omni_relayer::wire::{ChainKind, ClaimFeeArgs, ProofKind};

fn hash(first: u8, last: u8) -> [u8; 32] {
    let mut h = [0u8; 32];
    h[0] = first;
    h[31] = last;
    h
}

fn raw(tx: Option<[u8; 32]>, index: Option<u64>, block: Option<u64>) -> RawLogRecord {
    RawLogRecord { tx_hash: tx, log_index: index, block_number: block }
}

fn withdraw() -> WithdrawEvent {
    WithdrawEvent { sender: [1u8; 20], amount: [0u8; 32], recipient: "alice.near".to_string(), token: [2u8; 20] }
}

fn deposit() -> DepositEvent {
    DepositEvent { amount: [0u8; 32], recipient: [3u8; 20], nonce: 7, fee_recipient: "relayer.near".to_string() }
}

fn drain(scanner: &mut BlockScanner) -> Vec<BlockRange> {
    let mut out = Vec::new();
    loop {
        match scanner.next_step() {
            ScanStep::Fetch(r) => out.push(r),
            ScanStep::Live => return out,
        }
    }
}

#[test]
fn cold_start_backfills_last_batch_then_goes_live() {
    let mut scanner = BlockScanner::new(None, 1000, 100);
    assert_eq!(scanner.next, 900);
    assert_eq!(scanner.next_step(), ScanStep::Fetch(BlockRange { start: 900, end: 1000 }));
    assert_eq!(scanner.next_step(), ScanStep::Live);
    assert!(scanner.is_live());
    assert_eq!(scanner.next_step(), ScanStep::Live);
}

#[test]
fn backfill_tiles_range_with_short_last_batch() {
    let mut scanner = BlockScanner::new(Some(0), 250, 100);
    let ranges = drain(&mut scanner);
    assert_eq!(
        ranges,
        vec![
            BlockRange { start: 0, end: 100 },
            BlockRange { start: 100, end: 200 },
            BlockRange { start: 200, end: 250 },
        ]
    );
}

#[test]
fn backfill_from_checkpoint_at_head_is_empty() {
    let mut scanner = BlockScanner::new(Some(1000), 1000, 100);
    assert!(drain(&mut scanner).is_empty());
    let mut beyond = BlockScanner::new(Some(1200), 1000, 100);
    assert!(drain(&mut beyond).is_empty());
}

#[test]
fn backfill_near_u64_max_does_not_overflow() {
    let mut scanner = BlockScanner::new(Some(u64::MAX - 150), u64::MAX, 100);
    let ranges = drain(&mut scanner);
    assert_eq!(
        ranges,
        vec![
            BlockRange { start: u64::MAX - 150, end: u64::MAX - 50 },
            BlockRange { start: u64::MAX - 50, end: u64::MAX },
        ]
    );
}

#[test]
fn start_block_defaults() {
    assert_eq!(start_block(Some(42), 1000, 100), 42);
    assert_eq!(start_block(None, 1000, 100), 900);
    assert_eq!(start_block(None, 50, 100), 0);
}

#[test]
fn record_without_log_index_is_dropped_without_checkpoint() {
    let mut driver = Driver::new(Some(10));
    let outcome = classify(&raw(Some(hash(1, 2)), None, Some(20)), Some(withdraw()), None);
    assert!(matches!(outcome, RecordOutcome::Malformed(Malformed::MissingLogIndex)));
    let action = driver.on_record(outcome);
    assert!(matches!(action, RecordAction::Drop(Malformed::MissingLogIndex)));
    assert_eq!(driver.checkpoint, Some(10));
    assert!(driver.withdraws_sent.is_empty());
}

#[test]
fn record_without_tx_hash_is_malformed() {
    assert!(matches!(validate(&raw(None, Some(0), Some(5))), Err(Malformed::MissingTxHash)));
    assert!(matches!(validate(&raw(None, None, Some(5))), Err(Malformed::MissingTxHash)));
    let ok = validate(&raw(Some(hash(9, 9)), Some(3), None)).unwrap();
    assert_eq!(ok.log_index, 3);
    assert_eq!(ok.tx_hash, hash(9, 9));
}

#[test]
fn withdraw_shape_wins_over_deposit() {
    let r = raw(Some(hash(1, 1)), Some(0), Some(1));
    assert!(matches!(
        classify(&r, Some(withdraw()), Some(deposit())),
        RecordOutcome::Recognized(_, DecodedEvent::Withdraw(_))
    ));
    assert!(matches!(classify(&r, None, Some(deposit())), RecordOutcome::Recognized(_, DecodedEvent::Deposit(_))));
    assert!(matches!(classify(&r, None, None), RecordOutcome::Unrecognized(_)));
}

#[test]
fn unrecognized_record_moves_checkpoint_only() {
    let mut driver = Driver::new(None);
    let outcome = classify(&raw(Some(hash(1, 1)), Some(0), Some(77)), None, None);
    match driver.on_record(outcome) {
        RecordAction::Proceed { checkpoint_write, step } => {
            assert_eq!(checkpoint_write, Some(77));
            assert!(matches!(step, NextStep::Nothing));
        }
        RecordAction::Drop(_) => panic!("dropped"),
    }
    assert_eq!(driver.checkpoint, Some(77));
}

#[test]
fn checkpoint_is_monotonic_and_written_once_per_block() {
    let mut driver = Driver::new(Some(5));
    let mut writes = Vec::new();
    for h in [5u64, 6, 6, 8, 7, 9] {
        if let RecordAction::Proceed { checkpoint_write, .. } =
            driver.on_record(classify(&raw(Some(hash(h as u8, 0)), Some(0), Some(h)), None, None))
        {
            if let Some(w) = checkpoint_write {
                writes.push(w);
            }
        }
    }
    assert_eq!(writes, vec![6, 8, 9]);
    assert_eq!(driver.checkpoint, Some(9));
}

#[test]
fn record_without_height_keeps_checkpoint() {
    let mut driver = Driver::new(Some(5));
    match driver.on_record(classify(&raw(Some(hash(1, 1)), Some(0), None), None, None)) {
        RecordAction::Proceed { checkpoint_write, .. } => assert_eq!(checkpoint_write, None),
        RecordAction::Drop(_) => panic!("dropped"),
    }
    assert_eq!(driver.checkpoint, Some(5));
}

#[test]
fn withdraw_is_queued_once_per_pass() {
    let mut driver = Driver::new(None);
    let tx = hash(0x12, 0xcd);
    let first = driver.on_record(classify(&raw(Some(tx), Some(0), Some(1)), Some(withdraw()), None));
    match first {
        RecordAction::Proceed { step: NextStep::PushWithdraw { key, event }, .. } => {
            assert_eq!(key, format!("0x12{}cd", "0".repeat(60)));
            assert_eq!(event.recipient, "alice.near");
        }
        _ => panic!("expected a push"),
    }
    let second = driver.on_record(classify(&raw(Some(tx), Some(1), Some(1)), Some(withdraw()), None));
    assert!(matches!(second, RecordAction::Proceed { step: NextStep::AlreadyQueued, .. }));
    assert_eq!(driver.withdraws_sent.len(), 1);
}

#[test]
fn record_key_renders_full_hash() {
    let mut h = [0u8; 32];
    h[0] = 0x12;
    h[1] = 0x34;
    h[30] = 0xab;
    h[31] = 0xcd;
    assert_eq!(record_key(&h), format!("0x1234{}abcd", "0".repeat(56)));
}

#[test]
fn deposit_without_publication_takes_receipt_path_only() {
    let sequence = find_sequence(&vec![None, None]);
    assert_eq!(sequence, None);
    let task = begin_resolution(sequence);
    assert!(matches!(task, ProofTask::BuildReceiptProof));
    let resolution = after_receipt_proof(Some(vec![9, 9]));
    assert!(matches!(&resolution, Resolution::ReceiptProved(v) if v == &vec![9, 9]));
}

#[test]
fn publication_sequence_is_last_in_receipt() {
    let m = |s: u64| Some(MessagePublished { sequence: s, nonce: 0, consistency_level: 1 });
    assert_eq!(find_sequence(&vec![m(4), None, m(8), None]), Some(8));
    assert_eq!(find_sequence(&vec![]), None);
}

#[test]
fn attestation_found_wins_and_missing_falls_back() {
    assert!(matches!(begin_resolution(Some(31)), ProofTask::QueryAttestation(31)));
    assert!(matches!(
        after_attestation(Some(vec![1, 2, 3])),
        ProofTask::Finished(Resolution::Attested(v)) if v == vec![1, 2, 3]
    ));
    assert!(matches!(after_attestation(None), ProofTask::BuildReceiptProof));
    assert!(matches!(
        after_receipt_proof(None),
        Resolution::Unresolvable(Unresolved::ReceiptProofFailed)
    ));
}

#[test]
fn attestation_payload_bytes() {
    let env = envelope_of(Resolution::Attested(b"ab".to_vec())).unwrap();
    assert_eq!(env.encode().unwrap(), vec![0, 2, 0, 0, 0, b'a', b'b']);
    assert_eq!(claim_payload(&env).unwrap(), vec![0, 7, 0, 0, 0, 0, 2, 0, 0, 0, b'a', b'b']);
}

#[test]
fn receipt_payload_bytes() {
    let env = envelope_of(Resolution::ReceiptProved(vec![5, 6, 7])).unwrap();
    assert!(matches!(&env, ProofEnvelope::Receipt { kind: ProofKind::InitTransfer, .. }));
    assert_eq!(env.encode().unwrap(), vec![0, 5, 6, 7]);
    assert_eq!(claim_payload(&env).unwrap(), vec![0, 4, 0, 0, 0, 0, 5, 6, 7]);
    assert!(envelope_of(Resolution::Unresolvable(Unresolved::ReceiptProofFailed)).is_none());
}

#[test]
fn deposit_finishes_once_per_pass() {
    let mut driver = Driver::new(None);
    let tx = hash(0xaa, 0xbb);
    let action = driver.on_record(classify(&raw(Some(tx), Some(4), Some(3)), None, Some(deposit())));
    match action {
        RecordAction::Proceed { step: NextStep::ResolveDeposit { tx_hash, log_index }, checkpoint_write } => {
            assert_eq!(tx_hash, tx);
            assert_eq!(log_index, 4);
            assert_eq!(checkpoint_write, Some(3));
        }
        _ => panic!("expected a proof request"),
    }
    assert!(driver.finish_deposit(tx, Resolution::Unresolvable(Unresolved::ReceiptProofFailed)).is_none());
    let (key, payload) = driver.finish_deposit(tx, Resolution::ReceiptProved(vec![1])).unwrap();
    assert_eq!(key, format!("0xaa{}bb", "0".repeat(60)));
    assert_eq!(payload, vec![0, 2, 0, 0, 0, 0, 1]);
    assert!(driver.finish_deposit(tx, Resolution::ReceiptProved(vec![1])).is_none());
    let again = driver.on_record(classify(&raw(Some(tx), Some(4), Some(3)), None, Some(deposit())));
    assert!(matches!(again, RecordAction::Proceed { step: NextStep::AlreadyQueued, checkpoint_write: None }));
}

#[test]
fn claim_args_round_trip() {
    let args = ClaimFeeArgs { chain_kind: ChainKind::Arb, prover_args: vec![1, 2, 3] };
    let bytes = args.encode().unwrap();
    assert_eq!(bytes, vec![3, 3, 0, 0, 0, 1, 2, 3]);
    let back = ClaimFeeArgs::decode(&bytes).unwrap();
    assert_eq!(back.chain_kind, ChainKind::Arb);
    assert_eq!(back.prover_args, vec![1, 2, 3]);
    assert_eq!(back.encode().unwrap(), bytes);
}

#[test]
fn claim_args_long_length_prefix() {
    let args = ClaimFeeArgs { chain_kind: ChainKind::Eth, prover_args: vec![7u8; 300] };
    let bytes = args.encode().unwrap();
    assert_eq!(&bytes[..5], &[0, 44, 1, 0, 0]);
    let back = ClaimFeeArgs::decode(&bytes).unwrap();
    assert_eq!(back.prover_args.len(), 300);
}

#[test]
fn claim_args_decode_rejects_bad_input() {
    assert!(ClaimFeeArgs::decode(&[0, 0, 0, 0]).is_none());
    assert!(ClaimFeeArgs::decode(&[9, 0, 0, 0, 0]).is_none());
    assert!(ClaimFeeArgs::decode(&[0, 2, 0, 0, 0, 1]).is_none());
    assert!(ClaimFeeArgs::decode(&[0, 1, 0, 0, 0, 1, 2]).is_none());
    let empty = ClaimFeeArgs::decode(&[1, 0, 0, 0, 0]).unwrap();
    assert_eq!(empty.chain_kind, ChainKind::Near);
    assert!(empty.prover_args.is_empty());
}

#[test]
fn envelope_round_trip() {
    let att = ProofEnvelope::Attestation { kind: ProofKind::InitTransfer, attestation: b"vaa".to_vec() };
    let bytes = att.encode().unwrap();
    assert_eq!(bytes, vec![0, 3, 0, 0, 0, b'v', b'a', b'a']);
    let back = ProofEnvelope::decode(&bytes, ProofPath::Attestation).unwrap();
    assert!(matches!(&back, ProofEnvelope::Attestation { kind: ProofKind::InitTransfer, attestation } if attestation == b"vaa"));
    assert_eq!(back.encode().unwrap(), bytes);

    let rec = ProofEnvelope::Receipt { kind: ProofKind::FinTransfer, receipt: vec![4, 5] };
    let bytes = rec.encode().unwrap();
    assert_eq!(bytes, vec![1, 4, 5]);
    let back = ProofEnvelope::decode(&bytes, ProofPath::Receipt).unwrap();
    assert_eq!(back.encode().unwrap(), bytes);

    assert!(ProofEnvelope::decode(&[7, 0, 0, 0, 0], ProofPath::Receipt).is_none());
    assert!(ProofEnvelope::decode(&[0, 5, 0, 0, 0, 1], ProofPath::Attestation).is_none());
    assert!(ProofEnvelope::decode(&[], ProofPath::Receipt).is_none());
}

#[test]
fn record_keys_differ_for_hashes_sharing_ends() {
    let a = hash(0x12, 0xcd);
    let mut b = a;
    b[15] = 1;
    assert_ne!(record_key(&a), record_key(&b));
    let mut all = [0u8; 32];
    for (i, x) in all.iter_mut().enumerate() {
        *x = (i as u8) * 8;
    }
    assert_eq!(record_key(&all), "0x0008101820283038404850586068707880889098a0a8b0b8c0c8d0d8e0e8f0f8");
}
