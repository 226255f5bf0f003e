//! What a raw log record means: malformed, unrecognized, or one of the
//! bridge's events, and the message sequence published by a deposit's
//! transaction.
use vstd::prelude::*;

verus! {

/// A log as the node returned it; the node may leave the transaction hash,
/// the log index or the block height out.
#[derive(Clone, Copy, Debug)]
pub struct RawLogRecord {
    pub tx_hash: Option<[u8; 32]>,
    pub log_index: Option<u64>,
    pub block_number: Option<u64>,
}

/// A log that names its transaction and its place in it.
#[derive(Clone, Copy, Debug)]
pub struct LogRecord {
    pub tx_hash: [u8; 32],
    pub log_index: u64,
    pub block_number: Option<u64>,
}

/// Why a raw record is not a valid record.
#[derive(Clone, Copy, Debug, PartialEq, Eq, Structural)]
pub enum Malformed {
    MissingTxHash,
    MissingLogIndex,
}

/// A token leaving the bridge towards the other chain.
#[derive(Clone, Debug)]
pub struct WithdrawEvent {
    pub sender: [u8; 20],
    /// Big-endian 256-bit amount.
    pub amount: [u8; 32],
    pub recipient: String,
    pub token: [u8; 20],
}

/// A native deposit that needs a proof before it can be claimed.
#[derive(Clone, Debug)]
pub struct DepositEvent {
    /// Big-endian 256-bit amount.
    pub amount: [u8; 32],
    pub recipient: [u8; 20],
    pub nonce: u128,
    pub fee_recipient: String,
}

/// A message-bus publication, seen beside a deposit in its transaction.
#[derive(Clone, Copy, Debug, PartialEq, Eq, Structural)]
pub struct MessagePublished {
    pub sequence: u64,
    pub nonce: u32,
    pub consistency_level: u8,
}

/// One of the bridge's recognized events.
#[derive(Clone, Debug)]
pub enum DecodedEvent {
    Withdraw(WithdrawEvent),
    Deposit(DepositEvent),
    MessagePublished(MessagePublished),
}

/// The meaning of one raw record.
#[derive(Clone, Debug)]
pub enum RecordOutcome {
    Recognized(LogRecord, DecodedEvent),
    Unrecognized(LogRecord),
    Malformed(Malformed),
}

pub open spec fn validate_spec(raw: RawLogRecord) -> Result<LogRecord, Malformed> {
    match (raw.tx_hash, raw.log_index) {
        (None, _) => Err(Malformed::MissingTxHash),
        (Some(_), None) => Err(Malformed::MissingLogIndex),
        (Some(h), Some(i)) => Ok(LogRecord { tx_hash: h, log_index: i, block_number: raw.block_number }),
    }
}

/// A raw record is valid when it names its transaction hash and log index.
pub fn validate(raw: &RawLogRecord) -> (r: Result<LogRecord, Malformed>)
    ensures
        r == validate_spec(*raw),
{
    match raw.tx_hash {
        None => Err(Malformed::MissingTxHash),
        Some(h) => match raw.log_index {
            None => Err(Malformed::MissingLogIndex),
            Some(i) => Ok(LogRecord { tx_hash: h, log_index: i, block_number: raw.block_number }),
        },
    }
}

pub open spec fn classify_spec(
    raw: RawLogRecord,
    withdraw: Option<WithdrawEvent>,
    deposit: Option<DepositEvent>,
) -> RecordOutcome {
    match validate_spec(raw) {
        Err(m) => RecordOutcome::Malformed(m),
        Ok(rec) => match withdraw {
            Some(w) => RecordOutcome::Recognized(rec, DecodedEvent::Withdraw(w)),
            None => match deposit {
                Some(d) => RecordOutcome::Recognized(rec, DecodedEvent::Deposit(d)),
                None => RecordOutcome::Unrecognized(rec),
            },
        },
    }
}

/// Classifies a raw record given what it decodes to as a withdrawal and as a
/// deposit: an invalid record is malformed; otherwise the shapes are tried in
/// order, the withdrawal first, and a record of neither shape is unrecognized.
pub fn classify(
    raw: &RawLogRecord,
    withdraw: Option<WithdrawEvent>,
    deposit: Option<DepositEvent>,
) -> (r: RecordOutcome)
    ensures
        r == classify_spec(*raw, withdraw, deposit),
{
    match validate(raw) {
        Err(m) => RecordOutcome::Malformed(m),
        Ok(rec) => match withdraw {
            Some(w) => RecordOutcome::Recognized(rec, DecodedEvent::Withdraw(w)),
            None => match deposit {
                Some(d) => RecordOutcome::Recognized(rec, DecodedEvent::Deposit(d)),
                None => RecordOutcome::Unrecognized(rec),
            },
        },
    }
}

/// A record is classified as at most one event: one of the withdrawal shape
/// is a withdrawal and never a deposit, a deposit is one that is not of the
/// withdrawal shape, and one of neither shape is unrecognized.
pub proof fn lemma_decoder_exclusive(
    raw: RawLogRecord,
    withdraw: Option<WithdrawEvent>,
    deposit: Option<DepositEvent>,
)
    requires
        raw.tx_hash is Some,
        raw.log_index is Some,
    ensures
        ({
            let r = classify_spec(raw, withdraw, deposit);
            &&& withdraw is Some ==> (r matches RecordOutcome::Recognized(_, e) && e is Withdraw)
            &&& (r matches RecordOutcome::Recognized(_, e) && e is Deposit) <==> withdraw is None && deposit is Some
            &&& withdraw is None && deposit is None ==> r is Unrecognized
            &&& !(r matches RecordOutcome::Recognized(_, e) && e is MessagePublished)
        }),
{
}

/// The sequence of the last message publication among a transaction's logs
/// (`None` for a log that is no publication).
pub open spec fn last_sequence(markers: Seq<Option<MessagePublished>>) -> Option<u64>
    decreases markers.len(),
{
    if markers.len() == 0 {
        None
    } else {
        match markers.last() {
            Some(m) => Some(m.sequence),
            None => last_sequence(markers.drop_last()),
        }
    }
}

/// Scans every log of a deposit's transaction for a message publication and
/// returns the sequence of the last one.
pub fn find_sequence(markers: &Vec<Option<MessagePublished>>) -> (r: Option<u64>)
    ensures
        r == last_sequence(markers@),
{
    let mut i: usize = markers.len();
    assert(markers@.subrange(0, i as int) =~= markers@);
    while i > 0
        invariant
            i <= markers@.len(),
            last_sequence(markers@) == last_sequence(markers@.subrange(0, i as int)),
        decreases i,
    {
        assert(markers@.subrange(0, i as int).drop_last() =~= markers@.subrange(0, i - 1));
        match markers[i - 1] {
            Some(m) => {
                return Some(m.sequence);
            },
            None => {
                i = i - 1;
            },
        }
    }
    assert(markers@.subrange(0, 0) =~= Seq::<Option<MessagePublished>>::empty());
    None
}

} // verus!
