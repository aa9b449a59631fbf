//! Ledger messages as the archive sees them: an identifier, the metadata of
//! the node that delivered the message, and of the payload what the analytics
//! read.

use vstd::prelude::*;

verus! {

/// The length of a message identifier in bytes.
pub const MESSAGE_ID_LENGTH: usize = 32;

/// A message identifier: the hash of the bytes of the message.
#[derive(Debug, Copy, Clone, PartialEq, Eq, Hash)]
pub struct MessageId {
    bytes: [u8; MESSAGE_ID_LENGTH],
}

impl View for MessageId {
    type V = Seq<u8>;

    closed spec fn view(&self) -> Seq<u8> {
        self.bytes@
    }
}

impl MessageId {
    /// Makes an identifier of its bytes.
    pub fn new(bytes: [u8; MESSAGE_ID_LENGTH]) -> (id: MessageId)
        ensures
            id@ == bytes@,
    {
        MessageId { bytes }
    }

    /// The bytes of the identifier.
    pub fn as_bytes(&self) -> (bytes: &[u8; MESSAGE_ID_LENGTH])
        ensures
            bytes@ == self@,
    {
        &self.bytes
    }

    /// Whether two identifiers are the same, byte by byte.
    pub fn same(&self, other: &MessageId) -> (same: bool)
        ensures
            same == (self@ == other@),
            same == (*self == *other),
    {
        let mut i: usize = 0;
        while i < MESSAGE_ID_LENGTH
            invariant
                i <= MESSAGE_ID_LENGTH,
                forall|j: int| 0 <= j < i ==> self.bytes@[j] == other.bytes@[j],
            decreases MESSAGE_ID_LENGTH - i,
        {
            if self.bytes[i] != other.bytes[i] {
                return false;
            }
            i += 1;
        }
        proof {
            assert(self.bytes@ =~= other.bytes@);
            assert(self.bytes == other.bytes);
        }
        true
    }
}

/// An output of a transaction, with its amount of tokens.
#[derive(Debug, Copy, Clone, PartialEq, Eq, Structural)]
pub enum Output {
    /// A deposit to one address.
    SignatureLockedSingle(u64),
    /// A deposit that raises the dust allowance of an address.
    SignatureLockedDustAllowance(u64),
    /// A deposit to the treasury. No transaction holds one.
    Treasury(u64),
}

/// The essence of a transaction.
#[derive(Debug, Clone, PartialEq, Eq)]
pub enum Essence {
    /// A regular essence, with its outputs.
    Regular(Vec<Output>),
    /// An essence of another kind, with the number of its kind.
    Other(u8),
}

/// The payload of a message.
#[derive(Debug, Clone, PartialEq, Eq)]
pub enum Payload {
    /// A transaction, with its essence.
    Transaction(Essence),
    /// A milestone.
    Milestone,
    /// An indexation.
    Indexation,
    /// A receipt.
    Receipt,
    /// A transaction of the treasury.
    TreasuryTransaction,
}

/// A message of the ledger: its bytes as they travel, which the library
/// keeps and never reads, and beside them the payload as far as the analytics
/// read it. Whoever makes the value reads the payload out of the bytes.
#[derive(Debug, Clone, PartialEq, Eq)]
pub struct Message {
    bytes: Vec<u8>,
    payload: Option<Payload>,
}

impl Message {
    /// Makes a message of its bytes and its payload.
    pub fn new(bytes: Vec<u8>, payload: Option<Payload>) -> (message: Message)
        ensures
            message.spec_bytes() == bytes@,
            message.spec_payload() == payload,
    {
        Message { bytes, payload }
    }

    /// The bytes of the message.
    pub closed spec fn spec_bytes(self) -> Seq<u8> {
        self.bytes@
    }

    /// The payload of the message.
    pub closed spec fn spec_payload(self) -> Option<Payload> {
        self.payload
    }

    /// The bytes of the message.
    pub fn bytes(&self) -> (bytes: &Vec<u8>)
        ensures
            bytes@ == self.spec_bytes(),
    {
        &self.bytes
    }

    /// The payload of the message, if it has one.
    pub fn payload(&self) -> (payload: &Option<Payload>)
        ensures
            *payload == self.spec_payload(),
    {
        &self.payload
    }
}

/// The tokens that an output of a transaction transfers.
pub open spec fn output_amount(output: Output) -> nat {
    match output {
        Output::SignatureLockedSingle(amount) => amount as nat,
        Output::SignatureLockedDustAllowance(amount) => amount as nat,
        Output::Treasury(_) => 0,
    }
}

/// The tokens that the outputs transfer, all together.
pub open spec fn outputs_amount(outputs: Seq<Output>) -> nat
    decreases outputs.len(),
{
    if outputs.len() == 0 {
        0
    } else {
        outputs_amount(outputs.drop_last()) + output_amount(outputs.last())
    }
}

/// Whether the message carries a transaction.
pub open spec fn is_transaction(message: Message) -> bool {
    message.spec_payload() matches Some(Payload::Transaction(_))
}

/// The tokens that the message transfers: those of the outputs of its
/// transaction, if it carries one.
pub open spec fn message_tokens(message: Message) -> nat {
    match message.spec_payload() {
        Some(Payload::Transaction(Essence::Regular(outputs))) => outputs_amount(outputs@),
        _ => 0,
    }
}

/// Whether the message is one that the ledger can hold: if it carries a
/// transaction, the essence is regular and no output goes to the treasury.
pub open spec fn modelled(message: Message) -> bool {
    match message.spec_payload() {
        Some(Payload::Transaction(Essence::Regular(outputs))) => forall|i: int|
            0 <= i < outputs@.len() ==> !((#[trigger] outputs@[i]) is Treasury),
        Some(Payload::Transaction(Essence::Other(_))) => false,
        _ => true,
    }
}

/// The tokens that the outputs transfer, all together.
fn sum_outputs(outputs: &Vec<Output>) -> (sum: u128)
    ensures
        sum == outputs_amount(outputs@),
{
    let n: usize = outputs.len();
    let mut sum: u128 = 0;
    let mut j: usize = 0;
    while j < n
        invariant
            j <= n,
            n == outputs.len(),
            sum == outputs_amount(outputs@.take(j as int)),
            sum <= j * 0xffff_ffff_ffff_ffff,
        decreases n - j,
    {
        let amount: u64 = match outputs[j] {
            Output::SignatureLockedSingle(amount) => amount,
            Output::SignatureLockedDustAllowance(amount) => amount,
            Output::Treasury(_) => 0,
        };
        proof {
            assert(outputs@.take(j + 1).drop_last() =~= outputs@.take(j as int));
        }
        sum = sum + amount as u128;
        j += 1;
    }
    proof {
        assert(outputs@.take(n as int) =~= outputs@);
    }
    sum
}

/// Whether no output goes to the treasury.
fn no_treasury(outputs: &Vec<Output>) -> (none: bool)
    ensures
        none == forall|i: int| 0 <= i < outputs@.len() ==> !((#[trigger] outputs@[i]) is Treasury),
{
    let n: usize = outputs.len();
    let mut j: usize = 0;
    while j < n
        invariant
            j <= n,
            n == outputs.len(),
            forall|i: int| 0 <= i < j ==> !((#[trigger] outputs@[i]) is Treasury),
        decreases n - j,
    {
        if let Output::Treasury(_) = outputs[j] {
            return false;
        }
        j += 1;
    }
    true
}

impl Message {
    /// Whether the message carries a transaction.
    pub fn is_transaction(&self) -> (yes: bool)
        ensures
            yes == is_transaction(*self),
    {
        match self.payload() {
            Some(Payload::Transaction(_)) => true,
            _ => false,
        }
    }

    /// The tokens that the message transfers.
    pub fn tokens(&self) -> (tokens: u128)
        ensures
            tokens == message_tokens(*self),
    {
        match self.payload() {
            Some(Payload::Transaction(Essence::Regular(outputs))) => sum_outputs(outputs),
            _ => 0,
        }
    }

    /// Whether the message is one that the ledger can hold.
    pub fn is_modelled(&self) -> (yes: bool)
        ensures
            yes == modelled(*self),
    {
        match self.payload() {
            Some(Payload::Transaction(Essence::Regular(outputs))) => no_treasury(outputs),
            Some(Payload::Transaction(Essence::Other(_))) => false,
            _ => true,
        }
    }
}

/// What the node that delivered a message says of it.
#[derive(Debug, Copy, Clone, PartialEq, Eq)]
pub struct MessageMetadata {
    /// The identifier of the message.
    pub message_id: MessageId,
    /// The index of the milestone that references the message, once one does.
    pub referenced_by_milestone_index: Option<u32>,
}

/// A "full" message: the message together with its metadata.
#[derive(Debug, Clone, PartialEq, Eq)]
pub struct FullMessage(pub Message, pub MessageMetadata);

impl FullMessage {
    /// Makes a full message.
    pub fn new(message: Message, metadata: MessageMetadata) -> (full: FullMessage)
        ensures
            full.0 == message,
            full.1 == metadata,
    {
        FullMessage(message, metadata)
    }

    /// The identifier of the message.
    pub fn message_id(&self) -> (id: &MessageId)
        ensures
            *id == self.1.message_id,
    {
        &self.1.message_id
    }

    /// The metadata of the message.
    pub fn metadata(&self) -> (metadata: &MessageMetadata)
        ensures
            *metadata == self.1,
    {
        &self.1
    }

    /// The message.
    pub fn message(&self) -> (message: &Message)
        ensures
            *message == self.0,
    {
        &self.0
    }

    /// The index of the milestone that references the message, once one does.
    pub fn ref_ms(&self) -> (index: Option<u32>)
        ensures
            index == self.1.referenced_by_milestone_index,
    {
        self.1.referenced_by_milestone_index
    }
}

} // verus!
