//! The data of one milestone while it is collected: the milestone's payload,
//! the messages that it confirms, and the messages that are still awaited.

use crate::analytics::Analytics;
use crate::message::{is_transaction, message_tokens, modelled, FullMessage, MessageId};
use bee_message::payload::milestone::MilestonePayload;
use crate::search::{first_index, first_where, lemma_first_index, lemma_first_where};
use vstd::prelude::*;

verus! {

/// The signed payload of a milestone, `MilestonePayload` of `bee_message`.
/// The library keeps such a payload and hands it on; it never looks inside.
#[verifier::external_type_specification]
#[verifier::external_body]
pub struct ExMilestonePayload(MilestonePayload);

/// Which source asked for a milestone's data to be collected.
#[derive(Debug, Copy, Clone, PartialEq, Eq, Structural)]
pub enum CreatedBy {
    /// Created by the new incoming messages from the network.
    Incoming,
    /// Created by the new expected messages from the network.
    Expected,
    /// Created by a solidify or sync request from the syncer.
    Syncer,
}

impl CreatedBy {
    /// The number that stands for the source where it is stored.
    pub open spec fn number(self) -> u8 {
        match self {
            CreatedBy::Incoming => 0,
            CreatedBy::Expected => 1,
            CreatedBy::Syncer => 2,
        }
    }
}

impl vstd::std_specs::convert::FromSpecImpl<CreatedBy> for u8 {
    open spec fn obeys_from_spec() -> bool {
        true
    }

    open spec fn from_spec(value: CreatedBy) -> u8 {
        value.number()
    }
}

impl From<CreatedBy> for u8 {
    fn from(value: CreatedBy) -> (number: u8) {
        match value {
            CreatedBy::Incoming => 0,
            CreatedBy::Expected => 1,
            CreatedBy::Syncer => 2,
        }
    }
}

/// Why the analytics of a milestone could not be had.
#[derive(Debug, Copy, Clone, PartialEq, Eq, Structural)]
pub enum AnalyticsError {
    /// A transaction has an essence that is not regular, or an output that no
    /// transaction can hold.
    ModelingViolation,
    /// The transferred tokens do not fit their counter.
    Overflow,
}

/// Whether all the messages are ones that the ledger can hold.
pub open spec fn all_modelled(messages: Seq<FullMessage>) -> bool {
    forall|i: int| 0 <= i < messages.len() ==> modelled((#[trigger] messages[i]).0)
}

/// How many of the messages carry a transaction.
pub open spec fn transactions(messages: Seq<FullMessage>) -> nat
    decreases messages.len(),
{
    if messages.len() == 0 {
        0
    } else {
        transactions(messages.drop_last()) + if is_transaction(messages.last().0) {
            1nat
        } else {
            0nat
        }
    }
}

/// The tokens that the messages transfer, all together.
pub open spec fn transferred(messages: Seq<FullMessage>) -> nat
    decreases messages.len(),
{
    if messages.len() == 0 {
        0
    } else {
        transferred(messages.drop_last()) + message_tokens(messages.last().0)
    }
}

/// The analytics of the messages: how many there are, how many of them carry
/// a transaction, and the tokens that they transfer.
pub open spec fn analytics_of(messages: Seq<FullMessage>) -> Analytics {
    Analytics {
        transaction_count: transactions(messages) as u128,
        message_count: messages.len() as u128,
        transferred_tokens: transferred(messages) as u128,
    }
}

/// The messages up to any place transfer no more tokens, and hold no more
/// transactions, than all of them; and there are no more transactions than
/// messages.
proof fn lemma_prefix_counts(messages: Seq<FullMessage>, k: int)
    requires
        0 <= k <= messages.len(),
    ensures
        transferred(messages.take(k)) <= transferred(messages),
        transactions(messages.take(k)) <= transactions(messages),
        transactions(messages.take(k)) <= k,
    decreases messages.len() - k,
{
    if k == messages.len() {
        assert(messages.take(k) =~= messages);
    } else {
        lemma_prefix_counts(messages, k + 1);
        assert(messages.take(k + 1).drop_last() =~= messages.take(k));
    }
    lemma_transactions_bound(messages.take(k));
}

/// There are no more transactions than messages.
proof fn lemma_transactions_bound(messages: Seq<FullMessage>)
    ensures
        transactions(messages) <= messages.len(),
    decreases messages.len(),
{
    if messages.len() > 0 {
        lemma_transactions_bound(messages.drop_last());
    }
}

/// The counts of two lists of messages, one after the other, are the sums of
/// their counts.
proof fn lemma_counts_concat(a: Seq<FullMessage>, b: Seq<FullMessage>)
    ensures
        transactions(a + b) == transactions(a) + transactions(b),
        transferred(a + b) == transferred(a) + transferred(b),
    decreases b.len(),
{
    if b.len() == 0 {
        assert(a + b =~= a);
    } else {
        lemma_counts_concat(a, b.drop_last());
        assert((a + b).drop_last() =~= a + b.drop_last());
        assert((a + b).last() == b.last());
    }
}

/// The analytics of two lists of messages, one after the other, are the sum of
/// the analytics of each, wherever the counters hold them.
pub proof fn lemma_analytics_concat(a: Seq<FullMessage>, b: Seq<FullMessage>)
    requires
        a.len() + b.len() <= u128::MAX,
        transferred(a) + transferred(b) <= u128::MAX,
    ensures
        analytics_of(a).fits_with(analytics_of(b)),
        analytics_of(a + b) == analytics_of(a).plus(analytics_of(b)),
{
    lemma_counts_concat(a, b);
    lemma_transactions_bound(a);
    lemma_transactions_bound(b);
}

/// What is wanted where the message with the identifier `id` is looked for.
pub open spec fn held_under(id: MessageId) -> spec_fn(FullMessage) -> bool {
    |message: FullMessage| message.1.message_id == id
}

/// The first place at or after `from` at which `messages` holds the message
/// with the identifier `id`.
pub open spec fn first_held(messages: Seq<FullMessage>, id: MessageId, from: int) -> Option<int> {
    first_where(messages, held_under(id), from)
}

/// The data of a milestone.
pub struct MilestoneData {
    pub(crate) milestone_index: u32,
    pub(crate) milestone: Option<Box<MilestonePayload>>,
    /// The messages of the milestone; no identifier twice.
    pub(crate) messages: Vec<FullMessage>,
    /// The identifiers of the messages that are still awaited; none twice.
    pub(crate) pending: Vec<MessageId>,
    pub(crate) created_by: CreatedBy,
}

/// What a `MilestoneData` holds.
pub ghost struct MilestoneDataView {
    pub milestone_index: u32,
    pub milestone: Option<Box<MilestonePayload>>,
    pub messages: Seq<FullMessage>,
    pub pending: Seq<MessageId>,
    pub created_by: CreatedBy,
}

impl View for MilestoneData {
    type V = MilestoneDataView;

    closed spec fn view(&self) -> MilestoneDataView {
        MilestoneDataView {
            milestone_index: self.milestone_index,
            milestone: self.milestone,
            messages: self.messages@,
            pending: self.pending@,
            created_by: self.created_by,
        }
    }
}

impl MilestoneDataView {
    /// Whether the message with the identifier `id` is held.
    pub open spec fn holds(self, id: MessageId) -> bool {
        exists|i: int| 0 <= i < self.messages.len() && (#[trigger] self.messages[i]).1.message_id == id
    }

    /// Whether the message with the identifier `id` is awaited.
    pub open spec fn awaits(self, id: MessageId) -> bool {
        self.pending.contains(id)
    }

    /// No identifier occurs twice: not among the messages, not among the
    /// awaited ones, and none is both held and awaited. New milestone data is
    /// well formed, and every operation keeps it so.
    pub open spec fn wf(self) -> bool {
        &&& forall|i: int, j: int|
            0 <= i < j < self.messages.len() ==> (#[trigger] self.messages[i]).1.message_id != (
            #[trigger] self.messages[j]).1.message_id
        &&& forall|i: int, j: int|
            0 <= i < j < self.pending.len() ==> (#[trigger] self.pending[i]) != (
            #[trigger] self.pending[j])
        &&& forall|id: MessageId| !(#[trigger] self.holds(id) && self.awaits(id))
    }

    /// The milestone is complete: its payload is there and nothing is awaited.
    pub open spec fn complete(self) -> bool {
        self.milestone is Some && self.pending.len() == 0
    }
}

/// A search that finds nothing from `from` on finds the identifier nowhere at
/// or after `from`; one that finds a place finds the first one.
proof fn lemma_first_held(messages: Seq<FullMessage>, id: MessageId, from: int)
    requires
        0 <= from,
    ensures
        match first_held(messages, id, from) {
            Some(i) => from <= i < messages.len() && messages[i].1.message_id == id && forall|j: int|
                from <= j < i ==> (#[trigger] messages[j]).1.message_id != id,
            None => forall|j: int|
                from <= j < messages.len() ==> (#[trigger] messages[j]).1.message_id != id,
        },
{
    lemma_first_where(messages, held_under(id), from);
}

impl MilestoneData {
    /// Makes the data of the milestone `milestone_index`, with no payload, no
    /// message and nothing awaited.
    pub fn new(milestone_index: u32, created_by: CreatedBy) -> (data: MilestoneData)
        ensures
            data@.milestone_index == milestone_index,
            data@.created_by == created_by,
            data@.milestone is None,
            data@.messages.len() == 0,
            data@.pending.len() == 0,
            data@.wf(),
            !data@.complete(),
    {
        MilestoneData {
            milestone_index,
            milestone: None,
            messages: Vec::new(),
            pending: Vec::new(),
            created_by,
        }
    }

    /// Get the milestone index from this milestone data.
    pub fn milestone_index(&self) -> (index: u32)
        ensures
            index == self@.milestone_index,
    {
        self.milestone_index
    }

    /// Sets the payload of the milestone, in place of any that was set before.
    pub fn set_milestone(&mut self, boxed_milestone_payload: Box<MilestonePayload>)
        ensures
            final(self)@ == (MilestoneDataView {
                milestone: Some(boxed_milestone_payload),
                ..old(self)@
            }),
            old(self)@.wf() ==> final(self)@.wf(),
    {
        let ghost before = self@;
        self.milestone = Some(boxed_milestone_payload);
        proof {
            let after = self@;
            if before.wf() {
                assert forall|id: MessageId| !(#[trigger] after.holds(id) && after.awaits(id)) by {
                    assert(after.holds(id) == before.holds(id));
                }
            }
        }
    }

    /// The payload of the milestone, once it is set.
    pub fn milestone(&self) -> (milestone: &Option<Box<MilestonePayload>>)
        ensures
            *milestone == self@.milestone,
    {
        &self.milestone
    }

    /// Check if the milestone exists.
    pub fn milestone_exist(&self) -> (exists: bool)
        ensures
            exists == self@.milestone is Some,
    {
        self.milestone.is_some()
    }

    /// Whether the milestone is complete: its payload is set and no message
    /// is awaited.
    pub fn is_complete(&self) -> (complete: bool)
        ensures
            complete == self@.complete(),
    {
        self.milestone.is_some() && self.pending.len() == 0
    }

    /// Where the message with the identifier `id` is held, if it is.
    fn position(&self, id: &MessageId) -> (place: Option<usize>)
        ensures
            match place {
                Some(i) => first_held(self@.messages, *id, 0) == Some(i as int),
                None => first_held(self@.messages, *id, 0) is None,
            },
    {
        let n: usize = self.messages.len();
        let mut i: usize = 0;
        while i < n
            invariant
                i <= n,
                n == self.messages.len(),
                first_held(self@.messages, *id, 0) == first_held(self@.messages, *id, i as int),
            decreases n - i,
        {
            if self.messages[i].1.message_id.same(id) {
                return Some(i);
            }
            i += 1;
        }
        None
    }

    /// Where the identifier `id` stands among the awaited ones, if it does.
    fn pending_position(&self, id: &MessageId) -> (place: Option<usize>)
        ensures
            match place {
                Some(i) => first_index(self@.pending, *id, 0) == Some(i as int),
                None => first_index(self@.pending, *id, 0) is None,
            },
    {
        let n: usize = self.pending.len();
        let mut i: usize = 0;
        while i < n
            invariant
                i <= n,
                n == self.pending.len(),
                first_index(self@.pending, *id, 0) == first_index(self@.pending, *id, i as int),
            decreases n - i,
        {
            if self.pending[i].same(id) {
                return Some(i);
            }
            i += 1;
        }
        None
    }

    /// Adds a message to the milestone. A message that is held under the same
    /// identifier gives way to the new one, and the identifier is awaited no
    /// longer.
    pub fn add_full_message(&mut self, full_message: FullMessage)
        ensures
            final(self)@ == (MilestoneDataView {
                messages: match first_held(old(self)@.messages, full_message.1.message_id, 0) {
                    Some(i) => old(self)@.messages.update(i, full_message),
                    None => old(self)@.messages.push(full_message),
                },
                pending: match first_index(old(self)@.pending, full_message.1.message_id, 0) {
                    Some(i) => old(self)@.pending.remove(i),
                    None => old(self)@.pending,
                },
                ..old(self)@
            }),
            final(self)@.holds(full_message.1.message_id),
            old(self)@.wf() ==> final(self)@.wf(),
    {
        let message_id = full_message.1.message_id;
        self.remove_from_pending(&message_id);
        let ghost before = self@;
        let ghost id = full_message.1.message_id;
        proof {
            lemma_first_held(before.messages, id, 0);
        }
        match self.position(&full_message.1.message_id) {
            Some(i) => {
                self.messages[i] = full_message;
                proof {
                    let after = self@;
                    assert(after.messages[i as int].1.message_id == id);
                    if before.wf() && !before.awaits(id) {
                        assert forall|a: int, b: int| 0 <= a < b < after.messages.len() implies (
                        #[trigger] after.messages[a]).1.message_id != (
                        #[trigger] after.messages[b]).1.message_id by {
                            assert(after.messages[a].1.message_id
                                == before.messages[a].1.message_id);
                            assert(after.messages[b].1.message_id
                                == before.messages[b].1.message_id);
                        }
                        assert forall|other: MessageId| !(#[trigger] after.holds(other)
                            && after.awaits(other)) by {
                            if after.holds(other) {
                                let a = choose|a: int|
                                    0 <= a < after.messages.len() && (
                                    #[trigger] after.messages[a]).1.message_id == other;
                                assert(before.messages[a].1.message_id == other);
                                assert(before.holds(other));
                            }
                        }
                    }
                }
            },
            None => {
                self.messages.push(full_message);
                proof {
                    let after = self@;
                    assert(after.messages[before.messages.len() as int].1.message_id == id);
                    if before.wf() && !before.awaits(id) {
                        assert forall|a: int, b: int| 0 <= a < b < after.messages.len() implies (
                        #[trigger] after.messages[a]).1.message_id != (
                        #[trigger] after.messages[b]).1.message_id by {
                            assert(after.messages[a] == before.messages[a]);
                            if b < before.messages.len() {
                                assert(after.messages[b] == before.messages[b]);
                            }
                        }
                        assert forall|other: MessageId| !(#[trigger] after.holds(other)
                            && after.awaits(other)) by {
                            if after.holds(other) && other != id {
                                let a = choose|a: int|
                                    0 <= a < after.messages.len() && (
                                    #[trigger] after.messages[a]).1.message_id == other;
                                assert(before.messages[a].1.message_id == other);
                                assert(before.holds(other));
                            }
                        }
                    }
                }
            },
        }
    }

    /// Notes that the message with the identifier `message_id` is awaited,
    /// unless it is held or awaited already.
    pub fn add_pending(&mut self, message_id: MessageId)
        ensures
            final(self)@ == (if old(self)@.holds(message_id) || old(self)@.awaits(message_id) {
                old(self)@
            } else {
                MilestoneDataView { pending: old(self)@.pending.push(message_id), ..old(self)@ }
            }),
            final(self)@.holds(message_id) || final(self)@.awaits(message_id),
            old(self)@.wf() ==> final(self)@.wf(),
    {
        let ghost before = self@;
        proof {
            lemma_first_held(before.messages, message_id, 0);
            lemma_first_index(before.pending, message_id, 0);
        }
        let held = self.position(&message_id);
        let listed = self.pending_position(&message_id);
        if held.is_none() && listed.is_none() {
            self.pending.push(message_id);
            proof {
                let after = self@;
                assert(after.pending[before.pending.len() as int] == message_id);
                assert(!before.holds(message_id));
                assert(!before.awaits(message_id));
                if before.wf() {
                    assert forall|a: int, b: int| 0 <= a < b < after.pending.len() implies (
                    #[trigger] after.pending[a]) != (#[trigger] after.pending[b]) by {
                        assert(after.pending[a] == before.pending[a]);
                        if b < before.pending.len() {
                            assert(after.pending[b] == before.pending[b]);
                        }
                    }
                    assert forall|other: MessageId| !(#[trigger] after.holds(other)
                        && after.awaits(other)) by {
                        if after.awaits(other) && other != message_id {
                            let a = choose|a: int|
                                0 <= a < after.pending.len() && after.pending[a] == other;
                            assert(before.pending[a] == other);
                            assert(before.awaits(other));
                        }
                        assert(after.holds(other) == before.holds(other));
                    }
                }
            }
        } else {
            proof {
                if held is Some {
                    assert(before.messages[held->0 as int].1.message_id == message_id);
                } else {
                    assert(before.pending[listed->0 as int] == message_id);
                }
            }
        }
    }

    /// Notes that the message with the identifier `message_id` is awaited no
    /// longer. Nothing changes if it was not awaited.
    pub fn remove_from_pending(&mut self, message_id: &MessageId)
        ensures
            final(self)@ == (MilestoneDataView {
                pending: match first_index(old(self)@.pending, *message_id, 0) {
                    Some(i) => old(self)@.pending.remove(i),
                    None => old(self)@.pending,
                },
                ..old(self)@
            }),
            !old(self)@.awaits(*message_id) ==> final(self)@ == old(self)@,
            old(self)@.wf() ==> final(self)@.wf() && !final(self)@.awaits(*message_id),
    {
        let ghost before = self@;
        proof {
            lemma_first_index(before.pending, *message_id, 0);
        }
        match self.pending_position(message_id) {
            Some(i) => {
                let _ = self.pending.remove(i);
                proof {
                    let after = self@;
                    assert(before.pending[i as int] == *message_id);
                    assert(before.awaits(*message_id));
                    assert forall|a: int| 0 <= a < after.pending.len() implies (
                    #[trigger] after.pending[a]) == before.pending[if a < i {
                        a
                    } else {
                        a + 1
                    }] by {}
                    if before.wf() {
                        assert forall|a: int, b: int| 0 <= a < b < after.pending.len() implies (
                        #[trigger] after.pending[a]) != (#[trigger] after.pending[b]) by {
                            let a0 = if a < i { a } else { a + 1 };
                            let b0 = if b < i { b } else { b + 1 };
                            assert(before.pending[a0] != before.pending[b0]);
                        }
                        assert forall|other: MessageId| #[trigger]
                            after.awaits(other) implies before.awaits(other) && other
                            != *message_id by {
                            let a = choose|a: int|
                                0 <= a < after.pending.len() && after.pending[a] == other;
                            let a0 = if a < i { a } else { a + 1 };
                            assert(before.pending[a0] == other);
                            if a0 < i {
                                assert(before.pending[a0] != before.pending[i as int]);
                            } else {
                                assert(before.pending[i as int] != before.pending[a0]);
                            }
                        }
                        assert forall|other: MessageId| !(#[trigger] after.holds(other)
                            && after.awaits(other)) by {
                            assert(after.holds(other) == before.holds(other));
                        }
                    }
                }
            },
            None => {
                proof {
                    if before.awaits(*message_id) {
                        let a = choose|a: int|
                            0 <= a < before.pending.len() && before.pending[a] == *message_id;
                        assert(before.pending[a] != *message_id);
                    }
                }
            },
        }
    }

    /// Whether all the messages are ones that the ledger can hold.
    pub fn is_modelled(&self) -> (yes: bool)
        ensures
            yes == all_modelled(self@.messages),
    {
        let n: usize = self.messages.len();
        let mut k: usize = 0;
        while k < n
            invariant
                k <= n,
                n == self.messages.len(),
                forall|i: int| 0 <= i < k ==> modelled((#[trigger] self@.messages[i]).0),
            decreases n - k,
        {
            if !self.messages[k].0.is_modelled() {
                return false;
            }
            k += 1;
        }
        true
    }

    /// Walks the messages once and counts; gives nothing if the transferred
    /// tokens outgrow their counter.
    fn tally(&self) -> (analytics: Option<Analytics>)
        ensures
            match analytics {
                Some(analytics) => transferred(self@.messages) <= u128::MAX && analytics
                    == analytics_of(self@.messages),
                None => transferred(self@.messages) > u128::MAX,
            },
    {
        // The accumulators
        let mut transaction_count: u128 = 0;
        let mut message_count: u128 = 0;
        let mut transferred_tokens: u128 = 0;
        let n: usize = self.messages.len();
        let mut k: usize = 0;
        while k < n
            invariant
                k <= n,
                n == self.messages.len(),
                message_count == k,
                transaction_count == transactions(self@.messages.take(k as int)),
                transferred_tokens == transferred(self@.messages.take(k as int)),
            decreases n - k,
        {
            let message = &self.messages[k].0;
            proof {
                assert(self@.messages.take(k + 1).drop_last() =~= self@.messages.take(k as int));
                lemma_prefix_counts(self@.messages, k as int);
                lemma_prefix_counts(self@.messages, k + 1);
            }
            // Accumulate the message count
            message_count += 1;
            if message.is_transaction() {
                // Accumulate the transaction count
                transaction_count += 1;
                // Accumulate the transferred token amount
                match transferred_tokens.checked_add(message.tokens()) {
                    Some(sum) => {
                        transferred_tokens = sum;
                    },
                    None => {
                        return None;
                    },
                }
            }
            k += 1;
        }
        proof {
            assert(self@.messages.take(n as int) =~= self@.messages);
        }
        Some(Analytics { transaction_count, message_count, transferred_tokens })
    }

    /// Get the analytics from the collected messages. Every message has to be
    /// one that the ledger can hold, and the transferred tokens have to fit
    /// their counter.
    pub fn get_analytics(&self) -> (analytics: Analytics)
        requires
            all_modelled(self@.messages),
            transferred(self@.messages) <= u128::MAX,
        ensures
            analytics == analytics_of(self@.messages),
    {
        self.tally().unwrap()
    }

    /// Get the analytics from the collected messages, or the reason why there
    /// are none: a message that the ledger cannot hold, or else more
    /// transferred tokens than the counter holds.
    pub fn try_get_analytics(&self) -> (analytics: Result<Analytics, AnalyticsError>)
        ensures
            !all_modelled(self@.messages) ==> analytics == Err::<Analytics, AnalyticsError>(
                AnalyticsError::ModelingViolation,
            ),
            all_modelled(self@.messages) && transferred(self@.messages) > u128::MAX ==> analytics
                == Err::<Analytics, AnalyticsError>(AnalyticsError::Overflow),
            all_modelled(self@.messages) && transferred(self@.messages) <= u128::MAX ==> analytics
                == Ok::<Analytics, AnalyticsError>(analytics_of(self@.messages)),
    {
        if !self.is_modelled() {
            return Err(AnalyticsError::ModelingViolation);
        }
        match self.tally() {
            Some(analytics) => Ok(analytics),
            None => Err(AnalyticsError::Overflow),
        }
    }

    /// Get the milestone's messages.
    pub fn messages(&self) -> (messages: &Vec<FullMessage>)
        ensures
            messages@ == self@.messages,
    {
        &self.messages
    }

    /// Get the identifiers of the pending messages.
    pub fn pending(&self) -> (pending: &Vec<MessageId>)
        ensures
            pending@ == self@.pending,
    {
        &self.pending
    }

    /// Get the source this was created by.
    pub fn created_by(&self) -> (created_by: &CreatedBy)
        ensures
            *created_by == self@.created_by,
    {
        &self.created_by
    }

    /// Gives up the milestone data for its messages.
    pub fn into_messages(self) -> (messages: Vec<FullMessage>)
        ensures
            messages@ == self@.messages,
    {
        self.messages
    }
}

} // verus!
