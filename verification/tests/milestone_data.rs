use bee_message::milestone::MilestoneIndex;
use bee_message::parents::Parents;
use bee_message::payload::milestone::{MilestonePayload, MilestonePayloadEssence};
use chronicle_broker::analytics::Analytics;
use chronicle_broker::message::{Essence, FullMessage, Message, MessageId, MessageMetadata, Output, Payload};
use chronicle_broker::milestone::{AnalyticsError, CreatedBy, MilestoneData};

fn id(byte: u8) -> MessageId {
    MessageId::new([byte; 32])
}

fn full(byte: u8, payload: Option<Payload>, ref_ms: Option<u32>) -> FullMessage {
    FullMessage::new(
        Message::new(vec![byte, 0xff], payload),
        MessageMetadata { message_id: id(byte), referenced_by_milestone_index: ref_ms },
    )
}

fn transaction(outputs: Vec<Output>) -> Option<Payload> {
    Some(Payload::Transaction(Essence::Regular(outputs)))
}

fn milestone_payload(index: u32) -> Box<MilestonePayload> {
    let parents = Parents::new(vec![bee_message::MessageId::null()]).unwrap();
    let essence =
        MilestonePayloadEssence::new(MilestoneIndex(index), 0, parents, [0; 32], 0, 0, vec![[0; 32]], None)
            .unwrap();
    Box::new(MilestonePayload::new(essence, vec![[0; 64]]).unwrap())
}

#[test]
fn new_milestone_data_is_empty_and_incomplete() {
    let data = MilestoneData::new(17, CreatedBy::Syncer);
    assert_eq!(data.milestone_index(), 17);
    assert_eq!(*data.created_by(), CreatedBy::Syncer);
    assert!(!data.milestone_exist());
    assert!(data.milestone().is_none());
    assert!(data.messages().is_empty());
    assert!(data.pending().is_empty());
    assert!(!data.is_complete());
}

#[test]
fn completion_needs_the_payload_and_nothing_pending() {
    let mut data = MilestoneData::new(5, CreatedBy::Incoming);
    assert!(!data.is_complete());
    data.add_pending(id(1));
    data.add_pending(id(2));
    assert!(!data.is_complete());
    data.set_milestone(milestone_payload(5));
    assert!(data.milestone_exist());
    assert!(!data.is_complete());
    data.remove_from_pending(&id(1));
    assert!(!data.is_complete());
    data.remove_from_pending(&id(2));
    assert!(data.is_complete());
}

#[test]
fn nothing_pending_without_payload_is_incomplete() {
    let mut data = MilestoneData::new(5, CreatedBy::Expected);
    data.add_pending(id(1));
    data.remove_from_pending(&id(1));
    assert!(data.pending().is_empty());
    assert!(!data.is_complete());
}

#[test]
fn set_milestone_overwrites() {
    let mut data = MilestoneData::new(5, CreatedBy::Incoming);
    data.set_milestone(milestone_payload(5));
    data.set_milestone(milestone_payload(6));
    let index = data.milestone().as_ref().unwrap().essence().index();
    assert_eq!(index, MilestoneIndex(6));
    assert!(data.is_complete());
}

#[test]
fn add_full_message_keeps_the_last_write() {
    let mut data = MilestoneData::new(1, CreatedBy::Incoming);
    data.add_full_message(full(1, None, None));
    data.add_full_message(full(2, Some(Payload::Indexation), Some(1)));
    data.add_full_message(full(1, Some(Payload::Milestone), Some(1)));
    assert_eq!(data.messages().len(), 2);
    assert_eq!(data.messages()[0], full(1, Some(Payload::Milestone), Some(1)));
    assert_eq!(data.messages()[1], full(2, Some(Payload::Indexation), Some(1)));
}

#[test]
fn remove_from_pending_of_an_absent_id_changes_nothing() {
    let mut data = MilestoneData::new(1, CreatedBy::Incoming);
    data.add_pending(id(1));
    data.add_pending(id(3));
    data.remove_from_pending(&id(2));
    assert_eq!(data.pending(), &vec![id(1), id(3)]);
    data.remove_from_pending(&id(1));
    assert_eq!(data.pending(), &vec![id(3)]);
}

#[test]
fn add_pending_skips_what_is_held_or_pending() {
    let mut data = MilestoneData::new(1, CreatedBy::Incoming);
    data.add_full_message(full(1, None, None));
    data.add_pending(id(1));
    assert!(data.pending().is_empty());
    data.add_pending(id(2));
    data.add_pending(id(2));
    assert_eq!(data.pending(), &vec![id(2)]);
}

#[test]
fn analytics_of_no_message() {
    let data = MilestoneData::new(1, CreatedBy::Incoming);
    assert_eq!(data.get_analytics(), Analytics::default());
    assert_eq!(data.try_get_analytics(), Ok(Analytics::default()));
}

#[test]
fn analytics_count_messages_transactions_and_tokens() {
    let mut data = MilestoneData::new(1, CreatedBy::Incoming);
    data.add_full_message(full(1, None, Some(1)));
    data.add_full_message(full(2, Some(Payload::Indexation), Some(1)));
    data.add_full_message(full(
        3,
        transaction(vec![Output::SignatureLockedSingle(1_000_000), Output::SignatureLockedDustAllowance(250)]),
        Some(1),
    ));
    data.add_full_message(full(4, transaction(vec![Output::SignatureLockedSingle(u64::MAX)]), Some(1)));
    data.add_full_message(full(5, transaction(vec![]), Some(1)));
    data.add_full_message(full(6, Some(Payload::Milestone), Some(1)));
    assert!(data.is_modelled());
    let expected = Analytics {
        transaction_count: 3,
        message_count: 6,
        transferred_tokens: 1_000_250 + u64::MAX as u128,
    };
    assert_eq!(data.get_analytics(), expected);
    assert_eq!(data.try_get_analytics(), Ok(expected));
}

#[test]
fn analytics_of_two_milestones_add_up() {
    let mut first = MilestoneData::new(1, CreatedBy::Incoming);
    first.add_full_message(full(1, transaction(vec![Output::SignatureLockedSingle(10)]), Some(1)));
    let mut second = MilestoneData::new(2, CreatedBy::Incoming);
    second.add_full_message(full(2, transaction(vec![Output::SignatureLockedDustAllowance(5)]), Some(2)));
    second.add_full_message(full(3, None, Some(2)));
    let mut both = MilestoneData::new(2, CreatedBy::Syncer);
    for message in first.messages().iter().chain(second.messages().iter()) {
        both.add_full_message(message.clone());
    }
    assert_eq!(first.get_analytics() + second.get_analytics(), both.get_analytics());
    assert_eq!(
        both.get_analytics(),
        Analytics { transaction_count: 2, message_count: 3, transferred_tokens: 15 }
    );
}

#[test]
fn a_treasury_output_is_a_modeling_violation() {
    let mut data = MilestoneData::new(1, CreatedBy::Incoming);
    data.add_full_message(full(1, transaction(vec![Output::SignatureLockedSingle(1)]), Some(1)));
    data.add_full_message(full(
        2,
        transaction(vec![Output::SignatureLockedSingle(1), Output::Treasury(5)]),
        Some(1),
    ));
    assert!(!data.is_modelled());
    assert_eq!(data.try_get_analytics(), Err(AnalyticsError::ModelingViolation));
}

#[test]
fn an_essence_of_another_kind_is_a_modeling_violation() {
    let mut data = MilestoneData::new(1, CreatedBy::Incoming);
    data.add_full_message(full(1, Some(Payload::Transaction(Essence::Other(9))), Some(1)));
    assert!(!data.is_modelled());
    assert_eq!(data.try_get_analytics(), Err(AnalyticsError::ModelingViolation));
}

#[test]
fn message_readers() {
    let message = Message::new(
        vec![1, 2, 3],
        transaction(vec![Output::SignatureLockedSingle(3), Output::SignatureLockedDustAllowance(4)]),
    );
    assert_eq!(message.bytes(), &vec![1, 2, 3]);
    assert!(message.is_transaction());
    assert!(message.is_modelled());
    assert_eq!(message.tokens(), 7);
    let plain = Message::new(vec![], Some(Payload::Receipt));
    assert!(!plain.is_transaction());
    assert!(plain.is_modelled());
    assert_eq!(plain.tokens(), 0);
    assert_eq!(plain.payload(), &Some(Payload::Receipt));
    assert!(!Message::new(vec![], None).is_transaction());
    assert!(!Message::new(vec![], transaction(vec![Output::Treasury(1)])).is_modelled());
}

#[test]
fn full_message_readers() {
    let message = full(7, Some(Payload::TreasuryTransaction), Some(42));
    assert_eq!(*message.message_id(), id(7));
    assert_eq!(message.ref_ms(), Some(42));
    assert_eq!(message.metadata().referenced_by_milestone_index, Some(42));
    assert_eq!(message.message(), &Message::new(vec![7, 0xff], Some(Payload::TreasuryTransaction)));
    assert_eq!(full(8, None, None).ref_ms(), None);
}

#[test]
fn message_ids_compare_by_their_bytes() {
    let mut bytes = [0u8; 32];
    bytes[31] = 1;
    let a = MessageId::new(bytes);
    assert!(a.same(&MessageId::new(bytes)));
    assert!(!a.same(&id(0)));
    assert_eq!(a.as_bytes(), &bytes);
    bytes[0] = 1;
    assert!(!a.same(&MessageId::new(bytes)));
}

#[test]
fn into_messages_gives_the_messages() {
    let mut data = MilestoneData::new(1, CreatedBy::Incoming);
    data.add_full_message(full(1, None, None));
    data.add_full_message(full(2, None, None));
    let messages = data.into_messages();
    assert_eq!(messages, vec![full(1, None, None), full(2, None, None)]);
}

#[test]
fn created_by_has_its_number() {
    assert_eq!(u8::from(CreatedBy::Incoming), 0);
    assert_eq!(u8::from(CreatedBy::Expected), 1);
    assert_eq!(u8::from(CreatedBy::Syncer), 2);
}

#[test]
fn add_full_message_of_an_awaited_id_ends_the_wait() {
    let mut data = MilestoneData::new(1, CreatedBy::Incoming);
    data.add_pending(id(1));
    data.add_pending(id(2));
    data.add_pending(id(3));
    data.add_full_message(full(2, None, Some(1)));
    assert_eq!(data.messages(), &vec![full(2, None, Some(1))]);
    assert_eq!(data.pending(), &vec![id(1), id(3)]);
    data.add_full_message(full(4, None, Some(1)));
    assert_eq!(data.pending(), &vec![id(1), id(3)]);
    assert_eq!(data.messages().len(), 2);
}

#[test]
fn no_id_is_both_held_and_awaited() {
    let mut data = MilestoneData::new(1, CreatedBy::Syncer);
    data.set_milestone(milestone_payload(1));
    for byte in 0..6 {
        data.add_pending(id(byte));
    }
    for byte in [1, 3, 5, 7, 3] {
        data.add_full_message(full(byte, None, Some(1)));
        data.add_pending(id(byte));
    }
    data.remove_from_pending(&id(0));
    for message in data.messages() {
        assert!(!data.pending().contains(message.message_id()));
    }
    assert_eq!(data.pending(), &vec![id(2), id(4)]);
    assert_eq!(data.messages().len(), 4);
    assert!(!data.is_complete());
    data.add_full_message(full(2, None, Some(1)));
    data.add_full_message(full(4, None, Some(1)));
    assert!(data.is_complete());
}
