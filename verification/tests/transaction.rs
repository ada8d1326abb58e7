use btdht::transaction::{
    AIDGenerator, ActionID, MIDGenerator, TransactionID, ACTION_ID_BYTES, MESSAGE_ID_BYTES,
    TRANSACTION_ID_BYTES,
};

#[test]
fn transaction_id_is_eight_bytes_in_two_halves() {
    assert_eq!(ACTION_ID_BYTES, 4);
    assert_eq!(MESSAGE_ID_BYTES, 4);
    assert_eq!(TRANSACTION_ID_BYTES, 8);
}

#[test]
fn to_bytes_concatenates_action_and_message() {
    let id = TransactionID { action: 0x0102_0304, message: 0xa0b0_c0d0 };
    assert_eq!(id.to_bytes(), vec![1, 2, 3, 4, 0xa0, 0xb0, 0xc0, 0xd0]);
}

#[test]
fn from_bytes_reads_what_to_bytes_wrote() {
    let id = TransactionID { action: 77, message: u32::MAX };
    assert_eq!(TransactionID::from_bytes(&id.to_bytes()), Some(id));
    assert_eq!(
        TransactionID::from_bytes(&[0, 0, 0, 5, 0, 0, 1, 0]),
        Some(TransactionID { action: 5, message: 256 })
    );
}

#[test]
fn from_bytes_refuses_other_lengths() {
    assert_eq!(TransactionID::from_bytes(&[]), None);
    assert_eq!(TransactionID::from_bytes(&[1, 2, 3, 4]), None);
    assert_eq!(TransactionID::from_bytes(&[0; 7]), None);
    assert_eq!(TransactionID::from_bytes(&[0; 9]), None);
}

#[test]
fn action_id_of_a_transaction_is_its_first_half() {
    let id = TransactionID { action: 9, message: 3 };
    assert_eq!(id.action_id(), ActionID::new(9));
    assert_eq!(id.message_id(), 3);
}

#[test]
fn aid_generator_hands_out_consecutive_actions() {
    let mut generator = AIDGenerator::new();
    let first = generator.generate();
    let second = generator.generate();
    assert_eq!(first.action_id(), ActionID { id: 0 });
    assert_eq!(second.action_id(), ActionID { id: 1 });
    assert_eq!(generator.next_alloc, 2);
}

#[test]
fn aid_generator_wraps_but_try_generate_does_not() {
    let mut generator = AIDGenerator { next_alloc: u32::MAX };
    assert!(generator.try_generate().is_none());
    assert_eq!(generator.next_alloc, u32::MAX);
    let last = generator.generate();
    assert_eq!(last.action_id().id, u32::MAX);
    assert_eq!(generator.next_alloc, 0);
    let mut generator = AIDGenerator { next_alloc: 41 };
    let fresh = generator.try_generate().unwrap();
    assert_eq!(fresh.action_id().id, 41);
    assert_eq!(generator.next_alloc, 42);
}

#[test]
fn mid_generator_issues_monotone_ids_of_one_action() {
    let mut generator = MIDGenerator::new(ActionID::new(6));
    let a = generator.generate();
    let b = generator.generate();
    let c = generator.generate();
    assert_eq!(a, TransactionID { action: 6, message: 0 });
    assert_eq!(b, TransactionID { action: 6, message: 1 });
    assert_eq!(c, TransactionID { action: 6, message: 2 });
    assert_eq!(generator.action_id(), ActionID::new(6));
}

#[test]
fn mid_generator_starts_over_after_the_largest() {
    let mut generator = MIDGenerator { action_id: ActionID::new(1), next_alloc: u32::MAX };
    assert_eq!(generator.generate().message, u32::MAX);
    assert_eq!(generator.generate().message, 0);
}
