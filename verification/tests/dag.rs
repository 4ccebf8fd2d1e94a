//! The message graph.

use mikall::messaging::{DagInsert, Message, MessageBody, MessageDag, MessageId};
use mikall::shared::{IdentityId, LamportStamp};

fn author(n: u8) -> IdentityId {
    IdentityId::from_bytes([n; 32])
}

fn mid(n: u8) -> MessageId {
    MessageId::from_bytes([n; 32])
}

fn msg(id: u8, by: u8, lamport: u64, parents: Vec<MessageId>) -> Message {
    Message::authored(
        mid(id),
        author(by),
        lamport,
        parents,
        MessageBody::parse(&format!("m{id}")).unwrap(),
        0,
    )
}

#[test]
fn genesis_message_becomes_head() {
    let mut dag = MessageDag::new();
    assert_eq!(
        dag.insert(msg(1, 1, 1, vec![])),
        DagInsert::Applied { unblocked: vec![] }
    );
    assert_eq!(dag.heads(), vec![mid(1)]);
    assert_eq!(dag.max_lamport(), 1);
}

#[test]
fn duplicate_is_reported() {
    let mut dag = MessageDag::new();
    dag.insert(msg(1, 1, 1, vec![]));
    assert_eq!(dag.insert(msg(1, 1, 1, vec![])), DagInsert::Duplicate);
}

#[test]
fn out_of_order_arrival_buffers_then_applies() {
    let mut dag = MessageDag::new();
    let child = msg(2, 1, 2, vec![mid(1)]);
    assert_eq!(
        dag.insert(child),
        DagInsert::Pending {
            missing: vec![mid(1)]
        }
    );
    assert_eq!(dag.missing_parents(), vec![mid(1)]);
    assert_eq!(
        dag.insert(msg(1, 1, 1, vec![])),
        DagInsert::Applied {
            unblocked: vec![mid(2)]
        }
    );
    assert_eq!(dag.heads(), vec![mid(2)]);
    assert!(dag.missing_parents().is_empty());
    assert_eq!(dag.len(), 2);
}

#[test]
fn deep_pending_chain_cascades() {
    let mut dag = MessageDag::new();
    dag.insert(msg(3, 1, 3, vec![mid(2)]));
    dag.insert(msg(2, 1, 2, vec![mid(1)]));
    let result = dag.insert(msg(1, 1, 1, vec![]));
    assert_eq!(
        result,
        DagInsert::Applied {
            unblocked: vec![mid(2), mid(3)]
        }
    );
    assert_eq!(dag.heads(), vec![mid(3)]);
}

#[test]
fn concurrent_messages_merge_at_next_message() {
    let mut dag = MessageDag::new();
    dag.insert(msg(1, 1, 1, vec![]));
    dag.insert(msg(2, 2, 2, vec![mid(1)]));
    dag.insert(msg(3, 3, 2, vec![mid(1)])); // concurrent with 2
    assert_eq!(dag.heads().len(), 2);
    dag.insert(msg(4, 1, 3, vec![mid(2), mid(3)]));
    assert_eq!(dag.heads(), vec![mid(4)]);
    let order: Vec<MessageId> = dag.linearize().iter().map(|m| m.id()).collect();
    assert_eq!(order, vec![mid(1), mid(2), mid(3), mid(4)]);
}

#[test]
fn linearize_ties_break_by_author_then_id() {
    let mut dag = MessageDag::new();
    dag.insert(msg(9, 2, 1, vec![]));
    dag.insert(msg(5, 1, 1, vec![]));
    let order: Vec<MessageId> = dag.linearize().iter().map(|m| m.id()).collect();
    // Same lamport: author 1 sorts before author 2.
    assert_eq!(order, vec![mid(5), mid(9)]);
}

/// The core decentralization property: any arrival order of the same
/// message set linearizes identically.
#[test]
fn linearization_is_arrival_order_independent() {
    // A fixed little graph: root, two concurrent children, a merge, and a
    // second author chain.
    let messages = vec![
        msg(1, 1, 1, vec![]),
        msg(2, 1, 2, vec![mid(1)]),
        msg(3, 2, 2, vec![mid(1)]),
        msg(4, 2, 3, vec![mid(2), mid(3)]),
        msg(5, 1, 4, vec![mid(4)]),
        msg(6, 3, 1, vec![]),
    ];
    let mut reference = MessageDag::new();
    for m in &messages {
        reference.insert(m.clone());
    }
    let expected: Vec<MessageId> = reference.linearize().iter().map(|m| m.id()).collect();
    assert_eq!(
        expected,
        vec![mid(1), mid(6), mid(2), mid(3), mid(4), mid(5)]
    );

    for seed in 0u64..1000 {
        // Shuffled arrival driven by the seed (deterministic xorshift).
        let mut order: Vec<usize> = (0..messages.len()).collect();
        let mut state = seed.wrapping_add(0x9E37_79B9_7F4A_7C15);
        for i in (1..order.len()).rev() {
            state ^= state << 13;
            state ^= state >> 7;
            state ^= state << 17;
            let j = (state as usize) % (i + 1);
            order.swap(i, j);
        }
        let mut shuffled = MessageDag::new();
        for idx in order {
            shuffled.insert(messages[idx].clone());
        }
        let got: Vec<MessageId> = shuffled.linearize().iter().map(|m| m.id()).collect();
        assert_eq!(got, expected, "seed {seed}");
        assert_eq!(shuffled.heads(), reference.heads(), "seed {seed}");
    }
}

#[test]
fn messages_are_ordered_by_clock_then_author_then_id() {
    let m = msg(9, 2, 7, vec![mid(1)]);
    assert_eq!(m.order_key(), (7, author(2), mid(9)));
    assert_eq!(m.stamp(), LamportStamp::new(7, author(2)));
}

#[test]
fn what_is_buffered_is_not_asked_for() {
    let mut dag = MessageDag::new();
    dag.insert(msg(3, 1, 3, vec![mid(2)]));
    assert_eq!(dag.missing_parents(), vec![mid(2)]);
    // Two arrives and waits itself: only its own parent is missing now.
    dag.insert(msg(2, 1, 2, vec![mid(1)]));
    assert!(dag.contains(&mid(2)));
    assert_eq!(dag.missing_parents(), vec![mid(1)]);
}
