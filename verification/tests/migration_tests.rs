use uring::migration::{
    accept, do_migrate, expected_ack, try_ack, Event, MigrationAck, MigrationMsg, Outbound, Phase,
    Step,
};
use uring::vnode::{Cmd, Outcome, Task, VNodeManager, Violation};

fn s(x: &str) -> String {
    x.to_string()
}

/// Runs one transfer from `a` to `b`. `fail_at` names the message, counted
/// from 0, whose answer is lost. Returns the messages sent and the last
/// outcome of the sending manager.
fn transfer(
    a: &mut VNodeManager,
    b: &mut VNodeManager,
    target: &str,
    vnode: u64,
    fail_at: Option<usize>,
) -> (Vec<MigrationMsg>, Outcome) {
    let mut session = Outbound::new(s(target), vnode);
    let mut trace = Vec::new();
    let mut step = do_migrate(&mut session, Event::Connected);
    loop {
        match step {
            Step::Send(msg) => {
                let n = trace.len();
                trace.push(msg.clone());
                if fail_at == Some(n) {
                    step = do_migrate(&mut session, Event::TransportFailed);
                } else {
                    let (task, ack) = accept(msg);
                    b.handle_tick(task);
                    step = do_migrate(&mut session, Event::Acked(ack));
                }
            }
            Step::Fetch { vnode, chunk } => {
                match a.handle_cmd(Cmd::GetMigrationData { vnode, chunk }) {
                    Outcome::Reply { chunk, data } => {
                        step = do_migrate(&mut session, Event::Chunk { chunk, data });
                    }
                    _ => {
                        step = do_migrate(&mut session, Event::ChunkUnavailable);
                    }
                }
            }
            Step::Finish { vnode } => {
                return (trace, a.handle_cmd(Cmd::FinishMigration { vnode }));
            }
            Step::Cancel { vnode, target } => {
                return (trace, a.handle_cmd(Cmd::CancelMigration { vnode, target }));
            }
            Step::Idle => panic!("the transfer ended without a last step"),
        }
    }
}

#[test]
fn vnode_transfer() {
    let mut a = VNodeManager::new(s("A"));
    let mut b = VNodeManager::new(s("B"));
    a.handle_tick(Task::Assign { vnodes: vec![0, 1, 2, 3, 4, 5, 6, 7] });
    let out = a.handle_tick(Task::MigrateOut { target: s("B"), vnode: 4 });
    assert_eq!(out, Outcome::Spawn { target: s("B"), vnode: 4 });
    assert!(a.is_migrating(4));
    let (trace, last) = transfer(&mut a, &mut b, "B", 4, None);
    assert_eq!(
        trace,
        vec![
            MigrationMsg::Start { src: s(""), vnode: 4 },
            MigrationMsg::Data { vnode: 4, chunk: 0, data: vec![s("A")] },
            MigrationMsg::Finish { vnode: 4 },
        ]
    );
    assert_eq!(last, Outcome::Done);
    assert!(!a.owns(4));
    assert!(a.owns(3));
    assert_eq!(b.data_of(4), Some(vec![s("A"), s("B")]));
    assert!(!b.is_migrating(4));
}

#[test]
fn failed_start_is_queued_again_and_then_succeeds() {
    let mut a = VNodeManager::new(s("A"));
    let mut b = VNodeManager::new(s("B"));
    a.handle_tick(Task::Assign { vnodes: vec![4] });
    a.handle_tick(Task::MigrateOut { target: s("B"), vnode: 4 });
    let (trace, last) = transfer(&mut a, &mut b, "B", 4, Some(0));
    assert_eq!(trace.len(), 1);
    assert_eq!(last, Outcome::Requeue { target: s("B"), vnode: 4 });
    assert!(a.owns(4));
    assert!(!a.is_migrating(4));
    assert_eq!(a.data_of(4), Some(vec![s("A")]));
    assert!(!b.owns(4));
    let out = a.handle_tick(Task::MigrateOut { target: s("B"), vnode: 4 });
    assert_eq!(out, Outcome::Spawn { target: s("B"), vnode: 4 });
    let (_, last) = transfer(&mut a, &mut b, "B", 4, None);
    assert_eq!(last, Outcome::Done);
    assert!(!a.owns(4));
    assert_eq!(b.data_of(4), Some(vec![s("A"), s("B")]));
}

#[test]
fn failure_mid_stream_is_queued_again() {
    let mut a = VNodeManager::new(s("A"));
    let mut b = VNodeManager::new(s("B"));
    a.handle_tick(Task::Assign { vnodes: vec![4] });
    a.handle_tick(Task::MigrateOut { target: s("B"), vnode: 4 });
    let (trace, last) = transfer(&mut a, &mut b, "B", 4, Some(1));
    assert_eq!(trace.len(), 2);
    assert_eq!(last, Outcome::Requeue { target: s("B"), vnode: 4 });
    assert_eq!(a.data_of(4), Some(vec![s("A")]));
    assert!(!a.is_migrating(4));
    let mut fresh = VNodeManager::new(s("B"));
    a.handle_tick(Task::MigrateOut { target: s("B"), vnode: 4 });
    let (_, last) = transfer(&mut a, &mut fresh, "B", 4, None);
    assert_eq!(last, Outcome::Done);
    assert!(!a.owns(4));
    assert_eq!(fresh.data_of(4), Some(vec![s("A"), s("B")]));
}

#[test]
fn wrong_answers_cancel() {
    let mut session = Outbound::new(s("B"), 4);
    do_migrate(&mut session, Event::Connected);
    assert_eq!(session.current_phase(), Phase::Starting);
    let step = do_migrate(&mut session, Event::Acked(MigrationAck::Start { vnode: 5 }));
    assert_eq!(step, Step::Cancel { vnode: 4, target: s("B") });
    assert_eq!(session.current_phase(), Phase::Cancelled);
    assert_eq!(do_migrate(&mut session, Event::Connected), Step::Idle);

    let mut session = Outbound::new(s("B"), 4);
    assert_eq!(
        do_migrate(&mut session, Event::ConnectFailed),
        Step::Cancel { vnode: 4, target: s("B") }
    );

    let mut session = Outbound::new(s("B"), 4);
    do_migrate(&mut session, Event::Connected);
    do_migrate(&mut session, Event::Acked(MigrationAck::Start { vnode: 4 }));
    assert_eq!(session.current_phase(), Phase::Fetching { chunk: 0 });
    let step = do_migrate(&mut session, Event::Chunk { chunk: 0, data: vec![s("x")] });
    assert_eq!(step, Step::Send(MigrationMsg::Data { vnode: 4, chunk: 0, data: vec![s("x")] }));
    let step = do_migrate(&mut session, Event::Acked(MigrationAck::Data { chunk: 1 }));
    assert_eq!(step, Step::Cancel { vnode: 4, target: s("B") });
}

#[test]
fn chunks_go_out_in_order() {
    let mut session = Outbound::new(s("B"), 9);
    assert_eq!(
        do_migrate(&mut session, Event::Connected),
        Step::Send(MigrationMsg::Start { src: s(""), vnode: 9 })
    );
    assert_eq!(
        do_migrate(&mut session, Event::Acked(MigrationAck::Start { vnode: 9 })),
        Step::Fetch { vnode: 9, chunk: 0 }
    );
    do_migrate(&mut session, Event::Chunk { chunk: 0, data: vec![s("x")] });
    assert_eq!(
        do_migrate(&mut session, Event::Acked(MigrationAck::Data { chunk: 0 })),
        Step::Fetch { vnode: 9, chunk: 1 }
    );
    assert_eq!(
        do_migrate(&mut session, Event::Chunk { chunk: 1, data: vec![] }),
        Step::Send(MigrationMsg::Finish { vnode: 9 })
    );
    assert_eq!(
        do_migrate(&mut session, Event::Acked(MigrationAck::Finish { vnode: 9 })),
        Step::Finish { vnode: 9 }
    );
    assert_eq!(session.current_phase(), Phase::Finished);
}

#[test]
fn acknowledgements_match_their_messages() {
    let start = MigrationMsg::Start { src: s("A"), vnode: 3 };
    let data = MigrationMsg::Data { vnode: 3, chunk: 2, data: vec![s("x")] };
    let finish = MigrationMsg::Finish { vnode: 3 };
    assert_eq!(expected_ack(&start), MigrationAck::Start { vnode: 3 });
    assert_eq!(expected_ack(&data), MigrationAck::Data { chunk: 2 });
    assert_eq!(expected_ack(&finish), MigrationAck::Finish { vnode: 3 });
    assert!(try_ack(MigrationAck::Data { chunk: 2 }, Some(MigrationAck::Data { chunk: 2 })));
    assert!(!try_ack(MigrationAck::Data { chunk: 2 }, Some(MigrationAck::Data { chunk: 3 })));
    assert!(!try_ack(MigrationAck::Start { vnode: 2 }, Some(MigrationAck::Finish { vnode: 2 })));
    assert!(!try_ack(MigrationAck::Start { vnode: 2 }, None));
    assert_eq!(
        accept(data),
        (Task::MigrateIn { vnode: 3, chunk: 2, data: vec![s("x")] }, MigrationAck::Data { chunk: 2 })
    );
    assert_eq!(accept(start), (Task::MigrateInStart { src: s("A"), vnode: 3 }, MigrationAck::Start { vnode: 3 }));
    assert_eq!(accept(finish), (Task::MigrateInEnd { vnode: 3 }, MigrationAck::Finish { vnode: 3 }));
}

#[test]
fn assign_makes_this_node_the_owner() {
    let mut m = VNodeManager::new(s("me"));
    assert_eq!(m.handle_tick(Task::Assign { vnodes: vec![1, 2, 1] }), Outcome::Done);
    assert_eq!(m.data_of(1), Some(vec![s("me")]));
    assert_eq!(m.data_of(2), Some(vec![s("me")]));
    assert_eq!(m.data_of(3), None);
    assert!(!m.is_migrating(1));
}

#[test]
fn messages_that_break_a_rule_are_dropped() {
    let mut m = VNodeManager::new(s("me"));
    m.handle_tick(Task::Assign { vnodes: vec![1] });
    assert_eq!(
        m.handle_tick(Task::MigrateOut { target: s("B"), vnode: 9 }),
        Outcome::Dropped(Violation::UnknownVNode)
    );
    assert_eq!(
        m.handle_tick(Task::MigrateInStart { src: s("B"), vnode: 1 }),
        Outcome::Dropped(Violation::AlreadyKnown)
    );
    assert_eq!(
        m.handle_tick(Task::MigrateIn { vnode: 1, chunk: 0, data: vec![s("x")] }),
        Outcome::Dropped(Violation::NoMigration)
    );
    assert_eq!(m.handle_tick(Task::MigrateInEnd { vnode: 1 }), Outcome::Dropped(Violation::NoMigration));
    assert_eq!(
        m.handle_cmd(Cmd::GetMigrationData { vnode: 1, chunk: 0 }),
        Outcome::Dropped(Violation::NoMigration)
    );
    assert_eq!(
        m.handle_cmd(Cmd::CancelMigration { vnode: 1, target: s("B") }),
        Outcome::Dropped(Violation::NoMigration)
    );
    assert_eq!(m.handle_cmd(Cmd::FinishMigration { vnode: 1 }), Outcome::Dropped(Violation::NoMigration));
    assert_eq!(m.handle_cmd(Cmd::FinishMigration { vnode: 7 }), Outcome::Dropped(Violation::UnknownVNode));
    assert_eq!(m.data_of(1), Some(vec![s("me")]));
    assert!(!m.is_migrating(1));

    m.handle_tick(Task::MigrateOut { target: s("B"), vnode: 1 });
    assert_eq!(
        m.handle_tick(Task::MigrateOut { target: s("C"), vnode: 1 }),
        Outcome::Dropped(Violation::AlreadyMigrating)
    );
    assert_eq!(
        m.handle_cmd(Cmd::GetMigrationData { vnode: 1, chunk: 3 }),
        Outcome::Dropped(Violation::WrongChunk)
    );
    assert_eq!(
        m.handle_tick(Task::MigrateIn { vnode: 1, chunk: 0, data: vec![s("x")] }),
        Outcome::Dropped(Violation::WrongDirection)
    );
    assert_eq!(m.handle_tick(Task::MigrateInEnd { vnode: 1 }), Outcome::Dropped(Violation::WrongDirection));
    assert_eq!(m.data_of(1), Some(vec![s("me")]));
    assert!(m.is_migrating(1));
}

#[test]
fn inbound_chunks_are_taken_in_order() {
    let mut m = VNodeManager::new(s("me"));
    assert_eq!(m.handle_tick(Task::MigrateInStart { src: s("A"), vnode: 5 }), Outcome::Done);
    assert_eq!(m.data_of(5), Some(vec![]));
    assert_eq!(
        m.handle_tick(Task::MigrateIn { vnode: 5, chunk: 1, data: vec![s("late")] }),
        Outcome::Dropped(Violation::WrongChunk)
    );
    assert_eq!(m.handle_tick(Task::MigrateIn { vnode: 5, chunk: 0, data: vec![s("x"), s("y")] }), Outcome::Done);
    assert_eq!(m.handle_tick(Task::MigrateIn { vnode: 5, chunk: 1, data: vec![s("z")] }), Outcome::Done);
    assert_eq!(
        m.handle_cmd(Cmd::FinishMigration { vnode: 5 }),
        Outcome::Dropped(Violation::WrongDirection)
    );
    assert_eq!(m.handle_tick(Task::MigrateInEnd { vnode: 5 }), Outcome::Done);
    assert_eq!(m.data_of(5), Some(vec![s("x"), s("y"), s("z"), s("me")]));
    assert!(!m.is_migrating(5));
}

#[test]
fn outbound_chunks_are_one_piece_each() {
    let mut m = VNodeManager::new(s("me"));
    m.handle_tick(Task::MigrateInStart { src: s("A"), vnode: 5 });
    m.handle_tick(Task::MigrateIn { vnode: 5, chunk: 0, data: vec![s("x"), s("y")] });
    m.handle_tick(Task::MigrateInEnd { vnode: 5 });
    m.handle_tick(Task::MigrateOut { target: s("C"), vnode: 5 });
    assert_eq!(
        m.handle_cmd(Cmd::GetMigrationData { vnode: 5, chunk: 0 }),
        Outcome::Reply { chunk: 0, data: vec![s("x")] }
    );
    assert_eq!(
        m.handle_cmd(Cmd::GetMigrationData { vnode: 5, chunk: 1 }),
        Outcome::Reply { chunk: 1, data: vec![s("y")] }
    );
    assert_eq!(
        m.handle_cmd(Cmd::GetMigrationData { vnode: 5, chunk: 2 }),
        Outcome::Reply { chunk: 2, data: vec![s("me")] }
    );
    assert_eq!(
        m.handle_cmd(Cmd::GetMigrationData { vnode: 5, chunk: 3 }),
        Outcome::Reply { chunk: 3, data: vec![] }
    );
    assert_eq!(m.handle_cmd(Cmd::FinishMigration { vnode: 5 }), Outcome::Done);
    assert!(!m.owns(5));
}
