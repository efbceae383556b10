use dora_core::config::{NodeRunConfig, ResolvedNode};
use dora_core::events::{EventQueue, QueueError};
use dora_core::ids::DropToken;
use dora_core::ledger::{DropLedger, LedgerError};
use dora_core::messages::{
    DaemonCommunicationConfig, DaemonCoordinatorEvent, DaemonCoordinatorReply, DaemonRequest, InputData, NodeEvent,
    SharedMemoryInput, SpawnDataflowNodes,
};
use dora_core::orchestration::{CommandOutcome, DataflowPhase, Orchestrator};
use dora_message::{ArrowTypeInfo, Metadata};

fn meta() -> Metadata {
    Metadata::new(dora_message::uhlc::HLC::default().new_timestamp(), ArrowTypeInfo::empty())
}

fn s(v: &str) -> String {
    v.to_owned()
}

fn node(id: &str) -> ResolvedNode {
    ResolvedNode { id: s(id), run_config: NodeRunConfig { inputs: vec![], outputs: vec![s("out")] } }
}

fn spawn_cmd(id: u128, nodes: Vec<ResolvedNode>) -> SpawnDataflowNodes {
    SpawnDataflowNodes {
        dataflow_id: id,
        working_dir: s("/tmp/df"),
        nodes,
        daemon_communication: DaemonCommunicationConfig::Tcp,
    }
}

#[test]
fn only_send_message_is_fire_and_forget() {
    let requests = vec![
        DaemonRequest::Register { dataflow_id: 7, node_id: s("a") },
        DaemonRequest::Subscribe,
        DaemonRequest::PrepareOutputMessage { output_id: s("o"), metadata: meta(), data_len: 16 },
        DaemonRequest::SendPreparedMessage { id: s("seg") },
        DaemonRequest::CloseOutputs(vec![s("o")]),
        DaemonRequest::Stopped,
        DaemonRequest::NextEvent { drop_tokens: vec![DropToken::from_u128(1)] },
    ];
    for r in &requests {
        assert!(r.expects_tcp_reply());
    }
    let send = DaemonRequest::SendMessage { output_id: s("o"), metadata: meta(), data: vec![1, 2, 3] };
    assert!(!send.expects_tcp_reply());
}

#[test]
fn inline_data_has_no_drop_token() {
    let shared = InputData::SharedMemory(SharedMemoryInput {
        shared_memory_id: s("seg"),
        len: 8,
        drop_token: DropToken::from_u128(42),
    });
    assert_eq!(shared.drop_token(), Some(DropToken::from_u128(42)));
    assert_eq!(InputData::Vec(vec![1, 2]).drop_token(), None);
}

#[test]
fn generated_tokens_are_distinct_random_uuids() {
    let mut seen = std::collections::HashSet::new();
    for _ in 0..1000 {
        let t = DropToken::generate();
        let v = t.as_u128();
        assert_eq!((v >> 76) & 0xF, 4);
        assert_eq!((v >> 62) & 0x3, 2);
        assert!(seen.insert(t));
    }
}

#[test]
fn default_transport_is_tcp() {
    assert_eq!(DaemonCommunicationConfig::default(), DaemonCommunicationConfig::Tcp);
}

#[test]
fn segment_freed_only_after_every_consumer_released() {
    let mut ledger = DropLedger::new();
    let seg = s("seg-1");
    let consumers = vec![s("a"), s("b"), s("c")];
    let tokens = vec![DropToken::from_u128(1), DropToken::from_u128(2), DropToken::from_u128(3)];
    let inputs = ledger.share_segment(&seg, 64, &consumers, &tokens).unwrap();
    assert_eq!(inputs.len(), 3);
    for (i, input) in inputs.iter().enumerate() {
        assert_eq!(input.shared_memory_id, seg);
        assert_eq!(input.len, 64);
        assert_eq!(input.drop_token, tokens[i]);
    }
    assert_eq!(ledger.holders_of(&seg), 3);
    assert_eq!(ledger.retire(tokens[1]), Ok(None));
    assert_eq!(ledger.holders_of(&seg), 2);
    assert_eq!(ledger.retire(tokens[0]), Ok(None));
    assert_eq!(ledger.retire(tokens[2]), Ok(Some(seg.clone())));
    assert_eq!(ledger.holders_of(&seg), 0);
    assert_eq!(ledger.len(), 0);
}

#[test]
fn retiring_twice_is_an_error() {
    let mut ledger = DropLedger::new();
    let t = DropToken::from_u128(9);
    assert_eq!(ledger.issue(t, &s("seg"), &s("a")), Ok(()));
    assert_eq!(ledger.retire(t), Ok(Some(s("seg"))));
    assert_eq!(ledger.retire(t), Err(LedgerError::UnknownToken));
}

#[test]
fn outstanding_token_cannot_be_issued_again() {
    let mut ledger = DropLedger::new();
    let t = DropToken::from_u128(5);
    assert_eq!(ledger.issue(t, &s("seg"), &s("a")), Ok(()));
    assert_eq!(ledger.issue(t, &s("other"), &s("b")), Err(LedgerError::TokenInUse));
    assert_eq!(ledger.len(), 1);
    assert!(ledger.contains(t));
}

#[test]
fn sharing_with_repeated_tokens_is_refused() {
    let mut ledger = DropLedger::new();
    let consumers = vec![s("a"), s("b")];
    let tokens = vec![DropToken::from_u128(4), DropToken::from_u128(4)];
    assert_eq!(ledger.share_segment(&s("seg"), 1, &consumers, &tokens).err(), Some(LedgerError::TokenInUse));
    assert_eq!(ledger.len(), 0);
}

#[test]
fn disconnect_retires_every_token_of_the_consumer() {
    let mut ledger = DropLedger::new();
    let (a, b) = (s("a"), s("b"));
    ledger.issue(DropToken::from_u128(1), &s("x"), &a).unwrap();
    ledger.issue(DropToken::from_u128(2), &s("y"), &a).unwrap();
    ledger.issue(DropToken::from_u128(3), &s("y"), &b).unwrap();
    ledger.issue(DropToken::from_u128(4), &s("x"), &a).unwrap();
    let freed = ledger.release_consumer(&a);
    assert_eq!(freed, vec![s("x")]);
    assert!(!ledger.contains(DropToken::from_u128(1)));
    assert!(!ledger.contains(DropToken::from_u128(2)));
    assert!(!ledger.contains(DropToken::from_u128(4)));
    assert!(ledger.contains(DropToken::from_u128(3)));
    assert_eq!(ledger.holders_of(&s("y")), 1);
    assert_eq!(ledger.retire(DropToken::from_u128(3)), Ok(Some(s("y"))));
    assert_eq!(ledger.release_consumer(&a), Vec::<String>::new());
}

#[test]
fn inputs_then_close_arrive_in_order() {
    let mut q = EventQueue::new();
    let out = s("out");
    for (i, seg) in ["A", "B", "C"].iter().enumerate() {
        let data = InputData::SharedMemory(SharedMemoryInput {
            shared_memory_id: s(seg),
            len: 4,
            drop_token: DropToken::from_u128(i as u128),
        });
        assert_eq!(q.push_input(out.clone(), meta(), Some(data)), Ok(()));
    }
    assert!(q.close_input(out.clone()));
    assert!(!q.close_input(out.clone()));
    assert_eq!(q.push_input(out.clone(), meta(), None), Err(QueueError::InputClosed));
    let events = q.take_events();
    assert_eq!(events.len(), 4);
    for (i, seg) in ["A", "B", "C"].iter().enumerate() {
        match &events[i] {
            NodeEvent::Input { id, data: Some(InputData::SharedMemory(d)), .. } => {
                assert_eq!(id, &out);
                assert_eq!(d.shared_memory_id, s(seg));
            }
            other => panic!("unexpected event {:?}", other),
        }
    }
    assert!(matches!(&events[3], NodeEvent::InputClosed { id } if id == &out));
    assert_eq!(q.len(), 0);
}

#[test]
fn stop_event_is_queued_after_earlier_events() {
    let mut q = EventQueue::new();
    q.push_input(s("in"), meta(), Some(InputData::Vec(vec![1]))).unwrap();
    q.push_stop();
    let events = q.take_events();
    assert!(matches!(events[0], NodeEvent::Input { .. }));
    assert!(matches!(events[1], NodeEvent::Stop));
}

#[test]
fn spawn_with_missing_working_dir_fails_and_leaves_nothing() {
    let mut o = Orchestrator::new();
    let r = o.begin_spawn(&spawn_cmd(1, vec![node("a")]), false);
    assert!(r.is_err());
    assert_eq!(o.phase_of(1), None);
    assert!(!o.node_launched(1, s("a")));
}

#[test]
fn spawn_without_nodes_or_twice_is_refused() {
    let mut o = Orchestrator::new();
    assert!(o.begin_spawn(&spawn_cmd(1, vec![]), true).is_err());
    assert!(o.begin_spawn(&spawn_cmd(1, vec![node("a")]), true).is_ok());
    assert!(o.begin_spawn(&spawn_cmd(1, vec![node("a")]), true).is_err());
    assert_eq!(o.phase_of(1), Some(DataflowPhase::Spawning));
}

#[test]
fn failed_launch_rolls_back_started_nodes() {
    let mut o = Orchestrator::new();
    o.begin_spawn(&spawn_cmd(3, vec![node("a"), node("b"), node("c")]), true).unwrap();
    assert!(o.node_launched(3, s("a")));
    assert!(o.node_launched(3, s("b")));
    let (reply, teardown) = o.finish_spawn(3, Err(s("launch of c failed")));
    assert!(matches!(reply, DaemonCoordinatorReply::SpawnResult(Err(ref m)) if m == "launch of c failed"));
    assert_eq!(teardown, vec![s("a"), s("b")]);
    assert_eq!(o.phase_of(3), None);
}

#[test]
fn successful_spawn_runs() {
    let mut o = Orchestrator::new();
    o.begin_spawn(&spawn_cmd(4, vec![node("a")]), true).unwrap();
    o.node_launched(4, s("a"));
    let (reply, teardown) = o.finish_spawn(4, Ok(()));
    assert!(matches!(reply, DaemonCoordinatorReply::SpawnResult(Ok(()))));
    assert!(teardown.is_empty());
    assert_eq!(o.phase_of(4), Some(DataflowPhase::Running));
    let (again, _) = o.finish_spawn(4, Ok(()));
    assert!(matches!(again, DaemonCoordinatorReply::SpawnResult(Err(_))));
}

#[test]
fn watchdog_is_acknowledged_in_every_phase() {
    let mut o = Orchestrator::new();
    assert!(matches!(o.watchdog(), DaemonCoordinatorReply::WatchdogAck));
    o.begin_spawn(&spawn_cmd(1, vec![node("a")]), true).unwrap();
    o.node_launched(1, s("a"));
    assert!(matches!(o.watchdog(), DaemonCoordinatorReply::WatchdogAck));
    o.finish_spawn(1, Ok(()));
    o.stop_dataflow(1);
    assert_eq!(o.phase_of(1), Some(DataflowPhase::Stopping));
    assert!(matches!(o.watchdog(), DaemonCoordinatorReply::WatchdogAck));
}

#[test]
fn second_stop_succeeds_without_effect() {
    let mut o = Orchestrator::new();
    o.begin_spawn(&spawn_cmd(2, vec![node("a"), node("b")]), true).unwrap();
    o.node_launched(2, s("a"));
    o.node_launched(2, s("b"));
    o.finish_spawn(2, Ok(()));
    let (reply, to_stop) = o.stop_dataflow(2);
    assert!(matches!(reply, DaemonCoordinatorReply::StopResult(Ok(()))));
    assert_eq!(to_stop, vec![s("a"), s("b")]);
    assert!(o.node_exited(2, &s("a")));
    assert!(!o.node_exited(2, &s("a")));
    assert_eq!(o.phase_of(2), Some(DataflowPhase::Stopping));
    assert!(o.node_exited(2, &s("b")));
    assert_eq!(o.phase_of(2), Some(DataflowPhase::Stopped));
    let (reply, to_stop) = o.stop_dataflow(2);
    assert!(matches!(reply, DaemonCoordinatorReply::StopResult(Ok(()))));
    assert!(to_stop.is_empty());
    assert_eq!(o.phase_of(2), Some(DataflowPhase::Stopped));
}

#[test]
fn stop_of_unknown_dataflow_fails() {
    let mut o = Orchestrator::new();
    let (reply, to_stop) = o.stop_dataflow(99);
    assert!(matches!(reply, DaemonCoordinatorReply::StopResult(Err(_))));
    assert!(to_stop.is_empty());
}

#[test]
fn grace_period_forces_stop() {
    let mut o = Orchestrator::new();
    o.begin_spawn(&spawn_cmd(5, vec![node("a")]), true).unwrap();
    o.node_launched(5, s("a"));
    o.finish_spawn(5, Ok(()));
    assert!(o.grace_elapsed(5).is_empty());
    o.stop_dataflow(5);
    assert_eq!(o.grace_elapsed(5), vec![s("a")]);
    assert_eq!(o.phase_of(5), Some(DataflowPhase::Stopped));
}

#[test]
fn destroy_stops_everything() {
    let mut o = Orchestrator::new();
    o.begin_spawn(&spawn_cmd(6, vec![node("a")]), true).unwrap();
    o.node_launched(6, s("a"));
    o.begin_spawn(&spawn_cmd(7, vec![node("b")]), true).unwrap();
    o.node_launched(7, s("b"));
    o.finish_spawn(7, Ok(()));
    let (reply, killed) = o.destroy();
    assert!(matches!(reply, DaemonCoordinatorReply::DestroyResult(Ok(()))));
    assert_eq!(killed, vec![s("a"), s("b")]);
    assert_eq!(o.phase_of(6), Some(DataflowPhase::Stopped));
    assert_eq!(o.phase_of(7), Some(DataflowPhase::Stopped));
}

#[test]
fn next_event_tokens_release_segments() {
    let mut ledger = DropLedger::new();
    let (a, b) = (s("a"), s("b"));
    ledger.issue(DropToken::from_u128(1), &s("x"), &a).unwrap();
    ledger.issue(DropToken::from_u128(2), &s("x"), &b).unwrap();
    ledger.issue(DropToken::from_u128(3), &s("y"), &a).unwrap();
    let freed = ledger.retire_tokens(&vec![DropToken::from_u128(1), DropToken::from_u128(3), DropToken::from_u128(77)]);
    assert_eq!(freed, vec![s("y")]);
    assert_eq!(ledger.len(), 1);
    assert_eq!(ledger.holders_of(&s("x")), 1);
    let freed = ledger.retire_tokens(&vec![DropToken::from_u128(2), DropToken::from_u128(2)]);
    assert_eq!(freed, vec![s("x")]);
    assert_eq!(ledger.len(), 0);
}

#[test]
fn commands_are_dispatched() {
    let mut o = Orchestrator::new();
    let bad = DaemonCoordinatorEvent::Spawn(spawn_cmd(8, vec![node("a")]));
    match o.handle_command(&bad, false) {
        CommandOutcome::Reply(DaemonCoordinatorReply::SpawnResult(Err(_)), nodes) => assert!(nodes.is_empty()),
        other => panic!("unexpected outcome {:?}", other),
    }
    assert_eq!(o.phase_of(8), None);
    assert!(matches!(o.handle_command(&bad, true), CommandOutcome::Launch));
    assert_eq!(o.phase_of(8), Some(DataflowPhase::Spawning));
    match o.handle_command(&DaemonCoordinatorEvent::Watchdog, false) {
        CommandOutcome::Reply(DaemonCoordinatorReply::WatchdogAck, nodes) => assert!(nodes.is_empty()),
        other => panic!("unexpected outcome {:?}", other),
    }
    assert_eq!(o.phase_of(8), Some(DataflowPhase::Spawning));
    o.node_launched(8, s("a"));
    let stop = DaemonCoordinatorEvent::StopDataflow { dataflow_id: 8 };
    match o.handle_command(&stop, false) {
        CommandOutcome::Reply(DaemonCoordinatorReply::StopResult(Ok(())), nodes) => assert_eq!(nodes, vec![s("a")]),
        other => panic!("unexpected outcome {:?}", other),
    }
    assert!(matches!(
        o.handle_command(&DaemonCoordinatorEvent::Watchdog, false),
        CommandOutcome::Reply(DaemonCoordinatorReply::WatchdogAck, _)
    ));
    assert_eq!(o.phase_of(8), Some(DataflowPhase::Stopping));
    match o.handle_command(&DaemonCoordinatorEvent::Destroy, false) {
        CommandOutcome::Reply(DaemonCoordinatorReply::DestroyResult(Ok(())), nodes) => assert_eq!(nodes, vec![s("a")]),
        other => panic!("unexpected outcome {:?}", other),
    }
    assert_eq!(o.phase_of(8), Some(DataflowPhase::Stopped));
}
