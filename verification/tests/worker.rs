use caravan::network::{CaravanMessage, NodeDiscoveryInfo, PipelinePayload};
use caravan::worker::{RunRequest, Worker, WorkerAction, WorkerEvent, WorkerState};

fn worker(start_layer: usize, end_layer: usize, has_next: bool) -> Worker {
    Worker { host: "127.0.0.1".to_string(), port: 8001, start_layer, end_layer, has_next }
}

fn forward(is_prefill: bool) -> CaravanMessage {
    CaravanMessage::Forward(PipelinePayload {
        token_ids: vec![5, 6],
        activations: vec![7, 8, 9],
        batch_size: 2,
        is_prefill,
        position: 4,
    })
}

fn shown<T: std::fmt::Debug>(x: &T) -> String {
    format!("{:?}", x)
}

#[test]
fn a_worker_waits_then_connects_then_receives() {
    let w = worker(4, 7, true);
    let (s, a) = w.start();
    assert!(matches!(s, WorkerState::Accepting));
    assert!(matches!(a, WorkerAction::Accept));
    let (s, a) = w.step(s, WorkerEvent::Accepted);
    assert!(matches!(a, WorkerAction::ConnectNext));
    let (s, a) = w.step(s, WorkerEvent::Connected);
    assert!(matches!(s, WorkerState::Receiving));
    assert!(matches!(a, WorkerAction::ReceivePrevious));
    let (s, a) = w.step(s, WorkerEvent::ReceiveFailed);
    assert!(matches!(s, WorkerState::Accepting));
    assert!(matches!(a, WorkerAction::Accept));
}

#[test]
fn the_last_worker_has_nothing_to_connect_to() {
    let w = worker(4, 7, false);
    let (s, a) = w.step(WorkerState::Accepting, WorkerEvent::Accepted);
    assert!(matches!(s, WorkerState::Receiving));
    assert!(matches!(a, WorkerAction::ReceivePrevious));
}

#[test]
fn a_missing_next_node_drops_the_connection() {
    let w = worker(4, 7, true);
    let (s, a) = w.step(WorkerState::Connecting, WorkerEvent::ConnectFailed);
    assert!(matches!(s, WorkerState::Accepting));
    assert!(matches!(a, WorkerAction::Accept));
}

#[test]
fn the_first_worker_runs_on_tokens() {
    let w = worker(0, 3, true);
    let (_, a) = w.step(WorkerState::Receiving, WorkerEvent::Received(forward(false)));
    match a {
        WorkerAction::Run(RunRequest::Decode { token_id, activations, position }) => {
            assert_eq!(token_id, Some(5));
            assert_eq!(activations, None);
            assert_eq!(position, 4);
        }
        other => panic!("{:?}", other),
    }
    let (_, a) = w.step(WorkerState::Receiving, WorkerEvent::Received(forward(true)));
    match a {
        WorkerAction::Run(RunRequest::Prefill { token_ids, activations, position, batch_size }) => {
            assert_eq!(token_ids, Some(vec![5, 6]));
            assert_eq!(activations, None);
            assert_eq!(position, 4);
            assert_eq!(batch_size, 2);
        }
        other => panic!("{:?}", other),
    }
}

#[test]
fn a_later_worker_runs_on_activations() {
    let w = worker(4, 7, true);
    let (_, a) = w.step(WorkerState::Receiving, WorkerEvent::Received(forward(false)));
    match a {
        WorkerAction::Run(RunRequest::Decode { token_id, activations, position }) => {
            assert_eq!(token_id, None);
            assert_eq!(activations, Some(vec![7, 8, 9]));
            assert_eq!(position, 4);
        }
        other => panic!("{:?}", other),
    }
    let (_, a) = w.step(WorkerState::Receiving, WorkerEvent::Received(forward(true)));
    match a {
        WorkerAction::Run(RunRequest::Prefill { token_ids, activations, batch_size, .. }) => {
            assert_eq!(token_ids, None);
            assert_eq!(activations, Some(vec![7, 8, 9]));
            assert_eq!(batch_size, 2);
        }
        other => panic!("{:?}", other),
    }
}

#[test]
fn a_pass_is_handed_on_and_its_answer_back() {
    let w = worker(4, 7, true);
    let (s, _) = w.step(WorkerState::Receiving, WorkerEvent::Received(forward(true)));
    let (s, a) = w.step(s, WorkerEvent::Ran(vec![1, 2]));
    match &a {
        WorkerAction::SendNext(CaravanMessage::Forward(p)) => {
            assert_eq!(p.token_ids, vec![5, 6]);
            assert_eq!(p.activations, vec![1, 2]);
            assert_eq!(p.batch_size, 2);
            assert!(p.is_prefill);
            assert_eq!(p.position, 4);
        }
        other => panic!("{:?}", other),
    }
    let (s, a) = w.step(s, WorkerEvent::Sent);
    assert!(matches!(a, WorkerAction::ReceiveNext));
    let (s, a) = w.step(s, WorkerEvent::Received(CaravanMessage::TokenResponse(42)));
    assert!(matches!(a, WorkerAction::SendPrevious(CaravanMessage::TokenResponse(42))));
    let (s, a) = w.step(s, WorkerEvent::Sent);
    assert!(matches!(s, WorkerState::Receiving));
    assert!(matches!(a, WorkerAction::ReceivePrevious));
}

#[test]
fn the_last_worker_samples_and_answers() {
    let w = worker(4, 7, false);
    let (s, _) = w.step(WorkerState::Receiving, WorkerEvent::Received(forward(false)));
    let (s, a) = w.step(s, WorkerEvent::Ran(vec![3, 4]));
    match a {
        WorkerAction::Sample(logits) => assert_eq!(logits, vec![3, 4]),
        other => panic!("{:?}", other),
    }
    let (s, a) = w.step(s, WorkerEvent::Sampled(11));
    assert!(matches!(a, WorkerAction::SendPrevious(CaravanMessage::TokenResponse(11))));
    let (s, _) = w.step(s, WorkerEvent::Sent);
    assert!(matches!(s, WorkerState::Receiving));
}

#[test]
fn a_failed_run_drops_the_connection() {
    let w = worker(4, 7, true);
    let (s, _) = w.step(WorkerState::Receiving, WorkerEvent::Received(forward(false)));
    let (s, a) = w.step(s, WorkerEvent::RunFailed);
    assert!(matches!(s, WorkerState::Accepting));
    assert!(matches!(a, WorkerAction::Accept));
}

#[test]
fn messages_that_travel_backward_are_skipped() {
    let w = worker(4, 7, true);
    for msg in [
        CaravanMessage::TokenResponse(1),
        CaravanMessage::DiscoveryResponse(vec![]),
    ] {
        let (s, a) = w.step(WorkerState::Receiving, WorkerEvent::Received(msg));
        assert!(matches!(s, WorkerState::Receiving));
        assert!(matches!(a, WorkerAction::SkipStray));
    }
}

#[test]
fn trouble_with_the_next_node_stops_the_worker() {
    let w = worker(4, 7, true);
    for (s, e) in [
        (WorkerState::Forwarding, WorkerEvent::SendFailed),
        (WorkerState::AwaitingReply, WorkerEvent::ReceiveFailed),
        (WorkerState::Replying, WorkerEvent::SendFailed),
        (WorkerState::Accepting, WorkerEvent::AcceptFailed),
    ] {
        let (s, a) = w.step(s, e);
        assert!(matches!(s, WorkerState::Stopped));
        assert!(matches!(a, WorkerAction::Stop));
    }
}

#[test]
fn a_worker_describes_itself() {
    let first = worker(0, 3, true).describe();
    assert_eq!(first.addr, "127.0.0.1:8001");
    assert_eq!(first.layers, "0-3");
    assert!(!first.is_final);
    assert_eq!(first.role, "Node 0 / Prefill");
    let middle = worker(4, 7, true).describe();
    assert_eq!(middle.role, "Worker Node");
    assert!(!middle.is_final);
    let last = worker(8, 11, false).describe();
    assert_eq!(last.role, "Sampler / Final");
    assert!(last.is_final);
    let only = worker(0, 11, false).describe();
    assert_eq!(only.role, "Node 0 / Prefill");
    assert!(only.is_final);
}

#[test]
fn a_worker_names_the_host_at_which_it_is_reached() {
    let mut w = worker(16, 31, false);
    w.host = "192.168.1.101".to_string();
    assert_eq!(w.describe().addr, "192.168.1.101:8001");
    let earlier = worker(0, 15, true).describe();
    let request = CaravanMessage::DiscoveryRequest(vec![earlier.clone()]);
    let (_, action) = w.step(WorkerState::Receiving, WorkerEvent::Received(request));
    match action {
        WorkerAction::SendPrevious(CaravanMessage::DiscoveryResponse(nodes)) => {
            assert_eq!(nodes.len(), 2);
            assert_eq!(shown(&nodes[0]), shown(&earlier));
            assert_eq!(nodes[1].addr, "192.168.1.101:8001");
        }
        other => panic!("{:?}", other),
    }
}

/// Runs a discovery through a chain of workers.
fn discover(chain: &[Worker], msg: CaravanMessage) -> CaravanMessage {
    let w = &chain[0];
    let (s, a) = w.step(WorkerState::Receiving, WorkerEvent::Received(msg));
    match a {
        WorkerAction::SendPrevious(reply) => reply,
        WorkerAction::SendNext(forwarded) => {
            let reply = discover(&chain[1..], forwarded);
            let (s, _) = w.step(s, WorkerEvent::Sent);
            let (_, a) = w.step(s, WorkerEvent::Received(reply));
            match a {
                WorkerAction::SendPrevious(reply) => reply,
                other => panic!("{:?}", other),
            }
        }
        other => panic!("{:?}", other),
    }
}

#[test]
fn discovery_lists_the_whole_chain() {
    let chain = [worker(0, 11, true), worker(12, 23, true), worker(24, 31, false)];
    let reply = discover(&chain, CaravanMessage::DiscoveryRequest(vec![]));
    match reply {
        CaravanMessage::DiscoveryResponse(nodes) => {
            let expected: Vec<NodeDiscoveryInfo> = chain.iter().map(|w| w.describe()).collect();
            assert_eq!(shown(&nodes), shown(&expected));
            assert_eq!(nodes[1].layers, "12-23");
            assert!(nodes[2].is_final);
        }
        other => panic!("{:?}", other),
    }
}
