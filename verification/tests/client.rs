use caravan::client::{Client, ClientAction, ClientEvent};
use caravan::network::{CaravanMessage, NodeDiscoveryInfo};
use caravan::status::SwarmStatus;

fn status() -> SwarmStatus {
    SwarmStatus::new(None)
}

fn node() -> NodeDiscoveryInfo {
    NodeDiscoveryInfo {
        addr: "127.0.0.1:8000".to_string(),
        layers: "0-31".to_string(),
        is_final: true,
        role: "Node 0 / Prefill".to_string(),
    }
}

/// Finds the swarm, which lists one node.
fn find(client: Client, status: &mut SwarmStatus) -> (Client, ClientAction) {
    let (client, action) = client.step(ClientEvent::Connected, status);
    assert!(matches!(action, ClientAction::Send(CaravanMessage::DiscoveryRequest(ref n)) if n.is_empty()));
    let (client, action) = client.step(ClientEvent::Sent, status);
    assert!(matches!(action, ClientAction::Receive));
    let reply = CaravanMessage::DiscoveryResponse(vec![node()]);
    client.step(ClientEvent::Received(reply), status)
}

#[test]
fn a_chat_finds_the_swarm_and_reads() {
    let mut st = status();
    let (client, action) = Client::start(None);
    assert!(matches!(action, ClientAction::Connect));
    assert!(!client.has_connection());
    let (client, action) = find(client, &mut st);
    assert!(matches!(action, ClientAction::ReadLine));
    assert!(client.has_connection());
    assert!(st.connected);
    assert_eq!(st.nodes.len(), 1);
    let (client, action) = client.step(ClientEvent::Line("  hello \n".to_string()), &mut st);
    assert!(matches!(action, ClientAction::RunTurn(ref p) if p == "hello"));
    let (client, action) = client.step(ClientEvent::TurnDone, &mut st);
    assert!(matches!(action, ClientAction::ReadLine));
    let (client, action) = client.step(ClientEvent::Line(" \t\n".to_string()), &mut st);
    assert!(matches!(action, ClientAction::ReadLine));
    let (_, action) = client.step(ClientEvent::Line("/exit\n".to_string()), &mut st);
    assert!(matches!(action, ClientAction::Finish));
}

#[test]
fn a_chat_ends_with_its_input() {
    for event in [
        ClientEvent::Line("/quit".to_string()),
        ClientEvent::InputEnded,
        ClientEvent::InputFailed,
    ] {
        let mut st = status();
        let (client, _) = Client::start(None);
        let (client, _) = client.step(ClientEvent::ConnectFailed, &mut st);
        let (_, action) = client.step(event, &mut st);
        assert!(matches!(action, ClientAction::Finish));
    }
}

#[test]
fn a_chat_goes_on_without_the_swarm() {
    let mut st = status();
    let (client, _) = Client::start(None);
    let (client, action) = client.step(ClientEvent::ConnectFailed, &mut st);
    assert!(matches!(action, ClientAction::ReadLine));
    assert!(!st.connected);
    let (client, action) = client.step(ClientEvent::Line("hi".to_string()), &mut st);
    assert!(matches!(action, ClientAction::Connect));
    let (client, action) = client.step(ClientEvent::ConnectFailed, &mut st);
    assert!(matches!(action, ClientAction::ReadLine));
    let (client, action) = client.step(ClientEvent::Line("hi again".to_string()), &mut st);
    assert!(matches!(action, ClientAction::Connect));
    let (_, action) = find(client, &mut st);
    assert!(matches!(action, ClientAction::RunTurn(ref p) if p == "hi again"));
    assert!(st.connected);
}

#[test]
fn a_failed_turn_means_a_new_connection() {
    let mut st = status();
    let (client, _) = Client::start(None);
    let (client, _) = find(client, &mut st);
    let (client, _) = client.step(ClientEvent::Line("one".to_string()), &mut st);
    let (client, action) = client.step(ClientEvent::TurnFailed, &mut st);
    assert!(matches!(action, ClientAction::ReadLine));
    assert!(!client.has_connection());
    assert!(!st.connected);
    assert!(st.nodes.is_empty());
    let (_, action) = client.step(ClientEvent::Line("two".to_string()), &mut st);
    assert!(matches!(action, ClientAction::Connect));
}

#[test]
fn a_failed_discovery_does_not_keep_a_chat_from_going_on() {
    let mut st = status();
    let (client, _) = Client::start(None);
    let (client, _) = client.step(ClientEvent::Connected, &mut st);
    let (client, action) = client.step(ClientEvent::SendFailed, &mut st);
    assert!(matches!(action, ClientAction::ReadLine));
    assert!(client.has_connection());
    assert!(st.connected);
    assert!(st.nodes.is_empty());

    let mut st = status();
    let (client, _) = Client::start(None);
    let (client, _) = client.step(ClientEvent::Connected, &mut st);
    let (client, _) = client.step(ClientEvent::Sent, &mut st);
    let (_, action) = client.step(ClientEvent::ReceiveFailed, &mut st);
    assert!(matches!(action, ClientAction::ReadLine));
    assert!(st.connected);

    let mut st = status();
    let (client, _) = Client::start(None);
    let (client, _) = client.step(ClientEvent::Connected, &mut st);
    let (client, _) = client.step(ClientEvent::Sent, &mut st);
    let (_, action) = client.step(
        ClientEvent::Received(CaravanMessage::TokenResponse(1)),
        &mut st,
    );
    assert!(matches!(action, ClientAction::ReadLine));
    assert!(st.connected);
    assert!(st.nodes.is_empty());
}

#[test]
fn a_single_prompt_is_run_as_it_is() {
    let mut st = status();
    let (client, _) = Client::start(Some(" tell me ".to_string()));
    let (client, action) = find(client, &mut st);
    assert!(matches!(action, ClientAction::RunTurn(ref p) if p == " tell me "));
    let (_, action) = client.step(ClientEvent::TurnDone, &mut st);
    assert!(matches!(action, ClientAction::Finish));
}

#[test]
fn a_single_prompt_tries_twice_to_connect() {
    let mut st = status();
    let (client, _) = Client::start(Some("x".to_string()));
    let (client, action) = client.step(ClientEvent::ConnectFailed, &mut st);
    assert!(matches!(action, ClientAction::Connect));
    let (_, action) = find(client, &mut st);
    assert!(matches!(action, ClientAction::RunTurn(ref p) if p == "x"));

    let (client, _) = Client::start(Some("x".to_string()));
    let (client, _) = client.step(ClientEvent::ConnectFailed, &mut st);
    let (_, action) = client.step(ClientEvent::ConnectFailed, &mut st);
    assert!(matches!(action, ClientAction::Fail));
}

#[test]
fn on_the_second_attempt_discovery_must_work() {
    let mut st = status();
    let (client, _) = Client::start(Some("x".to_string()));
    let (client, _) = client.step(ClientEvent::ConnectFailed, &mut st);
    let (client, _) = client.step(ClientEvent::Connected, &mut st);
    let (_, action) = client.step(ClientEvent::SendFailed, &mut st);
    assert!(matches!(action, ClientAction::Fail));
    assert!(!st.connected);

    let (client, _) = Client::start(Some("x".to_string()));
    let (client, _) = client.step(ClientEvent::ConnectFailed, &mut st);
    let (client, _) = client.step(ClientEvent::Connected, &mut st);
    let (client, _) = client.step(ClientEvent::Sent, &mut st);
    let (_, action) = client.step(ClientEvent::ReceiveFailed, &mut st);
    assert!(matches!(action, ClientAction::Fail));
}

#[test]
fn a_single_prompt_that_fails_fails_the_client() {
    let mut st = status();
    let (client, _) = Client::start(Some("x".to_string()));
    let (client, _) = find(client, &mut st);
    let (_, action) = client.step(ClientEvent::TurnFailed, &mut st);
    assert!(matches!(action, ClientAction::Fail));
    assert!(st.connected);
}
