use caravan::chat::{Chat, ChatAction, ChatEvent, CHAT_MAX_TOKENS};
use caravan::network::{CaravanMessage, NodeDiscoveryInfo};
use caravan::status::SwarmStatus;
use caravan::turn::{Turn, TurnAction};

fn end(action: ChatAction) -> String {
    match action {
        ChatAction::End(text) => text,
        other => panic!("{:?}", other),
    }
}

fn online() -> SwarmStatus {
    let mut st = SwarmStatus::new(None);
    st.go_online(vec![NodeDiscoveryInfo {
        addr: "a".to_string(),
        layers: "0-1".to_string(),
        is_final: true,
        role: "r".to_string(),
    }]);
    st
}

/// A chat whose first message is on its way.
fn connected(prompt: Vec<u32>, st: &mut SwarmStatus) -> Chat {
    let (chat, action) = Chat::start(prompt, Some(2), None).unwrap();
    assert!(matches!(action, ChatAction::Connect));
    let (chat, action) = chat.step(ChatEvent::Connected, st);
    assert!(matches!(action, ChatAction::Send(CaravanMessage::DiscoveryRequest(ref n)) if n.is_empty()));
    let (chat, _) = chat.step(ChatEvent::Sent, st);
    let (chat, action) = chat.step(
        ChatEvent::Received(CaravanMessage::DiscoveryResponse(vec![])),
        st,
    );
    assert!(matches!(action, ChatAction::Send(CaravanMessage::Forward(_))));
    chat
}

fn replied(chat: Chat, token: u32, st: &mut SwarmStatus) -> (Chat, ChatAction) {
    let (chat, action) = chat.step(ChatEvent::Sent, st);
    assert!(matches!(action, ChatAction::Receive));
    chat.step(ChatEvent::Received(CaravanMessage::TokenResponse(token)), st)
}

#[test]
fn an_empty_prompt_is_told() {
    let text = Chat::start(vec![], None, None).err();
    assert_eq!(
        text,
        Some("data: [ERROR: Empty prompt]\n\ndata: [DONE]\n\n".to_string())
    );
}

#[test]
fn a_chat_streams_its_answer() {
    let mut st = SwarmStatus::new(None);
    let chat = connected(vec![7, 8], &mut st);
    assert!(st.connected);
    // The prompt but its last token.
    let (chat, action) = replied(chat, 99, &mut st);
    assert!(matches!(action, ChatAction::Send(_)));
    let (mut chat, action) = replied(chat, 1, &mut st);
    assert!(matches!(action, ChatAction::Show { first: true }));
    assert_eq!(chat.generated(), &[1]);
    assert_eq!(chat.show("Hé"), Some("data: Hé\n\n".to_string()));
    assert_eq!(chat.printed(), 3);
    let (chat, action) = chat.step(ChatEvent::Shown, &mut st);
    match action {
        ChatAction::Send(CaravanMessage::Forward(p)) => {
            assert_eq!(p.token_ids, vec![1]);
            assert_eq!(p.position, 2);
        }
        other => panic!("{:?}", other),
    }
    let (mut chat, action) = replied(chat, 2, &mut st);
    assert!(matches!(action, ChatAction::Show { first: false }));
    assert_eq!(chat.show("Hé"), None);
    assert_eq!(chat.show("Hé!"), Some("data: !\n\n".to_string()));
    let (_, action) = chat.step(ChatEvent::Shown, &mut st);
    assert_eq!(end(action), "data: [DONE]\n\n");
}

#[test]
fn an_answer_has_a_bounded_number_of_tokens() {
    let mut st = SwarmStatus::new(None);
    let mut chat = connected(vec![7], &mut st);
    let mut count = 0;
    loop {
        let (next, action) = replied(chat, 1, &mut st);
        count += 1;
        assert!(matches!(action, ChatAction::Show { first } if first == (count == 1)));
        let (next, action) = next.step(ChatEvent::Shown, &mut st);
        chat = next;
        match action {
            ChatAction::Send(_) => {}
            other => {
                assert_eq!(end(other), "data: [DONE]\n\n");
                break;
            }
        }
    }
    assert_eq!(count, CHAT_MAX_TOKENS);
    assert_eq!(CHAT_MAX_TOKENS, 128);
}

#[test]
fn a_chat_sends_what_a_turn_sends() {
    for prompt in [vec![7], vec![7, 8, 9]] {
        let tokens = [5, 6, 5, 2, 5];
        let (mut turn, mut action) =
            Turn::begin(prompt.clone(), CHAT_MAX_TOKENS, Some(2), None).unwrap();
        let mut by_turn = Vec::new();
        let mut replies = tokens.iter();
        loop {
            action = match action {
                TurnAction::Send(msg) => {
                    by_turn.push(format!("{:?}", msg));
                    turn.on_reply(&CaravanMessage::TokenResponse(*replies.next().unwrap()))
                }
                TurnAction::Show => turn.advance(),
                _ => break,
            };
        }
        let mut st = SwarmStatus::new(None);
        let (mut chat, mut action) = Chat::start(prompt, Some(2), None).unwrap();
        let mut by_chat = Vec::new();
        let mut replies = tokens.iter();
        let mut greeted = false;
        loop {
            let event = match action {
                ChatAction::Connect => ChatEvent::Connected,
                ChatAction::Send(msg) => {
                    if greeted {
                        by_chat.push(format!("{:?}", msg));
                    }
                    ChatEvent::Sent
                }
                ChatAction::Receive if !greeted => {
                    greeted = true;
                    ChatEvent::Received(CaravanMessage::DiscoveryResponse(vec![]))
                }
                ChatAction::Receive => {
                    ChatEvent::Received(CaravanMessage::TokenResponse(*replies.next().unwrap()))
                }
                ChatAction::Show { .. } => ChatEvent::Shown,
                ChatAction::End(_) => break,
            };
            let (next, what) = chat.step(event, &mut st);
            chat = next;
            action = what;
        }
        assert_eq!(by_chat, by_turn);
        assert_eq!(chat.generated(), turn.generated());
    }
}

#[test]
fn trouble_before_the_turn_is_told_and_means_offline() {
    let mut st = online();
    let (chat, _) = Chat::start(vec![7], None, None).unwrap();
    let (_, action) = chat.step(ChatEvent::ConnectFailed("refused".to_string()), &mut st);
    assert_eq!(
        end(action),
        "data: [ERROR: Failed to connect to swarm backend: refused]\n\ndata: [DONE]\n\n"
    );
    assert!(!st.connected);
    assert!(st.nodes.is_empty());

    let mut st = online();
    let (chat, _) = Chat::start(vec![7], None, None).unwrap();
    let (chat, _) = chat.step(ChatEvent::Connected, &mut st);
    let (_, action) = chat.step(ChatEvent::SendFailed("pipe".to_string()), &mut st);
    assert_eq!(
        end(action),
        "data: [ERROR: Failed to write handshake: pipe]\n\ndata: [DONE]\n\n"
    );
    assert!(!st.connected);

    let mut st = online();
    let (chat, _) = Chat::start(vec![7], None, None).unwrap();
    let (chat, _) = chat.step(ChatEvent::Connected, &mut st);
    let (chat, _) = chat.step(ChatEvent::Sent, &mut st);
    let (_, action) = chat.step(ChatEvent::ReceiveFailed("eof".to_string()), &mut st);
    assert_eq!(
        end(action),
        "data: [ERROR: Failed to read handshake response: eof]\n\ndata: [DONE]\n\n"
    );
    assert!(!st.connected);
}

#[test]
fn another_answer_to_the_discovery_changes_nothing() {
    let mut st = online();
    let (chat, _) = Chat::start(vec![7], None, None).unwrap();
    let (chat, _) = chat.step(ChatEvent::Connected, &mut st);
    let (chat, _) = chat.step(ChatEvent::Sent, &mut st);
    let (_, action) = chat.step(
        ChatEvent::Received(CaravanMessage::TokenResponse(3)),
        &mut st,
    );
    assert!(matches!(action, ChatAction::Send(CaravanMessage::Forward(_))));
    assert!(st.connected);
    assert_eq!(st.nodes.len(), 1);
}

fn failure_of(prompt: Vec<u32>, replies: &[u32], send: bool) -> String {
    let mut st = SwarmStatus::new(None);
    let mut chat = connected(prompt, &mut st);
    for token in replies {
        let (next, action) = replied(chat, *token, &mut st);
        chat = match action {
            ChatAction::Show { .. } => next.step(ChatEvent::Shown, &mut st).0,
            _ => next,
        };
    }
    let action = if send {
        chat.step(ChatEvent::SendFailed("e".to_string()), &mut st).1
    } else {
        let (chat, _) = chat.step(ChatEvent::Sent, &mut st);
        chat.step(ChatEvent::ReceiveFailed("e".to_string()), &mut st).1
    };
    assert!(st.connected);
    end(action)
}

#[test]
fn trouble_in_the_turn_is_told_by_its_phase() {
    let done = "]\n\ndata: [DONE]\n\n";
    assert_eq!(
        failure_of(vec![7, 8], &[], true),
        format!("data: [ERROR: Prefill send failed: e{}", done)
    );
    assert_eq!(
        failure_of(vec![7, 8], &[], false),
        format!("data: [ERROR: Prefill response failed: e{}", done)
    );
    assert_eq!(
        failure_of(vec![7, 8], &[9], true),
        format!("data: [ERROR: Prefill final send failed: e{}", done)
    );
    assert_eq!(
        failure_of(vec![7, 8], &[9], false),
        format!("data: [ERROR: Prefill final response failed: e{}", done)
    );
    assert_eq!(
        failure_of(vec![7, 8], &[9, 1], true),
        format!("data: [ERROR: Decode send failed: e{}", done)
    );
    assert_eq!(
        failure_of(vec![7], &[1], false),
        format!("data: [ERROR: Decode response failed: e{}", done)
    );
}

#[test]
fn something_other_than_a_token_is_told() {
    let mut st = SwarmStatus::new(None);
    let chat = connected(vec![7], &mut st);
    let (chat, _) = chat.step(ChatEvent::Sent, &mut st);
    let other = CaravanMessage::DiscoveryResponse(vec![]);
    let (_, action) = chat.step(ChatEvent::Received(other), &mut st);
    assert_eq!(
        end(action),
        "data: [ERROR: Unexpected prefill response type]\n\ndata: [DONE]\n\n"
    );

    let chat = connected(vec![7], &mut st);
    let (chat, _) = replied(chat, 1, &mut st);
    let (chat, _) = chat.step(ChatEvent::Shown, &mut st);
    let (chat, _) = chat.step(ChatEvent::Sent, &mut st);
    let other = CaravanMessage::DiscoveryRequest(vec![]);
    let (_, action) = chat.step(ChatEvent::Received(other), &mut st);
    assert_eq!(
        end(action),
        "data: [ERROR: Unexpected decode response type]\n\ndata: [DONE]\n\n"
    );
}
