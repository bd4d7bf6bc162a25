use caravan::network::{CaravanMessage, PipelinePayload};
use caravan::turn::{Turn, TurnAction, TurnError, TurnPhase};

fn payload(msg: &CaravanMessage) -> &PipelinePayload {
    match msg {
        CaravanMessage::Forward(p) => p,
        other => panic!("{:?}", other),
    }
}

fn sent(action: &TurnAction) -> &PipelinePayload {
    match action {
        TurnAction::Send(msg) => payload(msg),
        other => panic!("{:?}", other),
    }
}

#[test]
fn a_turn_without_tokens_does_not_start() {
    assert_eq!(Turn::begin(vec![], 8, None, None).err(), Some(TurnError::EmptyPrompt));
    assert_eq!(TurnError::EmptyPrompt.message(), "Prompt resulted in empty tokens");
}

#[test]
fn a_prompt_of_one_token_is_decoded_at_once() {
    let (turn, first) = Turn::begin(vec![9], 8, None, None).unwrap();
    let p = sent(&first);
    assert_eq!(p.token_ids, vec![9]);
    assert!(p.activations.is_empty());
    assert_eq!(p.batch_size, 1);
    assert!(!p.is_prefill);
    assert_eq!(p.position, 0);
    assert_eq!(turn.phase(), TurnPhase::FirstToken);
}

#[test]
fn a_longer_prompt_is_filled_in_first() {
    let (mut turn, first) = Turn::begin(vec![9, 8, 7], 8, None, None).unwrap();
    let p = sent(&first);
    assert_eq!(p.token_ids, vec![9, 8]);
    assert_eq!(p.batch_size, 2);
    assert!(p.is_prefill);
    assert_eq!(p.position, 0);
    assert_eq!(turn.phase(), TurnPhase::Prefill);
    // Whatever comes back for it is passed over.
    let action = turn.on_reply(&CaravanMessage::DiscoveryResponse(vec![]));
    let p = sent(&action);
    assert_eq!(p.token_ids, vec![7]);
    assert!(!p.is_prefill);
    assert_eq!(p.position, 2);
    assert!(turn.generated().is_empty());
}

#[test]
fn tokens_follow_without_gaps() {
    let (mut turn, first) = Turn::begin(vec![9, 8, 7], 4, None, None).unwrap();
    let mut context: Vec<u32> = Vec::new();
    let mut messages = Vec::new();
    match first {
        TurnAction::Send(msg) => messages.push(msg),
        other => panic!("{:?}", other),
    }
    let mut reply = 100;
    loop {
        let msg = messages.last().unwrap();
        let p = payload(msg);
        assert_eq!(p.position, context.len());
        assert_eq!(p.batch_size, p.token_ids.len());
        assert_eq!(p.is_prefill, messages.len() == 1);
        context.extend(&p.token_ids);
        let mut action = turn.on_reply(&CaravanMessage::TokenResponse(reply));
        reply += 1;
        if matches!(action, TurnAction::Show) {
            action = turn.advance();
        }
        match action {
            TurnAction::Send(msg) => messages.push(msg),
            TurnAction::Done => break,
            other => panic!("{:?}", other),
        }
    }
    assert_eq!(turn.generated(), &[101, 102, 103, 104]);
    assert_eq!(context, vec![9, 8, 7, 101, 102, 103]);
    assert_eq!(turn.position(), 6);
    assert_eq!(turn.phase(), TurnPhase::Finished);
}

#[test]
fn an_end_token_ends_the_answer() {
    for (eos, eot) in [(Some(5), None), (None, Some(5)), (Some(1), Some(5))] {
        let (mut turn, _) = Turn::begin(vec![9], 100, eos, eot).unwrap();
        assert!(matches!(turn.on_reply(&CaravanMessage::TokenResponse(4)), TurnAction::Show));
        assert_eq!(sent(&turn.advance()).token_ids, vec![4]);
        assert!(matches!(turn.on_reply(&CaravanMessage::TokenResponse(5)), TurnAction::Show));
        assert!(matches!(turn.advance(), TurnAction::Done));
        assert_eq!(turn.generated(), &[4, 5]);
    }
}

#[test]
fn without_a_budget_the_swarm_is_not_asked() {
    for prompt in [vec![9], vec![9, 8, 7]] {
        let (turn, first) = Turn::begin(prompt, 0, None, None).unwrap();
        assert!(matches!(first, TurnAction::Done));
        assert_eq!(turn.phase(), TurnPhase::Finished);
        assert!(turn.generated().is_empty());
    }
    assert_eq!(Turn::begin(vec![], 0, None, None).err(), Some(TurnError::EmptyPrompt));
}

#[test]
fn a_budget_of_one_gives_one_token() {
    let (mut turn, _) = Turn::begin(vec![9], 1, None, None).unwrap();
    turn.on_reply(&CaravanMessage::TokenResponse(4));
    assert!(matches!(turn.advance(), TurnAction::Done));
    assert_eq!(turn.generated(), &[4]);
}

#[test]
fn something_other_than_a_token_ends_the_turn() {
    let (mut turn, _) = Turn::begin(vec![9], 8, None, None).unwrap();
    let action = turn.on_reply(&CaravanMessage::DiscoveryRequest(vec![]));
    assert!(matches!(action, TurnAction::Fail(TurnError::UnexpectedReply)));
    assert_eq!(turn.phase(), TurnPhase::Failed);
    assert_eq!(
        TurnError::UnexpectedReply.message(),
        "Unexpected non-token-response message received from pipeline"
    );
}

#[test]
fn a_turn_ends_within_its_budget() {
    for (prompt, budget) in [(vec![1], 3), (vec![1, 2], 3), (vec![1, 2, 3], 1)] {
        let (mut turn, mut action) = Turn::begin(prompt, budget, None, None).unwrap();
        let mut replies = 0;
        while !matches!(action, TurnAction::Done) {
            action = match action {
                TurnAction::Send(_) => {
                    replies += 1;
                    turn.on_reply(&CaravanMessage::TokenResponse(9))
                }
                TurnAction::Show => turn.advance(),
                other => panic!("{:?}", other),
            };
        }
        assert_eq!(turn.phase(), TurnPhase::Finished);
        assert_eq!(turn.generated().len(), budget);
        assert!(replies <= budget + 1);
    }
}

#[test]
fn only_new_text_is_shown() {
    let (mut turn, _) = Turn::begin(vec![9], 8, None, None).unwrap();
    let texts = ["", "Gr", "Grü", "Grü", "Grüße 🐪", "Grüße 🐪!"];
    let mut shown = String::new();
    for text in texts {
        match turn.take_new_text(text) {
            Some(piece) => {
                assert!(!piece.is_empty());
                shown.push_str(piece);
            }
            None => {}
        }
        assert_eq!(shown, text);
        assert_eq!(turn.printed(), text.len());
    }
    assert_eq!(turn.take_new_text("Gr"), None);
    assert_eq!(turn.printed(), "Grüße 🐪!".len());
}
