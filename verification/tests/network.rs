use caravan::network::{
    announced_len, encoded_len, recv_message, send_message, CaravanMessage, NetworkError, NodeDiscoveryInfo,
    PipelinePayload,
};

fn node(addr: &str, layers: &str, is_final: bool, role: &str) -> NodeDiscoveryInfo {
    NodeDiscoveryInfo {
        addr: addr.to_string(),
        layers: layers.to_string(),
        is_final,
        role: role.to_string(),
    }
}

fn assert_same(a: &CaravanMessage, b: &CaravanMessage) {
    assert_eq!(format!("{:?}", a), format!("{:?}", b));
}

fn framed(body: &[u8]) -> Vec<u8> {
    let mut stream = (body.len() as u64).to_be_bytes().to_vec();
    stream.extend_from_slice(body);
    stream
}

#[test]
fn token_response_round_trip() {
    let mut stream = Vec::new();
    send_message(&mut stream, &CaravanMessage::TokenResponse(7)).unwrap();
    assert_eq!(stream, vec![0, 0, 0, 0, 0, 0, 0, 8, 1, 0, 0, 0, 7, 0, 0, 0]);
    match recv_message(&stream) {
        Ok((CaravanMessage::TokenResponse(t), used)) => {
            assert_eq!(t, 7);
            assert_eq!(used, 16);
        }
        other => panic!("{:?}", other),
    }
}

#[test]
fn forward_has_its_fields_in_order() {
    let msg = CaravanMessage::Forward(PipelinePayload {
        token_ids: vec![258, 5],
        activations: vec![1.0f32.to_bits()],
        batch_size: 2,
        is_prefill: true,
        position: 3,
    });
    let mut stream = Vec::new();
    send_message(&mut stream, &msg).unwrap();
    let body: Vec<u8> = vec![
        0, 0, 0, 0, // variant
        2, 0, 0, 0, 0, 0, 0, 0, // number of tokens
        2, 1, 0, 0, 5, 0, 0, 0, // tokens
        1, 0, 0, 0, 0, 0, 0, 0, // number of activations
        0, 0, 128, 63, // 1.0
        2, 0, 0, 0, 0, 0, 0, 0, // batch size
        1, // prefill
        3, 0, 0, 0, 0, 0, 0, 0, // position
    ];
    assert_eq!(stream, framed(&body));
    let (got, used) = recv_message(&stream).unwrap();
    assert_same(&got, &msg);
    assert_eq!(used, stream.len());
}

#[test]
fn activations_keep_every_bit() {
    let floats = [0.0f32, -0.0, 1.5, f32::MIN_POSITIVE, f32::INFINITY, f32::NAN];
    let msg = CaravanMessage::Forward(PipelinePayload {
        token_ids: vec![],
        activations: floats.iter().map(|x| x.to_bits()).collect(),
        batch_size: 1,
        is_prefill: false,
        position: usize::MAX,
    });
    let mut stream = Vec::new();
    send_message(&mut stream, &msg).unwrap();
    match recv_message(&stream) {
        Ok((CaravanMessage::Forward(p), _)) => {
            let bits: Vec<u32> = floats.iter().map(|x| x.to_bits()).collect();
            assert_eq!(p.activations, bits);
            assert_eq!(p.position, usize::MAX);
            assert!(!p.is_prefill);
        }
        other => panic!("{:?}", other),
    }
}

#[test]
fn discovery_messages_have_their_nodes_in_order() {
    let nodes = vec![
        node("a:1", "0-1", false, "Node 0 / Prefill"),
        node("é", "", true, "Sampler / Final"),
    ];
    let request = CaravanMessage::DiscoveryRequest(nodes.clone());
    let response = CaravanMessage::DiscoveryResponse(nodes);
    let mut a = Vec::new();
    let mut b = Vec::new();
    send_message(&mut a, &request).unwrap();
    send_message(&mut b, &response).unwrap();
    let head: Vec<u8> = vec![
        2, 0, 0, 0, // variant
        2, 0, 0, 0, 0, 0, 0, 0, // number of nodes
        3, 0, 0, 0, 0, 0, 0, 0, 97, 58, 49, // address
        3, 0, 0, 0, 0, 0, 0, 0, 48, 45, 49, // layers
        0, // final
        16, 0, 0, 0, 0, 0, 0, 0, // length of the role
    ];
    assert_eq!(&a[8..8 + head.len()], &head[..]);
    assert_eq!(a[8], 2);
    assert_eq!(b[8], 3);
    assert_eq!(a[9..], b[9..]);
    let (got, used) = recv_message(&a).unwrap();
    assert_same(&got, &request);
    assert_eq!(used, a.len());
    let (got, _) = recv_message(&b).unwrap();
    assert_same(&got, &response);
}

#[test]
fn messages_are_written_as_a_derived_enum_is() {
    let mut stream = Vec::new();
    send_message(&mut stream, &CaravanMessage::DiscoveryRequest(vec![])).unwrap();
    assert_eq!(stream, framed(&[2, 0, 0, 0, 0, 0, 0, 0, 0, 0, 0, 0]));
}

#[test]
fn messages_arrive_in_order() {
    let sent = [
        CaravanMessage::TokenResponse(u32::MAX),
        CaravanMessage::DiscoveryRequest(vec![]),
        CaravanMessage::Forward(PipelinePayload {
            token_ids: vec![1, 2, 3],
            activations: vec![],
            batch_size: 3,
            is_prefill: true,
            position: 0,
        }),
        CaravanMessage::DiscoveryResponse(vec![node("x", "y", true, "z")]),
    ];
    let mut stream = vec![];
    for msg in &sent {
        send_message(&mut stream, msg).unwrap();
    }
    let mut rest: &[u8] = &stream;
    for msg in &sent {
        let (got, used) = recv_message(rest).unwrap();
        assert_same(&got, msg);
        rest = &rest[used..];
    }
    assert!(rest.is_empty());
    assert!(matches!(recv_message(rest), Err(NetworkError::Closed)));
}

#[test]
fn sending_keeps_what_is_on_the_stream() {
    let mut stream = vec![9, 9];
    send_message(&mut stream, &CaravanMessage::TokenResponse(1)).unwrap();
    assert_eq!(stream, vec![9, 9, 0, 0, 0, 0, 0, 0, 0, 8, 1, 0, 0, 0, 1, 0, 0, 0]);
}

#[test]
fn a_frame_that_is_cut_off_is_closed() {
    let mut stream = Vec::new();
    send_message(&mut stream, &CaravanMessage::TokenResponse(7)).unwrap();
    for n in 0..stream.len() {
        assert!(matches!(recv_message(&stream[..n]), Err(NetworkError::Closed)));
    }
    let huge = [255u8; 12];
    assert!(matches!(recv_message(&huge), Err(NetworkError::Closed)));
}

#[test]
fn an_unknown_kind_is_reported() {
    let stream = framed(&[4, 0, 0, 0, 7, 0, 0, 0]);
    match recv_message(&stream) {
        Err(NetworkError::UnknownVariant(v)) => assert_eq!(v, 4),
        other => panic!("{:?}", other),
    }
    let stream = framed(&[1, 2, 3, 4]);
    match recv_message(&stream) {
        Err(NetworkError::UnknownVariant(v)) => assert_eq!(v, 0x0403_0201),
        other => panic!("{:?}", other),
    }
}

#[test]
fn a_frame_without_a_message_is_refused() {
    // No variant number.
    assert!(matches!(recv_message(&framed(&[1, 0, 0])), Err(NetworkError::Codec(_))));
    // A token that is cut off.
    assert!(matches!(recv_message(&framed(&[1, 0, 0, 0, 7, 0])), Err(NetworkError::Codec(_))));
    // More nodes than there are.
    assert!(matches!(
        recv_message(&framed(&[3, 0, 0, 0, 1, 0, 0, 0, 0, 0, 0, 0])),
        Err(NetworkError::Codec(_))
    ));
    // A truth value that is neither.
    let mut body = vec![0, 0, 0, 0];
    body.extend_from_slice(&[0; 8]);
    body.extend_from_slice(&[0; 8]);
    body.extend_from_slice(&[1, 0, 0, 0, 0, 0, 0, 0]);
    body.push(2);
    body.extend_from_slice(&[0; 8]);
    assert!(matches!(recv_message(&framed(&body)), Err(NetworkError::Codec(_))));
    // A text that is not UTF-8.
    let mut body = vec![2, 0, 0, 0, 1, 0, 0, 0, 0, 0, 0, 0];
    body.extend_from_slice(&[1, 0, 0, 0, 0, 0, 0, 0, 255]);
    body.extend_from_slice(&[0; 8]);
    body.push(0);
    body.extend_from_slice(&[0; 8]);
    assert!(matches!(recv_message(&framed(&body)), Err(NetworkError::Codec(_))));
}

#[test]
fn what_follows_a_message_in_its_frame_is_skipped() {
    let stream = framed(&[1, 0, 0, 0, 7, 0, 0, 0, 99, 99]);
    match recv_message(&stream) {
        Ok((CaravanMessage::TokenResponse(t), used)) => {
            assert_eq!(t, 7);
            assert_eq!(used, 18);
        }
        other => panic!("{:?}", other),
    }
}

#[test]
fn the_length_is_most_significant_byte_first() {
    assert_eq!(announced_len(&[0, 0, 0, 0, 0, 0, 1, 2]), 258);
    assert_eq!(announced_len(&[255; 8]), u64::MAX);
}

#[test]
fn a_hop_costs_little_more_than_its_activations() {
    let msg = CaravanMessage::Forward(PipelinePayload {
        token_ids: vec![1],
        activations: vec![0; 2048],
        batch_size: 1,
        is_prefill: false,
        position: 9,
    });
    let mut stream = Vec::new();
    send_message(&mut stream, &msg).unwrap();
    assert_eq!(stream.len(), 45 + 4 + 4 * 2048);
}

#[test]
fn the_length_is_known_beforehand() {
    let messages = [
        CaravanMessage::TokenResponse(1),
        CaravanMessage::Forward(PipelinePayload {
            token_ids: vec![1, 2],
            activations: vec![3; 7],
            batch_size: 2,
            is_prefill: true,
            position: 0,
        }),
        CaravanMessage::DiscoveryRequest(vec![]),
        CaravanMessage::DiscoveryResponse(vec![node("é", "0-1", true, ""), node("", "", false, "🐪")]),
    ];
    for msg in &messages {
        let mut stream = Vec::new();
        send_message(&mut stream, msg).unwrap();
        assert_eq!(encoded_len(msg), Some(stream.len() - 8));
    }
}
