use helix::runtime::content::digest;
use helix::runtime::p2p::{ContentSourceError, PeerId};
use helix::runtime::p2p_libp2p::{
    content_id_from_bytes, decode_request, decode_response, encode_request, encode_response,
    frame_length, hex_to_bytes, BitswapRequest, BitswapResponse, NodeAction, NodeEvent, SwarmNode,
};

#[test]
fn hex_roundtrips_content_id() {
    let id = digest(b"abc");
    let bytes = hex_to_bytes(&id.0);
    assert_eq!(content_id_from_bytes(&bytes), id);
}

#[test]
fn frames_round_trip() {
    let req = BitswapRequest { content_id: vec![1, 2, 3] };
    let framed = encode_request(&req);
    assert_eq!(decode_request(&framed), Some(req));
    let res = BitswapResponse { result: Some(vec![9, 8]) };
    assert_eq!(decode_response(&encode_response(&res)), Some(res));
    let none = BitswapResponse { result: None };
    assert_eq!(decode_response(&encode_response(&none)), Some(none));
}

#[test]
fn frame_length_is_big_endian() {
    assert_eq!(frame_length(&[0, 0, 1, 2]), 258);
}

#[test]
fn a_node_serves_what_it_provides() {
    let mut node = SwarmNode::new();
    let id = digest(b"block");
    let a = node.step(NodeEvent::Provide { id: id.clone(), bytes: b"block".to_vec(), reply: 1 });
    assert!(matches!(a, NodeAction::Announce { reply: 1, .. }));
    let asked = NodeEvent::BlockRequested { content_id: hex_to_bytes(&id.0), channel: 4 };
    match node.step(asked) {
        NodeAction::Respond { channel, response } => {
            assert_eq!(channel, 4);
            assert_eq!(response.result, Some(b"block".to_vec()));
        }
        other => panic!("{:?}", other),
    }
}

#[test]
fn received_blocks_are_verified() {
    let mut node = SwarmNode::new();
    let id = digest(b"wanted");
    let sent = node.step(NodeEvent::Fetch { peer: PeerId::new("p"), id: id.clone(), reply: 2 });
    assert!(matches!(sent, NodeAction::Send { reply: 2, .. }));
    for (request, result) in [
        (10, Some(b"wanted".to_vec())),
        (11, Some(b"forged".to_vec())),
        (12, None),
    ] {
        node.step(NodeEvent::FetchStarted { request, id: id.clone(), reply: 2 });
        let got = match node.step(NodeEvent::BlockReceived { request, result }) {
            NodeAction::Block { result, .. } => result,
            other => panic!("{:?}", other),
        };
        match request {
            10 => assert_eq!(got, Ok(b"wanted".to_vec())),
            11 => assert_eq!(got, Err(ContentSourceError::Integrity(id.clone()))),
            _ => assert_eq!(got, Err(ContentSourceError::Unavailable(id.clone()))),
        }
    }
    let late = NodeEvent::BlockReceived { request: 10, result: None };
    assert!(matches!(node.step(late), NodeAction::Idle));
}

#[test]
fn providers_are_gathered_until_the_last_step() {
    let mut node = SwarmNode::new();
    let id = digest(b"x");
    assert!(matches!(
        node.step(NodeEvent::GetProviders { id, reply: 5 }),
        NodeAction::Query { reply: 5, .. }
    ));
    node.step(NodeEvent::QueryStarted { query: 7, reply: 5 });
    let first = NodeEvent::ProvidersFound { query: 7, found: vec![PeerId::new("a")], last: false };
    assert!(matches!(node.step(first), NodeAction::Idle));
    let last = NodeEvent::ProvidersFound { query: 7, found: vec![PeerId::new("b")], last: true };
    match node.step(last) {
        NodeAction::Providers { reply, providers } => {
            assert_eq!(reply, 5);
            let names: Vec<String> = providers.into_iter().map(|p| p.peer.0).collect();
            assert_eq!(names, vec!["a", "b"]);
        }
        other => panic!("{:?}", other),
    }
    assert!(matches!(node.step(NodeEvent::Closed), NodeAction::Stop));
}
