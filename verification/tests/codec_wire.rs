use lobby_relay::codec::{
    decode_client_message, decode_server_message, encode_client_message, encode_event,
    encode_request, encode_server_message, parse_request, WireFrame,
};
use lobby_relay::protocol::{ClientMessage, DecodeError, PeerEvent, PeerRequest, ServerMessage};

#[test]
fn keepalive_text_round_trip() {
    let wire = encode_request(&PeerRequest::KeepAlive);
    assert_eq!(wire, "\"KeepAlive\"".as_bytes().to_vec());
    assert_eq!(parse_request(&wire), Ok(PeerRequest::KeepAlive));
}

#[test]
fn signal_text_round_trip() {
    let req = PeerRequest::Signal {
        receiver: 42,
        data: "{\"a\":1}".as_bytes().to_vec(),
    };
    let wire = encode_request(&req);
    assert_eq!(
        wire,
        "{\"Signal\":{\"receiver\":42,\"data\":{\"a\":1}}}".as_bytes().to_vec()
    );
    assert_eq!(parse_request(&wire), Ok(req));
}

#[test]
fn largest_identity_round_trips() {
    let req = PeerRequest::Signal {
        receiver: u64::MAX,
        data: "null".as_bytes().to_vec(),
    };
    let wire = encode_request(&req);
    assert_eq!(
        wire,
        "{\"Signal\":{\"receiver\":18446744073709551615,\"data\":null}}"
            .as_bytes()
            .to_vec()
    );
    assert_eq!(parse_request(&wire), Ok(req));
}

#[test]
fn garbage_text_is_unrecognized() {
    assert_eq!(
        parse_request(&vec![7u8, 7, 7]),
        Err(DecodeError::Unrecognized)
    );
    assert_eq!(parse_request(&Vec::new()), Err(DecodeError::Unrecognized));
}

#[test]
fn signal_without_digits_is_unrecognized() {
    let wire = "{\"Signal\":{\"receiver\":,\"data\":1}}".as_bytes().to_vec();
    assert_eq!(parse_request(&wire), Err(DecodeError::Unrecognized));
}

#[test]
fn oversized_identity_is_unrecognized() {
    let wire = "{\"Signal\":{\"receiver\":99999999999999999999,\"data\":1}}"
        .as_bytes()
        .to_vec();
    assert_eq!(parse_request(&wire), Err(DecodeError::Unrecognized));
}

#[test]
fn empty_signal_payload_is_unrecognized() {
    let wire = "{\"Signal\":{\"receiver\":5,\"data\":}}".as_bytes().to_vec();
    assert_eq!(parse_request(&wire), Err(DecodeError::Unrecognized));
}

#[test]
fn unterminated_signal_is_unrecognized() {
    let wire = "{\"Signal\":{\"receiver\":5,\"data\":1}".as_bytes().to_vec();
    assert_eq!(parse_request(&wire), Err(DecodeError::Unrecognized));
}

#[test]
fn announcement_texts_are_exact() {
    assert_eq!(
        encode_event(&PeerEvent::IdAssigned(0)),
        WireFrame::Text("{\"IdAssigned\":0}".as_bytes().to_vec())
    );
    assert_eq!(
        encode_event(&PeerEvent::NewPeer(7)),
        WireFrame::Text("{\"NewPeer\":7}".as_bytes().to_vec())
    );
    assert_eq!(
        encode_event(&PeerEvent::PeerLeft(12345)),
        WireFrame::Text("{\"PeerLeft\":12345}".as_bytes().to_vec())
    );
    assert_eq!(
        encode_event(&PeerEvent::Signal {
            sender: 3,
            data: "null".as_bytes().to_vec()
        }),
        WireFrame::Text("{\"Signal\":{\"sender\":3,\"data\":null}}".as_bytes().to_vec())
    );
}

#[test]
fn application_frames_are_relayed_verbatim() {
    let bytes = vec![0u8, 255, 3];
    assert_eq!(
        encode_event(&PeerEvent::Application { data: bytes.clone() }),
        WireFrame::Binary(bytes)
    );
}

#[test]
fn binary_frames_match_bincode() {
    let mine = encode_client_message(&ClientMessage::HelloFromClient);
    assert_eq!(mine, bincode::serialize(&0u32).expect("serialize"));
    assert_eq!(
        bincode::deserialize::<u32>(&mine).expect("deserialize"),
        0u32
    );
    assert_eq!(
        encode_server_message(&ServerMessage::HelloFromServer),
        vec![0u8, 0, 0, 0]
    );
}

#[test]
fn binary_decode_accepts_trailing_bytes() {
    assert_eq!(
        decode_server_message(&vec![0u8, 0, 0, 0, 9]),
        Ok(ServerMessage::HelloFromServer)
    );
    assert_eq!(
        decode_client_message(&vec![0u8, 0, 0, 0]),
        Ok(ClientMessage::HelloFromClient)
    );
}

#[test]
fn binary_decode_errors_are_classified() {
    assert_eq!(
        decode_server_message(&vec![0u8, 0]),
        Err(DecodeError::Truncated)
    );
    assert_eq!(
        decode_server_message(&vec![1u8, 0, 0, 0]),
        Err(DecodeError::Unrecognized)
    );
    assert_eq!(
        decode_client_message(&Vec::new()),
        Err(DecodeError::Truncated)
    );
}
