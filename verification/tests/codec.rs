//! Frame codec behaviour: round trips, the length prefix, partial
//! frames, premature close, and malformed bodies.

use tour_guide::codec::{decode_body, encode_frame, encode_message, try_decode, FrameStatus};
use tour_guide::messages::{Error, Failure, Location, Message, Payload, Request, Response};

fn frame_of(m: &Message) -> Vec<u8> {
    encode_frame(m).expect("the body length fits the prefix")
}

fn assert_round_trip(m: &Message) {
    let frame = frame_of(m);
    match try_decode(&frame, false) {
        FrameStatus::Frame(m2, consumed) => {
            assert_eq!(consumed, frame.len());
            assert_eq!(format!("{:?}", m2), format!("{:?}", m));
        },
        other => panic!("expected a frame, got {:?}", other),
    }
    let body = encode_message(m);
    let m3 = decode_body(&body).expect("an encoded body decodes");
    assert_eq!(format!("{:?}", m3), format!("{:?}", m));
}

#[test]
fn round_trip_requests() {
    assert_round_trip(&Message::new_request(Request::List));
    assert_round_trip(&Message::new_request(Request::Current));
    assert_round_trip(&Message::new_request(Request::Next));
    assert_round_trip(&Message::new_request(Request::Put(Location::BEACH)));
    assert_round_trip(&Message::new_request(Request::Del(Location::SHOP)));
    assert_round_trip(&Message::new_request(Request::Mov(Location::CAFE, 0)));
    assert_round_trip(&Message::new_request(Request::Mov(Location::CHURCH, 7)));
    assert_round_trip(&Message::new_request(Request::Mov(Location::HOME, u32::MAX)));
}

#[test]
fn round_trip_responses() {
    assert_round_trip(&Message::new_response(Response::Success));
    assert_round_trip(&Message::new_response(Response::Done));
    assert_round_trip(&Message::new_response(Response::Failure(Failure::InvalidRequest)));
    assert_round_trip(&Message::new_response(Response::Failure(Failure::InvalidResponse)));
    assert_round_trip(&Message::new_response(Response::Failure(
        Failure::LocationNotOnItinerary,
    )));
    assert_round_trip(&Message::new_response(Response::List(vec![])));
    assert_round_trip(&Message::new_response(Response::List(vec![Location::WOODS])));
    assert_round_trip(&Message::new_response(Response::List(vec![
        Location::HOME,
        Location::CITY,
        Location::WOODS,
        Location::BEACH,
        Location::FIELD,
        Location::CAFE,
        Location::SHOP,
        Location::CHURCH,
    ])));
    assert_round_trip(&Message::new_response(Response::Where(Location::FIELD)));
}

#[test]
fn round_trip_every_location() {
    for l in [
        Location::HOME,
        Location::CITY,
        Location::WOODS,
        Location::BEACH,
        Location::FIELD,
        Location::CAFE,
        Location::SHOP,
        Location::CHURCH,
    ] {
        assert_round_trip(&Message::new_request(Request::Put(l)));
        assert_round_trip(&Message::new_response(Response::Where(l)));
    }
}

#[test]
fn exact_encoding_of_a_request() {
    let body = encode_message(&Message::new_request(Request::List));
    assert_eq!(body, br#"{"header":null,"data":{"Request":"List"}}"#.to_vec());
    let body = encode_message(&Message::new_request(Request::Mov(Location::CAFE, 4294967295)));
    assert_eq!(
        body,
        br#"{"header":null,"data":{"Request":{"Mov":["CAFE",4294967295]}}}"#.to_vec()
    );
}

#[test]
fn exact_encoding_of_a_response() {
    let body = encode_message(&Message::new_response(Response::Where(Location::CHURCH)));
    assert_eq!(
        body,
        br#"{"header":null,"data":{"Response":{"Where":"CHURCH"}}}"#.to_vec()
    );
    let body = encode_message(&Message::new_response(Response::List(vec![
        Location::HOME,
        Location::CHURCH,
    ])));
    assert_eq!(
        body,
        br#"{"header":null,"data":{"Response":{"List":["HOME","CHURCH"]}}}"#.to_vec()
    );
    let body = encode_message(&Message::new_response(Response::Failure(
        Failure::LocationNotOnItinerary,
    )));
    assert_eq!(
        body,
        br#"{"header":null,"data":{"Response":{"Failure":"LocationNotOnItinerary"}}}"#.to_vec()
    );
}

#[test]
fn length_prefix_is_exact() {
    for m in [
        Message::new_request(Request::Current),
        Message::new_request(Request::Mov(Location::WOODS, 123456)),
        Message::new_response(Response::List(vec![Location::BEACH, Location::FIELD])),
    ] {
        let frame = frame_of(&m);
        let n = u32::from_be_bytes([frame[0], frame[1], frame[2], frame[3]]) as usize;
        assert_eq!(n, frame.len() - 4);
        assert_eq!(&frame[4..], &encode_message(&m)[..]);
    }
}

#[test]
fn partial_frame_blocks() {
    let frame = frame_of(&Message::new_request(Request::Next));
    for k in 0..frame.len() {
        assert!(matches!(try_decode(&frame[..k], false), FrameStatus::NeedMore));
    }
    assert!(matches!(try_decode(&frame, false), FrameStatus::Frame(_, _)));
}

#[test]
fn resumes_once_all_bytes_arrive() {
    let frame = frame_of(&Message::new_response(Response::Done));
    let cut = frame.len() / 2;
    assert!(matches!(try_decode(&frame[..cut], false), FrameStatus::NeedMore));
    let mut buf = frame[..cut].to_vec();
    buf.extend_from_slice(&frame[cut..]);
    match try_decode(&buf, false) {
        FrameStatus::Frame(m, consumed) => {
            assert_eq!(consumed, frame.len());
            assert_eq!(
                format!("{:?}", m),
                format!("{:?}", Message::new_response(Response::Done))
            );
        },
        other => panic!("expected a frame, got {:?}", other),
    }
}

#[test]
fn premature_close_is_a_transport_failure() {
    let frame = frame_of(&Message::new_request(Request::List));
    // before the 4-byte prefix is complete
    assert!(matches!(try_decode(&frame[..0], true), FrameStatus::Truncated));
    assert!(matches!(try_decode(&frame[..2], true), FrameStatus::Truncated));
    // before the body is complete
    assert!(matches!(try_decode(&frame[..5], true), FrameStatus::Truncated));
    assert!(matches!(
        try_decode(&frame[..frame.len() - 1], true),
        FrameStatus::Truncated
    ));
    // a complete frame decodes even on a closed connection
    assert!(matches!(try_decode(&frame, true), FrameStatus::Frame(_, _)));
}

#[test]
fn malformed_body_is_a_parse_failure() {
    let mut frame = vec![0u8, 0, 0, 5];
    frame.extend_from_slice(b"junk!");
    assert!(matches!(try_decode(&frame, false), FrameStatus::Malformed));
    assert!(matches!(decode_body(b"junk!"), Err(Error::Parse)));
    assert!(matches!(decode_body(b""), Err(Error::Parse)));
}

#[test]
fn trailing_bytes_in_a_body_are_rejected() {
    let mut body = encode_message(&Message::new_request(Request::Next));
    body.push(b' ');
    assert!(matches!(decode_body(&body), Err(Error::Parse)));
}

#[test]
fn non_canonical_numbers_are_rejected() {
    let good = br#"{"header":null,"data":{"Request":{"Mov":["HOME",12]}}}"#;
    assert!(decode_body(good).is_ok());
    let leading_zero = br#"{"header":null,"data":{"Request":{"Mov":["HOME",012]}}}"#;
    assert!(matches!(decode_body(leading_zero), Err(Error::Parse)));
    let too_large = br#"{"header":null,"data":{"Request":{"Mov":["HOME",4294967296]}}}"#;
    assert!(matches!(decode_body(too_large), Err(Error::Parse)));
    let empty = br#"{"header":null,"data":{"Request":{"Mov":["HOME",]}}}"#;
    assert!(matches!(decode_body(empty), Err(Error::Parse)));
}

#[test]
fn unknown_names_are_rejected() {
    let bad_location = br#"{"header":null,"data":{"Request":{"Put":"MUSEUM"}}}"#;
    assert!(matches!(decode_body(bad_location), Err(Error::Parse)));
    let bad_tag = br#"{"header":null,"data":{"Request":"Stop"}}"#;
    assert!(matches!(decode_body(bad_tag), Err(Error::Parse)));
    let bad_shape = br#"{"header":null,"data":"List"}"#;
    assert!(matches!(decode_body(bad_shape), Err(Error::Parse)));
}

#[test]
fn a_populated_header_is_not_part_of_the_vocabulary() {
    // the header slot is reserved: only `null` decodes
    let populated = br#"{"header":1,"data":{"Request":"List"}}"#;
    assert!(matches!(decode_body(populated), Err(Error::Parse)));
}

#[test]
fn extra_bytes_after_a_frame_stay_in_the_buffer() {
    let frame = frame_of(&Message::new_request(Request::Current));
    let mut buf = frame.clone();
    buf.extend_from_slice(&frame_of(&Message::new_request(Request::Next)));
    match try_decode(&buf, false) {
        FrameStatus::Frame(_, consumed) => assert_eq!(consumed, frame.len()),
        other => panic!("expected a frame, got {:?}", other),
    }
}

#[test]
fn message_constructors_carry_their_payload() {
    let m = Message::new(Payload::Request(Request::Current));
    assert!(matches!(m.data, Payload::Request(Request::Current)));
    assert!(m.header.is_none());
    let m = Message::new_response(Response::Success);
    assert!(matches!(m.data, Payload::Response(Response::Success)));
    let m = Message::new_request(Request::Next);
    assert!(matches!(m.data, Payload::Request(Request::Next)));
}
