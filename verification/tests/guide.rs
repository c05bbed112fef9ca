//! Itinerary decision scenarios, the single-exchange dispatcher step,
//! and the connect-retry policy.

use tour_guide::client::{ConnectOutcome, ConnectStep, Traveller, RETRY_DELAY_MS};
use tour_guide::dispatch::{exchange_step, ConnEvent, ExchangeStage};
use tour_guide::itinerary::{decide, Itinerary};
use tour_guide::messages::{Failure, Location, Message, Payload, Request, Response};

fn sample_itinerary() -> Itinerary {
    Itinerary::new(vec![Location::HOME, Location::CHURCH, Location::WOODS])
}

fn expect_response(m: &Message) -> &Response {
    match &m.data {
        Payload::Response(r) => r,
        Payload::Request(_) => panic!("the tour-guide answered with a request"),
    }
}

#[test]
fn current_answers_the_stop_at_the_cursor() {
    let mut state = sample_itinerary();
    let reply = decide(&Message::new_request(Request::Current), &mut state);
    assert!(matches!(expect_response(&reply), Response::Where(Location::HOME)));
    assert_eq!(state.cursor(), 0);
}

#[test]
fn next_advances_the_cursor_until_the_end() {
    let mut state = sample_itinerary();

    let reply = decide(&Message::new_request(Request::Next), &mut state);
    assert!(matches!(expect_response(&reply), Response::Where(Location::CHURCH)));
    assert_eq!(state.cursor(), 1);

    let reply = decide(&Message::new_request(Request::Next), &mut state);
    assert!(matches!(expect_response(&reply), Response::Where(Location::WOODS)));
    assert_eq!(state.cursor(), 2);

    // out of range: `Done`, and the cursor is not advanced past the end
    let reply = decide(&Message::new_request(Request::Next), &mut state);
    assert!(matches!(expect_response(&reply), Response::Done));
    assert_eq!(state.cursor(), 2);
}

#[test]
fn list_answers_all_stops_regardless_of_the_cursor() {
    let mut state = sample_itinerary();
    decide(&Message::new_request(Request::Next), &mut state);
    let reply = decide(&Message::new_request(Request::List), &mut state);
    match expect_response(&reply) {
        Response::List(stops) => {
            assert_eq!(stops, &vec![Location::HOME, Location::CHURCH, Location::WOODS]);
        },
        other => panic!("expected the stop list, got {:?}", other),
    }
    assert_eq!(state.cursor(), 1);
}

#[test]
fn a_stray_response_is_an_invalid_request() {
    let mut state = sample_itinerary();
    let reply = decide(&Message::new_response(Response::Success), &mut state);
    assert!(matches!(
        expect_response(&reply),
        Response::Failure(Failure::InvalidRequest)
    ));
    assert_eq!(state.cursor(), 0);
}

#[test]
fn unimplemented_requests_are_invalid() {
    let mut state = sample_itinerary();
    for req in [
        Request::Put(Location::CAFE),
        Request::Del(Location::HOME),
        Request::Mov(Location::WOODS, 1),
    ] {
        let reply = decide(&Message::new_request(req), &mut state);
        assert!(matches!(
            expect_response(&reply),
            Response::Failure(Failure::InvalidRequest)
        ));
    }
    assert_eq!(state.cursor(), 0);
    assert_eq!(state.stops().len(), 3);
}

#[test]
fn an_empty_itinerary_has_no_current_stop() {
    let mut state = Itinerary::new(vec![]);
    let reply = decide(&Message::new_request(Request::Current), &mut state);
    assert!(matches!(
        expect_response(&reply),
        Response::Failure(Failure::LocationNotOnItinerary)
    ));
    let reply = decide(&Message::new_request(Request::Next), &mut state);
    assert!(matches!(expect_response(&reply), Response::Done));
    assert_eq!(state.cursor(), 0);
}

#[test]
fn serialized_next_exchanges_lose_no_update() {
    let mut state = sample_itinerary();
    for _ in 0..5 {
        decide(&Message::new_request(Request::Next), &mut state);
    }
    // three stops: five serialized advances stop at the last valid index
    assert_eq!(state.cursor(), 2);
}

#[test]
fn one_exchange_per_connection() {
    let mut state = sample_itinerary();

    let ev = ConnEvent::Frame(Message::new_request(Request::Current));
    let (stage, out) = exchange_step(ExchangeStage::AwaitRequest, &ev, &mut state);
    assert_eq!(stage, ExchangeStage::Finished);
    let reply = out.expect("a decoded frame gets a response");
    assert!(matches!(expect_response(&reply), Response::Where(Location::HOME)));

    // the finished exchange sends nothing more, whatever arrives
    let ev = ConnEvent::Frame(Message::new_request(Request::Next));
    let (stage, out) = exchange_step(ExchangeStage::Finished, &ev, &mut state);
    assert_eq!(stage, ExchangeStage::Finished);
    assert!(out.is_none());
    assert_eq!(state.cursor(), 0);
}

#[test]
fn a_lost_connection_gets_no_response() {
    let mut state = sample_itinerary();
    let (stage, out) = exchange_step(ExchangeStage::AwaitRequest, &ConnEvent::Lost, &mut state);
    assert_eq!(stage, ExchangeStage::Finished);
    assert!(out.is_none());
    assert_eq!(state.cursor(), 0);
}

#[test]
fn the_connect_policy_retries_only_on_refusal() {
    assert_eq!(
        Traveller::connect_step(&ConnectOutcome::Connected),
        ConnectStep::Done
    );
    assert_eq!(
        Traveller::connect_step(&ConnectOutcome::Refused),
        ConnectStep::RetryAfterDelay
    );
    assert_eq!(
        Traveller::connect_step(&ConnectOutcome::Failed),
        ConnectStep::Abort
    );
    assert_eq!(RETRY_DELAY_MS, 10);
}

#[test]
fn the_default_location_is_home() {
    assert_eq!(Location::default(), Location::HOME);
}
