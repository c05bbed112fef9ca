//! The shared itinerary state and the tour-guide's decision function.
//!
//! The itinerary is the one shared mutable value of the system: an
//! ordered list of stops and a zero-based cursor into it. Every
//! connection's exchange reads or mutates it through [`decide`], under
//! the exclusive access the caller's container provides; `decide_spec`
//! gives the exact response and successor state for every message.

use vstd::prelude::*;

use crate::messages::{Failure, Location, Message, MessageV, Payload, PayloadV, Request, Response,
    ResponseV};

verus! {

/// The mathematical value of an [`Itinerary`]: the cursor and the stops.
#[verifier::ext_equal]
pub struct ItineraryV {
    pub cursor: int,
    pub stops: Seq<Location>,
}

/// The example shared state: an ordered list of stops and a cursor that
/// is either a valid index or exhausted (one past the last valid
/// position it reached). Mutable only through [`decide`], so that the
/// cursor and the list change together under one unit of exclusion.
pub struct Itinerary {
    cursor: usize,
    stops: Vec<Location>,
}

impl View for Itinerary {
    type V = ItineraryV;

    closed spec fn view(&self) -> ItineraryV {
        ItineraryV { cursor: self.cursor as int, stops: self.stops@ }
    }
}

impl Itinerary {
    /// A fresh itinerary: the given stops, cursor at the first of them.
    pub fn new(stops: Vec<Location>) -> (r: Self)
        ensures
            r@.cursor == 0,
            r@.stops == stops@,
    {
        Itinerary { cursor: 0, stops }
    }

    /// The current cursor position.
    pub fn cursor(&self) -> (r: usize)
        ensures
            r as int == self@.cursor,
    {
        self.cursor
    }

    /// The stops, in itinerary order.
    pub fn stops(&self) -> (r: &Vec<Location>)
        ensures
            r@ == self@.stops,
    {
        &self.stops
    }
}

/// A message whose payload is the given response.
pub open spec fn response_message(r: ResponseV) -> MessageV {
    MessageV { data: PayloadV::Response(r) }
}

/// The tour-guide's decision: the response to one message and the
/// itinerary state after it.
///
/// `List` answers with all stops; `Current` with the stop at the
/// cursor, or `LocationNotOnItinerary` when the cursor is out of
/// bounds; `Next` advances the cursor when the next position is valid
/// and answers with the new stop, and otherwise answers `Done` without
/// moving. Every other request shape, and any payload that is not a
/// request, is answered with `InvalidRequest`. Only `Next` ever changes
/// the state.
pub open spec fn decide_spec(m: MessageV, st: ItineraryV) -> (MessageV, ItineraryV) {
    match m.data {
        PayloadV::Request(req) => match req {
            Request::List => (response_message(ResponseV::List(st.stops)), st),
            Request::Current => if 0 <= st.cursor < st.stops.len() {
                (response_message(ResponseV::Where(st.stops[st.cursor])), st)
            } else {
                (response_message(ResponseV::Failure(Failure::LocationNotOnItinerary)), st)
            },
            Request::Next => if st.cursor + 1 < st.stops.len() {
                (
                    response_message(ResponseV::Where(st.stops[st.cursor + 1])),
                    ItineraryV { cursor: st.cursor + 1, stops: st.stops },
                )
            } else {
                (response_message(ResponseV::Done), st)
            },
            _ => (response_message(ResponseV::Failure(Failure::InvalidRequest)), st),
        },
        PayloadV::Response(_) => (response_message(
            ResponseV::Failure(Failure::InvalidRequest),
        ), st),
    }
}

/// Answer one message against the shared itinerary, exactly as
/// `decide_spec` gives it. The caller holds exclusive access to the
/// state for the duration of the call.
pub fn decide(msg: &Message, state: &mut Itinerary) -> (r: Message)
    ensures
        (r@, final(state)@) == decide_spec(msg@, old(state)@),
        r.header_empty(),
{
    match &msg.data {
        Payload::Request(req) => match req {
            Request::List => Message::new_response(Response::List(state.stops.clone())),
            Request::Current => {
                if state.cursor < state.stops.len() {
                    Message::new_response(Response::Where(state.stops[state.cursor]))
                } else {
                    Message::new_response(
                        Response::Failure(Failure::LocationNotOnItinerary),
                    )
                }
            },
            Request::Next => {
                let len = state.stops.len();
                if len > 0 && state.cursor < len - 1 {
                    state.cursor = state.cursor + 1;
                    Message::new_response(Response::Where(state.stops[state.cursor]))
                } else {
                    Message::new_response(Response::Done)
                }
            },
            Request::Put(_) => Message::new_response(
                Response::Failure(Failure::InvalidRequest),
            ),
            Request::Del(_) => Message::new_response(
                Response::Failure(Failure::InvalidRequest),
            ),
            Request::Mov(_, _) => Message::new_response(
                Response::Failure(Failure::InvalidRequest),
            ),
        },
        Payload::Response(_) => Message::new_response(
            Response::Failure(Failure::InvalidRequest),
        ),
    }
}

/// The itinerary after a sequence of requests, each decided in turn
/// against the state the one before it left.
pub open spec fn run_requests(st: ItineraryV, reqs: Seq<Request>) -> ItineraryV
    decreases reqs.len(),
{
    if reqs.len() == 0 {
        st
    } else {
        run_requests(
            decide_spec(MessageV { data: PayloadV::Request(reqs[0]) }, st).1,
            reqs.drop_first(),
        )
    }
}

/// No update is lost under serialized access: `k` `Next` exchanges,
/// run one after the other in any order the exclusive-access container
/// admits them, advance the cursor by exactly `k`, up to the last valid
/// position. (Each `Next` is a read-then-write of the cursor; exclusion
/// makes the `k` mutations a serial sequence, and this is that
/// sequence's exact result.)
pub proof fn lemma_serial_next_no_lost_updates(st: ItineraryV, k: nat)
    requires
        0 <= st.cursor < st.stops.len(),
    ensures
        ({
            let c2 = run_requests(st, Seq::new(k, |i: int| Request::Next)).cursor;
            c2 == if st.cursor + k < st.stops.len() {
                st.cursor + k
            } else {
                st.stops.len() - 1
            }
        }),
    decreases k,
{
    let reqs = Seq::new(k, |i: int| Request::Next);
    if k > 0 {
        let rest = Seq::new((k - 1) as nat, |i: int| Request::Next);
        assert(reqs.drop_first() =~= rest);
        let st2 = decide_spec(MessageV { data: PayloadV::Request(Request::Next) }, st).1;
        if st.cursor + 1 < st.stops.len() {
            lemma_serial_next_no_lost_updates(st2, (k - 1) as nat);
        } else {
            lemma_serial_next_no_lost_updates(st, (k - 1) as nat);
        }
    }
}

} // verus!
