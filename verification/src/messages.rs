//! The message vocabulary exchanged between a traveller and a tour-guide:
//! one tagged payload (a request or a response) per message, plus a
//! reserved, never-populated header slot.

use vstd::prelude::*;

verus! {

/// All the places the tour-guide knows about.
#[derive(Clone, Copy, Debug, PartialEq, Eq, Structural)]
pub enum Location {
    HOME,
    CITY,
    WOODS,
    BEACH,
    FIELD,
    CAFE,
    SHOP,
    CHURCH,
}

impl Default for Location {
    fn default() -> (r: Self)
        ensures
            r == Location::HOME,
    {
        Location::HOME
    }
}

/// Additional information not directly related to the conversation.
/// Reserved for future extension; it carries no information and is
/// never populated: every constructor leaves the header slot empty.
#[derive(Clone, Copy, Debug)]
pub struct Header {}

/// What a traveller can ask a tour-guide.
#[derive(Clone, Copy, Debug, PartialEq, Eq, Structural)]
pub enum Request {
    List,
    Put(Location),
    Del(Location),
    Mov(Location, u32),
    /// where are we now?
    Current,
    /// where are we going next?
    Next,
}

/// What kind of communication breakdown are we experiencing?
#[derive(Clone, Copy, Debug, PartialEq, Eq, Structural)]
pub enum Failure {
    InvalidRequest,
    InvalidResponse,
    LocationNotOnItinerary,
}

/// What a tour-guide can answer with.
#[derive(Debug)]
pub enum Response {
    Success,
    Failure(Failure),
    List(Vec<Location>),
    Where(Location),
    Done,
}

/// The two shapes a payload can take.
#[derive(Debug)]
pub enum Payload {
    Request(Request),
    Response(Response),
}

/// One unit of conversation: a reserved header slot and a payload.
#[derive(Debug)]
pub struct Message {
    pub header: Option<Header>,
    pub data: Payload,
}

/// The mathematical value of a [`Response`]: the location list becomes
/// a sequence.
#[verifier::ext_equal]
pub enum ResponseV {
    Success,
    Failure(Failure),
    List(Seq<Location>),
    Where(Location),
    Done,
}

/// The mathematical value of a [`Payload`].
#[verifier::ext_equal]
pub enum PayloadV {
    Request(Request),
    Response(ResponseV),
}

/// The mathematical value of a [`Message`]: the payload it carries.
/// The header slot is reserved and never populated, so it carries no
/// information.
#[verifier::ext_equal]
pub struct MessageV {
    pub data: PayloadV,
}

impl View for Response {
    type V = ResponseV;

    open spec fn view(&self) -> ResponseV {
        match self {
            Response::Success => ResponseV::Success,
            Response::Failure(f) => ResponseV::Failure(*f),
            Response::List(v) => ResponseV::List(v@),
            Response::Where(l) => ResponseV::Where(*l),
            Response::Done => ResponseV::Done,
        }
    }
}

impl View for Payload {
    type V = PayloadV;

    open spec fn view(&self) -> PayloadV {
        match self {
            Payload::Request(r) => PayloadV::Request(*r),
            Payload::Response(r) => PayloadV::Response(r@),
        }
    }
}

impl View for Message {
    type V = MessageV;

    open spec fn view(&self) -> MessageV {
        MessageV { data: self.data@ }
    }
}

impl Message {
    /// The header slot is reserved: every message constructed by the
    /// library leaves it empty.
    pub open spec fn header_empty(&self) -> bool {
        self.header is None
    }

    pub fn new(payload: Payload) -> (r: Self)
        ensures
            r@ == (MessageV { data: payload@ }),
            r.header_empty(),
    {
        Message { header: None, data: payload }
    }

    pub fn new_response(response: Response) -> (r: Self)
        ensures
            r@ == (MessageV { data: PayloadV::Response(response@) }),
            r.header_empty(),
    {
        Message { header: None, data: Payload::Response(response) }
    }

    pub fn new_request(request: Request) -> (r: Self)
        ensures
            r@ == (MessageV { data: PayloadV::Request(request) }),
            r.header_empty(),
    {
        Message { header: None, data: Payload::Request(request) }
    }
}

/// The kinds of communication breakdown an exchange can end in:
/// a payload that does not decode (`Parse`), a transport failure,
/// premature close included (`Io`), and a malformed endpoint address
/// (`Url`).
#[derive(Clone, Copy, Debug, PartialEq, Eq, Structural)]
pub enum Error {
    Parse,
    Io,
    Url,
}

} // verus!
