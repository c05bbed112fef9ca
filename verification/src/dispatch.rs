//! The per-connection exchange: exactly one decode → decide → encode
//! cycle.
//!
//! The dispatcher's accept loop (which lives with the transport, outside
//! the library) hands each connection's decoded frame — or the fact that
//! decoding failed — to [`exchange_step`] as one event, performs the
//! returned action, and closes the connection. `exchange_step_spec` and
//! [`lemma_single_exchange`] pin the shape of a connection's life: every
//! event drives the exchange to its finished stage, and a finished
//! exchange sends nothing and leaves the shared state alone.

use vstd::prelude::*;

use crate::itinerary::{decide, decide_spec, Itinerary, ItineraryV};
use crate::messages::{Message, MessageV};

verus! {

/// What one connection can report: one decoded frame, or the loss of
/// the conversation (a transport failure or a malformed frame, which
/// gets no response).
pub enum ConnEvent {
    Frame(Message),
    Lost,
}

/// The mathematical value of a [`ConnEvent`].
pub enum ConnEventV {
    Frame(MessageV),
    Lost,
}

impl View for ConnEvent {
    type V = ConnEventV;

    open spec fn view(&self) -> ConnEventV {
        match self {
            ConnEvent::Frame(m) => ConnEventV::Frame(m@),
            ConnEvent::Lost => ConnEventV::Lost,
        }
    }
}

/// Where a connection stands: still waiting for its one request, or
/// done with its one exchange.
#[derive(Clone, Copy, Debug, PartialEq, Eq, Structural)]
pub enum ExchangeStage {
    AwaitRequest,
    Finished,
}

/// The exchange's transition: the stage after an event, the response to
/// send (if any), and the shared state after the decision.
pub open spec fn exchange_step_spec(stage: ExchangeStage, ev: ConnEventV, st: ItineraryV) -> (
    ExchangeStage,
    Option<MessageV>,
    ItineraryV,
) {
    match stage {
        ExchangeStage::AwaitRequest => match ev {
            ConnEventV::Frame(m) => {
                let (resp, st2) = decide_spec(m, st);
                (ExchangeStage::Finished, Some(resp), st2)
            },
            ConnEventV::Lost => (ExchangeStage::Finished, None, st),
        },
        ExchangeStage::Finished => (ExchangeStage::Finished, None, st),
    }
}

/// Drive one connection by one event: decide the response to a decoded
/// frame, or drop the connection without one. The returned stage is the
/// connection's next stage; the returned message, if any, is the one
/// response to encode and send before closing.
pub fn exchange_step(stage: ExchangeStage, ev: &ConnEvent, state: &mut Itinerary) -> (r: (
    ExchangeStage,
    Option<Message>,
))
    ensures
        ({
            let (s2, out, st2) = exchange_step_spec(stage, ev@, old(state)@);
            &&& r.0 == s2
            &&& final(state)@ == st2
            &&& match (r.1, out) {
                (Some(m), Some(mv)) => m@ == mv && m.header_empty(),
                (None, None) => true,
                _ => false,
            }
        }),
{
    match stage {
        ExchangeStage::AwaitRequest => match ev {
            ConnEvent::Frame(m) => {
                let resp = decide(m, state);
                (ExchangeStage::Finished, Some(resp))
            },
            ConnEvent::Lost => (ExchangeStage::Finished, None),
        },
        ExchangeStage::Finished => (ExchangeStage::Finished, None),
    }
}

/// One exchange per connection: every event finishes the exchange, and
/// a finished exchange never sends another message nor touches the
/// shared state again — after one decode → decide → encode cycle the
/// dispatcher issues no further reads or writes on that connection.
pub proof fn lemma_single_exchange(stage: ExchangeStage, ev: ConnEventV, st: ItineraryV)
    ensures
        exchange_step_spec(stage, ev, st).0 == ExchangeStage::Finished,
        stage == ExchangeStage::Finished ==> exchange_step_spec(stage, ev, st).1 is None
            && exchange_step_spec(stage, ev, st).2 == st,
{
}

} // verus!
