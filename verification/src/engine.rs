//! The broker's dispatch of client frames: which request a frame carries,
//! and the error replies for frames it cannot serve.

use vstd::prelude::*;
use vstd::string::*;
use crate::error::{error_text, VortexError};
use crate::quarantine::{key_hex_of, preview_text, QuarantinedEvent};
use crate::record::opt_vec;
use crate::validator::{reports_verdict, verdict, IngressValidator, Verdict};
use crate::frame::{Frame, MessageType};
use crate::messages::{
    error_response_payload, parse_create_topic_request, parse_fetch_request,
    parse_produce_request, reports_error, CreateTopicRequest, Decoded, ErrorResponse,
    FetchRequest, ProduceRequest,
};
use crate::wire::ByteReader;

verus! {

/// What serving a frame starts with.
#[allow(inconsistent_fields)]
pub enum Route {
    Produce { req_id: u32, request: ProduceRequest },
    Fetch { req_id: u32, request: FetchRequest },
    CreateTopic { req_id: u32, request: CreateTopicRequest },
    /// The payload did not decode: the reply is `malformed_reply` of the
    /// request id, the context and the error.
    Malformed { req_id: u32, context: String, error: VortexError },
    /// The frame is answered at once with `reply`.
    Reply(Frame),
}

/// The error frame for a request: an error response with the given code and message.
pub fn error_frame(req_id: u32, code: u16, message: String) -> (f: Frame)
    ensures
        f.msg_type == MessageType::ErrorResp,
        f.req_id == req_id,
        f.payload@ == error_response_payload(crate::messages::ErrorResponseView { code, message: message@ }),
{
    ErrorResponse { code, message }.encode(req_id)
}

/// The error frame that reports `error`, its text after `context`.
pub fn error_reply(req_id: u32, code: u16, context: &str, error: &VortexError) -> (f: Frame)
    ensures
        f.msg_type == MessageType::ErrorResp,
        f.req_id == req_id,
        f.payload@ == error_response_payload(
            crate::messages::ErrorResponseView { code, message: context@ + error_text(*error) },
        ),
{
    let mut message = String::from_str(context);
    message.append(error.describe().as_str());
    error_frame(req_id, code, message)
}

/// The requests that the broker serves.
pub enum RequestKind {
    Produce,
    Fetch,
    CreateTopic,
}

/// The code of the error reply to a request that failed: 500 for creating a
/// topic, 400 otherwise.
pub open spec fn failure_code(kind: RequestKind) -> u16 {
    match kind {
        RequestKind::CreateTopic => 500,
        _ => 400,
    }
}

/// The reply to a request whose payload did not decode: error 400 with the
/// text `context` followed by the error's text.
pub fn malformed_reply(req_id: u32, context: &str, error: &VortexError) -> (f: Frame)
    ensures
        f.msg_type == MessageType::ErrorResp,
        f.req_id == req_id,
        f.payload@ == error_response_payload(
            crate::messages::ErrorResponseView { code: 400, message: context@ + error_text(*error) },
        ),
{
    error_reply(req_id, 400, context, error)
}

/// The reply to a request of `kind` that failed with `error`: an error with
/// `failure_code(kind)` and the error's text.
pub fn failure_reply(req_id: u32, kind: RequestKind, error: &VortexError) -> (f: Frame)
    ensures
        f.msg_type == MessageType::ErrorResp,
        f.req_id == req_id,
        f.payload@ == error_response_payload(
            crate::messages::ErrorResponseView { code: failure_code(kind), message: error_text(*error) },
        ),
{
    let code: u16 = match kind {
        RequestKind::CreateTopic => 500,
        _ => 400,
    };
    let f = error_reply(req_id, code, "", error);
    proof {
        reveal_strlit("");
        assert(""@ + error_text(*error) =~= error_text(*error));
    }
    f
}

/// The topic where events rejected from `topic` are kept.
pub fn quarantine_topic(topic: &str) -> (t: String)
    ensures
        t@ == topic@ + ".__quarantine"@,
{
    let mut t = String::from_str(topic);
    t.append(".__quarantine");
    t
}

/// Whether decoding the frame's request payload would run past a field's end.
pub open spec fn route_unparseable(frame: Frame) -> bool {
    match frame.msg_type {
        MessageType::ProduceReq => parse_produce_request(frame.payload@) is Unparseable,
        MessageType::CreateTopicReq => parse_create_topic_request(frame.payload@) is Unparseable,
        _ => false,
    }
}

/// Decides how a client frame is served: produce, fetch and create-topic
/// requests are decoded from the payload; a payload that fails to decode is
/// answered as malformed; any other message type is answered with error 405.
/// `None` where the payload cannot be decoded without running past the end
/// of a field.
pub fn route(frame: Frame) -> (r: Option<Route>)
    ensures
        r is None <==> route_unparseable(frame),
        match (frame.msg_type, r) {
            (_, None) => true,
            (MessageType::ProduceReq, Some(Route::Produce { req_id, request })) => {
                &&& req_id == frame.req_id
                &&& parse_produce_request(frame.payload@) matches Decoded::Parsed(v, _)
                &&& request@ == v
            },
            (MessageType::ProduceReq, Some(Route::Malformed { req_id, context, error })) => {
                &&& req_id == frame.req_id
                &&& context@ == "Malformed produce payload: "@
                &&& parse_produce_request(frame.payload@) matches Decoded::Failed(e, _)
                &&& reports_error(e, error)
            },
            (MessageType::FetchReq, Some(Route::Fetch { req_id, request })) => {
                &&& req_id == frame.req_id
                &&& parse_fetch_request(frame.payload@) matches Decoded::Parsed(v, _)
                &&& request@ == v
            },
            (MessageType::FetchReq, Some(Route::Malformed { req_id, context, error })) => {
                &&& req_id == frame.req_id
                &&& context@ == "Malformed fetch payload: "@
                &&& parse_fetch_request(frame.payload@) matches Decoded::Failed(e, _)
                &&& reports_error(e, error)
            },
            (MessageType::CreateTopicReq, Some(Route::CreateTopic { req_id, request })) => {
                &&& req_id == frame.req_id
                &&& parse_create_topic_request(frame.payload@) matches Decoded::Parsed(v, _)
                &&& request@ == v
            },
            (MessageType::CreateTopicReq, Some(Route::Malformed { req_id, context, error })) => {
                &&& req_id == frame.req_id
                &&& context@ == "Malformed create topic payload: "@
                &&& parse_create_topic_request(frame.payload@) matches Decoded::Failed(e, _)
                &&& reports_error(e, error)
            },
            (MessageType::ProduceReq, _) => false,
            (MessageType::FetchReq, _) => false,
            (MessageType::CreateTopicReq, _) => false,
            (_, Some(Route::Reply(f))) => {
                &&& f.msg_type == MessageType::ErrorResp
                &&& f.req_id == frame.req_id
                &&& f.payload@ == error_response_payload(
                    crate::messages::ErrorResponseView { code: 405, message: "Unsupported message type"@ },
                )
            },
            (_, _) => false,
        },
{
    let req_id = frame.req_id;
    let msg_type = frame.msg_type;
    let mut payload = ByteReader::new(frame.payload);
    match msg_type {
        MessageType::ProduceReq => match ProduceRequest::try_decode(&mut payload) {
            None => None,
            Some(Ok(request)) => Some(Route::Produce { req_id, request }),
            Some(Err(error)) => Some(
                Route::Malformed {
                    req_id,
                    context: String::from_str("Malformed produce payload: "),
                    error,
                },
            ),
        },
        MessageType::FetchReq => match FetchRequest::decode(&mut payload) {
            Ok(request) => Some(Route::Fetch { req_id, request }),
            Err(error) => Some(
                Route::Malformed {
                    req_id,
                    context: String::from_str("Malformed fetch payload: "),
                    error,
                },
            ),
        },
        MessageType::CreateTopicReq => match CreateTopicRequest::try_decode(&mut payload) {
            None => None,
            Some(Ok(request)) => Some(Route::CreateTopic { req_id, request }),
            Some(Err(error)) => Some(
                Route::Malformed {
                    req_id,
                    context: String::from_str("Malformed create topic payload: "),
                    error,
                },
            ),
        },
        _ => Some(
            Route::Reply(error_frame(req_id, 405, String::from_str("Unsupported message type"))),
        ),
    }
}

/// What ingress decides for a produce request.
pub enum Admission {
    Accepted,
    /// The request is refused with `error`, and `event` is to be kept in
    /// `quarantine_topic`.
    Rejected { quarantine_topic: String, event: QuarantinedEvent, error: VortexError },
}

/// The sizes of a request's key and value.
pub open spec fn request_size(request: ProduceRequest) -> int {
    let key_len: int = match request.key {
        Some(k) => k@.len() as int,
        None => 0,
    };
    key_len + request.value@.len()
}

/// Validates a produce request at ingress. A request that fails is refused
/// with the validator's error and recorded, with that error's text as the
/// reason, for the quarantine topic of the request's topic.
pub fn screen(validator: &IngressValidator, request: &ProduceRequest) -> (a: Admission)
    requires
        request_size(*request) <= usize::MAX,
    ensures
        match a {
            Admission::Accepted => verdict(validator.config(), opt_vec(request.key), request.value@) is Accepted,
            Admission::Rejected { quarantine_topic, event, error } => {
                &&& reports_verdict(
                    verdict(validator.config(), opt_vec(request.key), request.value@),
                    request.topic@,
                    Err(error),
                )
                &&& quarantine_topic@ == request.topic@ + ".__quarantine"@
                &&& event.topic@ == request.topic@
                &&& event.reason@ == error_text(error)
                &&& key_hex_of(event.key_hex, opt_vec(request.key))
                &&& event.payload_preview@ == preview_text(request.value@)
            },
        },
{
    let key: Option<&[u8]> = match &request.key {
        Some(k) => Some(k.as_slice()),
        None => None,
    };
    match validator.validate(request.topic.as_str(), key, request.value.as_slice()) {
        Ok(()) => Admission::Accepted,
        Err(error) => {
            let reason = error.describe();
            let event = QuarantinedEvent::new(
                request.topic.as_str(),
                reason.as_str(),
                key,
                request.value.as_slice(),
            );
            Admission::Rejected {
                quarantine_topic: quarantine_topic(request.topic.as_str()),
                event,
                error,
            }
        },
    }
}

} // verus!
