//! Request dispatch: what the server computes between reading a request
//! and writing a response.  The surrounding process owns the sockets and
//! threads; it hands each request's text in and the response's text out.

use crate::de::from_str;
use crate::de::sp_request;
use crate::engine::KvsEngine;
use crate::err::KvsError;
use crate::proto::Request;
use crate::proto::RequestView;
use crate::proto::Response;
use crate::proto::ResponseView;
use crate::ser::spec_encode_response;
use crate::ser::to_string;
use vstd::prelude::*;
use vstd::utf8::encode_utf8;

verus! {

/// Exactly what executing one request guarantees, over the engine's
/// model before and after, and the outcome handed back: a get reads and
/// changes nothing, a successful set or remove changed the model by its
/// rule and yields no value, a failed one changed nothing, and removing
/// an absent key always fails.
pub open spec fn execute_sem(
    before: Map<Seq<char>, Seq<char>>,
    after: Map<Seq<char>, Seq<char>>,
    req: RequestView,
    outcome: Result<Option<String>, KvsError>,
) -> bool {
    match req {
        RequestView::Get { key } => {
            &&& after == before
            &&& match outcome {
                Ok(v) => match v {
                    Some(s) => before.dom().contains(key) && s@ == before[key],
                    None => !before.dom().contains(key),
                },
                Err(_) => true,
            }
        },
        RequestView::Put { key, value } => {
            &&& outcome matches Ok(v) ==> v is None && after == before.insert(key, value)
            &&& outcome is Err ==> after == before
        },
        RequestView::Rm { key } => {
            &&& outcome matches Ok(v) ==> v is None && before.dom().contains(key) && after
                == before.remove(key)
            &&& outcome is Err ==> after == before
            &&& !before.dom().contains(key) ==> outcome is Err
        },
    }
}

/// The response that reports one outcome: the optional value on success,
/// the error's message on failure.
pub open spec fn outcome_view(outcome: Result<Option<String>, KvsError>) -> ResponseView {
    match outcome {
        Ok(Some(v)) => ResponseView::Success { result: Some(v@) },
        Ok(None) => ResponseView::Success { result: None },
        Err(e) => ResponseView::Fail { message: e.message_view() },
    }
}

/// Executes one request against the engine: a get reads, a set and a
/// remove mutate.
pub fn execute<E: KvsEngine>(engine: &mut E, request: Request) -> (r: Result<
    Option<String>,
    KvsError,
>)
    requires
        old(engine).inv(),
    ensures
        final(engine).inv(),
        execute_sem(old(engine).model(), final(engine).model(), request@, r),
{
    match request {
        Request::Get { key } => engine.get(key),
        Request::Put { key, value } => {
            match engine.set(key, value) {
                Ok(_) => Ok(None),
                Err(e) => Err(e),
            }
        },
        Request::Rm { key } => {
            match engine.remove(key) {
                Ok(_) => Ok(None),
                Err(e) => Err(e),
            }
        },
    }
}

/// Handles one connection's request text: decode, execute, encode.  A
/// request that does not decode is an error to the caller, which logs it
/// and drops the connection.  Otherwise the output is the encoding of
/// exactly the executed outcome — the result of a success, the error's
/// message on a failure — and the outcome stands in `execute_sem` to the
/// engine's models.
pub fn respond<E: KvsEngine>(engine: &mut E, input: &str) -> (r: Result<String, KvsError>)
    requires
        old(engine).inv(),
    ensures
        final(engine).inv(),
        match r {
            Ok(out) => {
                &&& sp_request(encode_utf8(input@), 0) matches Some((req, j)) && j == encode_utf8(
                    input@,
                ).len() && exists|outcome: Result<Option<String>, KvsError>|
                    #[trigger] execute_sem(
                        old(engine).model(),
                        final(engine).model(),
                        req,
                        outcome,
                    ) && encode_utf8(out@) == spec_encode_response(outcome_view(outcome))
            },
            Err(e) => {
                &&& final(engine).model() == old(engine).model()
                &&& e is Deserialize
                &&& match sp_request(encode_utf8(input@), 0) {
                    Some((req, j)) => j != encode_utf8(input@).len(),
                    None => true,
                }
            },
        },
{
    let request: Request = match from_str::<Request>(input) {
        Ok(r) => r,
        Err(e) => {
            return Err(e);
        },
    };
    let ghost reqv = request@;
    let ghost before = old(engine).model();
    let outcome = execute(engine, request);
    let ghost outcomev = outcome;
    let response = match outcome {
        Ok(result) => Response::Success { result },
        Err(e) => Response::Fail { message: e.message() },
    };
    proof {
        assert(response@ == outcome_view(outcomev));
    }
    let out = match to_string(&response) {
        Ok(s) => s,
        Err(e) => {
            proof {
                assert(false);
            }
            return Err(e);
        },
    };
    proof {
        assert(execute_sem(before, engine.model(), reqv, outcomev));
    }
    Ok(out)
}

} // verus!
