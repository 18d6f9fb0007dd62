//! Request dispatch: one decoded request goes into the engine, one
//! response comes back, exactly as the server loop applies it.

use vstd::prelude::*;

use crate::engine::KvsEngine;
use crate::error::Error;
use crate::messages::{ErrorCode, Request, RequestModel, Response, ResponseModel};
use crate::store::KvStore;

verus! {

/// Dispatch one request into the store and produce the response the
/// server sends back: a get answers with the value, or `NotFound` for an
/// absent key; a set answers `Success`, or `Unknown` exactly when the
/// store's one failure condition held (a full active segment and no id
/// left in the four-digit file-name space); a delete answers `Success`,
/// `NotFound` for an absent key, or `Unknown` under that same failure
/// condition.
pub fn handle_command(store: &mut KvStore, req: &Request) -> (resp: Response)
    requires
        old(store).wf(),
    ensures
        final(store).wf(),
        match req@ {
            RequestModel::Get(k) => {
                &&& final(store).kv() == old(store).kv()
                &&& match resp@ {
                    ResponseModel::GetValue(v) => old(store).kv().contains_key(k) && v == old(
                        store,
                    ).kv()[k],
                    ResponseModel::Failure(c) => c == ErrorCode::NotFound && !old(
                        store,
                    ).kv().contains_key(k),
                    _ => false,
                }
            }
            RequestModel::Put(k, v) => match resp@ {
                ResponseModel::Success => final(store).kv() == old(store).kv().insert(k, v),
                ResponseModel::Failure(c) => c == ErrorCode::Unknown && final(store).kv() == old(
                    store,
                ).kv() && crate::store::will_rotate(*old(store)) && crate::store::id_exhausted(
                    *old(store),
                ),
                _ => false,
            },
            RequestModel::Delete(k) => match resp@ {
                ResponseModel::Success => old(store).kv().contains_key(k) && final(store).kv()
                    == old(store).kv().remove(k),
                ResponseModel::Failure(c) => final(store).kv() == old(store).kv() && (c
                    == ErrorCode::NotFound <==> !old(store).kv().contains_key(k)) && (c
                    == ErrorCode::Unknown ==> crate::store::will_rotate(*old(store))
                    && crate::store::id_exhausted(*old(store))),
                _ => false,
            },
        },
{
    match req {
        Request::Get { key } => {
            match store.get(key.clone()) {
                Ok(Some(v)) => Response::GetValue { value: v },
                Ok(None) => Response::Failure { code: ErrorCode::NotFound },
                Err(_) => Response::Failure { code: ErrorCode::Unknown },
            }
        }
        Request::Put { key, value } => {
            match store.set(key.clone(), value.clone()) {
                Ok(()) => Response::Success,
                Err(_) => Response::Failure { code: ErrorCode::Unknown },
            }
        }
        Request::Delete { key } => {
            match store.remove(key.clone()) {
                Ok(()) => Response::Success,
                Err(e) => match e {
                    Error::KeyNotFound => Response::Failure { code: ErrorCode::NotFound },
                    _ => Response::Failure { code: ErrorCode::Unknown },
                },
            }
        }
    }
}

/// Dispatch one request into any engine.  The mapping is the same as
/// [`handle_command`]: an engine failure surfaces as `Unknown`; what can
/// be promised of the engine's state on failure is bounded by the engine
/// contract.
pub fn handle_request<E: KvsEngine>(engine: &mut E, req: &Request) -> (resp: Response)
    requires
        old(engine).inv(),
    ensures
        final(engine).inv(),
        match req@ {
            RequestModel::Get(k) => match resp@ {
                ResponseModel::GetValue(v) => old(engine).kv_map().contains_key(k)
                    && v == old(engine).kv_map()[k]
                    && final(engine).kv_map() == old(engine).kv_map(),
                ResponseModel::Failure(c) => final(engine).kv_map() == old(engine).kv_map()
                    && (c == ErrorCode::NotFound ==> !old(engine).kv_map().contains_key(k)),
                _ => false,
            },
            RequestModel::Put(k, v) => match resp@ {
                ResponseModel::Success => final(engine).kv_map()
                    == old(engine).kv_map().insert(k, v),
                ResponseModel::Failure(c) => c == ErrorCode::Unknown,
                _ => false,
            },
            RequestModel::Delete(k) => match resp@ {
                ResponseModel::Success => old(engine).kv_map().contains_key(k)
                    && final(engine).kv_map() == old(engine).kv_map().remove(k),
                ResponseModel::Failure(c) => c == ErrorCode::NotFound
                    ==> (!old(engine).kv_map().contains_key(k)
                    && final(engine).kv_map() == old(engine).kv_map()),
                _ => false,
            },
        },
{
    match req {
        Request::Get { key } => {
            match engine.get(key.clone()) {
                Ok(Some(v)) => Response::GetValue { value: v },
                Ok(None) => Response::Failure { code: ErrorCode::NotFound },
                Err(_) => Response::Failure { code: ErrorCode::Unknown },
            }
        }
        Request::Put { key, value } => {
            match engine.set(key.clone(), value.clone()) {
                Ok(()) => Response::Success,
                Err(_) => Response::Failure { code: ErrorCode::Unknown },
            }
        }
        Request::Delete { key } => {
            match engine.remove(key.clone()) {
                Ok(()) => Response::Success,
                Err(e) => match e {
                    Error::KeyNotFound => Response::Failure { code: ErrorCode::NotFound },
                    _ => Response::Failure { code: ErrorCode::Unknown },
                },
            }
        }
    }
}

} // verus!
