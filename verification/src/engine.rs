//! The storage-engine abstraction: the three-operation contract every
//! backend satisfies, and the startup rule that picks a backend from the
//! evidence in the data directory.

pub mod sled;

use vstd::prelude::*;

use crate::error::Error;

verus! {

/// The engine contract: a mutable key-to-value map with three operations.
/// `inv` is the engine's own well-formedness; `kv_map` the map it
/// represents.  A get answers from the map and changes nothing; a set
/// inserts; a remove takes a present key out and fails with
/// `KeyNotFound` exactly when the key is absent.  An engine that fails
/// for another reason (I/O) is left well-formed but otherwise
/// unspecified.
pub trait KvsEngine: Sized {
    spec fn inv(&self) -> bool;

    spec fn kv_map(&self) -> Map<Seq<char>, Seq<char>>;

    fn get(&mut self, key: String) -> (r: Result<Option<String>, Error>)
        requires
            old(self).inv(),
        ensures
            final(self).inv(),
            match r {
                Ok(opt) => final(self).kv_map() == old(self).kv_map() && (match opt {
                    Some(v) => old(self).kv_map().contains_key(key@) && v@ == old(
                        self,
                    ).kv_map()[key@],
                    None => !old(self).kv_map().contains_key(key@),
                }),
                Err(e) => final(self).kv_map() == old(self).kv_map(),
            },
    ;

    fn set(&mut self, key: String, value: String) -> (r: Result<(), Error>)
        requires
            old(self).inv(),
        ensures
            final(self).inv(),
            match r {
                Ok(()) => final(self).kv_map() == old(self).kv_map().insert(key@, value@),
                Err(e) => true,
            },
    ;

    fn remove(&mut self, key: String) -> (r: Result<(), Error>)
        requires
            old(self).inv(),
        ensures
            final(self).inv(),
            match r {
                Ok(()) => old(self).kv_map().contains_key(key@) && final(self).kv_map() == old(
                    self,
                ).kv_map().remove(key@),
                Err(e) => e == Error::KeyNotFound ==> (!old(self).kv_map().contains_key(key@)
                    && final(self).kv_map() == old(self).kv_map()),
            },
    ;
}

/// The two available engines.
#[derive(Clone, Copy, Debug, PartialEq, Eq, Structural)]
pub enum EngineKind {
    Kvs,
    Sled,
}

/// Pick the engine at startup from the on-disk evidence: the requested
/// engine is refused when the directory shows the other engine's files —
/// segment files for the log-structured engine, its marker for the
/// wrapped one.
pub fn choose_engine(requested: EngineKind, wal_present: bool, sled_marker_present: bool) -> (r:
    Result<EngineKind, Error>)
    ensures
        match r {
            Ok(k) => k == requested && (requested == EngineKind::Kvs ==> !sled_marker_present) && (
            requested == EngineKind::Sled ==> !wal_present),
            Err(e) => e == Error::Storage && ((requested == EngineKind::Kvs
                && sled_marker_present) || (requested == EngineKind::Sled && wal_present)),
        },
{
    match requested {
        EngineKind::Kvs => {
            if sled_marker_present {
                Err(Error::Storage)
            } else {
                Ok(EngineKind::Kvs)
            }
        }
        EngineKind::Sled => {
            if wal_present {
                Err(Error::Storage)
            } else {
                Ok(EngineKind::Sled)
            }
        }
    }
}

} // verus!
