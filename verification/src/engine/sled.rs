//! The wrapped alternate engine: an off-the-shelf embedded B-tree store.
//!
//! Its internals are out of scope; Verus sees the tree only as an opaque
//! collection of byte values whose contents are named by
//! [`sled_contents`], and trusts the contracts of the thin wrappers
//! around the calls the engine makes.  The verified code here is the glue
//! that makes those calls satisfy the [`crate::engine::KvsEngine`]
//! contract: the engine's map is the tree's UTF-8-decodable bindings, and
//! a stored value that is not UTF-8 (possible in a directory another
//! program wrote) surfaces as a `Storage` error, never as a wrong answer.

use vstd::prelude::*;
use vstd::utf8::{decode_utf8, encode_utf8, encode_utf8_decode_utf8, encode_utf8_valid_utf8,
    valid_utf8};

use crate::error::Error;
use crate::messages::bytes_to_string;

verus! {

#[verifier::external_type_specification]
#[verifier::external_body]
pub struct ExDb(sled::Db);

/// The bytes the tree currently binds each key to.
pub uninterp spec fn sled_contents(db: &sled::Db) -> Map<Seq<char>, Seq<u8>>;

/// The alternate engine: a handle on the embedded B-tree.
pub struct Sled {
    pub db: sled::Db,
}

/// The key-to-value map a tree represents: its bindings whose bytes are
/// valid UTF-8, decoded.
pub open spec fn decodable_map(c: Map<Seq<char>, Seq<u8>>) -> Map<Seq<char>, Seq<char>> {
    Map::new(
        |k: Seq<char>| c.contains_key(k) && valid_utf8(c[k]),
        |k: Seq<char>| decode_utf8(c[k]),
    )
}

/// Relies on `sled::open`: opens or creates a tree at the path, with
/// whatever contents the directory already holds.
#[verifier::external_body]
fn sled_open(path: &str) -> (r: Result<sled::Db, Error>)
    ensures
        r matches Err(e) ==> e == Error::IO,
{
    match sled::open(path) {
        Ok(db) => Ok(db),
        Err(_) => Err(Error::IO),
    }
}

/// Relies on `sled::Db::get` (via `Tree::get`): returns exactly the bytes
/// the tree currently binds the key to, or nothing for an absent key.
#[verifier::external_body]
fn sled_get(db: &sled::Db, key: &str) -> (r: Result<Option<Vec<u8>>, Error>)
    ensures
        match r {
            Ok(opt) => match opt {
                Some(v) => sled_contents(db).contains_key(key@) && v@ == sled_contents(
                    db,
                )[key@],
                None => !sled_contents(db).contains_key(key@),
            },
            Err(e) => e == Error::IO,
        },
{
    match db.get(key.as_bytes()) {
        Ok(Some(v)) => Ok(Some(v.to_vec())),
        Ok(None) => Ok(None),
        Err(_) => Err(Error::IO),
    }
}

/// Relies on `sled::Db::insert` (via `Tree::insert`): binds the key to
/// the given bytes; the previous binding, if any, is dropped.
#[verifier::external_body]
fn sled_insert(s: &mut Sled, key: &str, value: &str) -> (r: Result<(), Error>)
    ensures
        match r {
            Ok(()) => sled_contents(&final(s).db) == sled_contents(&old(s).db).insert(
                key@,
                encode_utf8(value@),
            ),
            Err(e) => e == Error::IO,
        },
{
    match s.db.insert(key.as_bytes(), value.as_bytes()) {
        Ok(_) => Ok(()),
        Err(_) => Err(Error::IO),
    }
}

/// Relies on `sled::Db::remove` (via `Tree::remove`): unbinds the key,
/// handing back the previously bound bytes if the key was bound.
#[verifier::external_body]
fn sled_remove(s: &mut Sled, key: &str) -> (r: Result<Option<Vec<u8>>, Error>)
    ensures
        match r {
            Ok(opt) => match opt {
                Some(v) => sled_contents(&old(s).db).contains_key(key@) && v@ == sled_contents(
                    &old(s).db,
                )[key@] && sled_contents(&final(s).db) == sled_contents(&old(s).db).remove(key@),
                None => !sled_contents(&old(s).db).contains_key(key@) && sled_contents(
                    &final(s).db,
                ) == sled_contents(&old(s).db),
            },
            Err(e) => e == Error::IO,
        },
{
    match s.db.remove(key.as_bytes()) {
        Ok(Some(v)) => Ok(Some(v.to_vec())),
        Ok(None) => Ok(None),
        Err(_) => Err(Error::IO),
    }
}

impl Sled {
    /// Open (or create) the wrapped engine's tree under the given path.
    pub fn open(path: &str) -> (r: Result<Sled, Error>)
        ensures
            r matches Err(e) ==> e == Error::IO,
    {
        match sled_open(path) {
            Ok(db) => Ok(Sled { db }),
            Err(e) => Err(e),
        }
    }
}

impl crate::engine::KvsEngine for Sled {
    open spec fn inv(&self) -> bool {
        true
    }

    open spec fn kv_map(&self) -> Map<Seq<char>, Seq<char>> {
        decodable_map(sled_contents(&self.db))
    }

    fn get(&mut self, key: String) -> (r: Result<Option<String>, Error>) {
        match sled_get(&self.db, key.as_str()) {
            Ok(Some(bytes)) => {
                let ghost stored = sled_contents(&self.db)[key@];
                match bytes_to_string(bytes) {
                    Some(s) => {
                        proof {
                            assert(valid_utf8(stored));
                            assert(self.kv_map().contains_key(key@));
                            assert(s@ == decode_utf8(stored));
                        }
                        Ok(Some(s))
                    }
                    None => {
                        // the tree holds bytes that are not UTF-8: the
                        // store is corrupt from this engine's point of view
                        proof {
                            assert(!valid_utf8(stored));
                            assert(!self.kv_map().contains_key(key@));
                        }
                        Err(Error::Storage)
                    }
                }
            }
            Ok(None) => {
                proof {
                    assert(!self.kv_map().contains_key(key@));
                }
                Ok(None)
            }
            Err(e) => Err(e),
        }
    }

    fn set(&mut self, key: String, value: String) -> (r: Result<(), Error>) {
        let ghost pre = sled_contents(&self.db);
        let res = sled_insert(self, key.as_str(), value.as_str());
        proof {
            if res is Ok {
                encode_utf8_valid_utf8(value@);
                encode_utf8_decode_utf8(value@);
                assert(decodable_map(pre.insert(key@, encode_utf8(value@)))
                    =~= decodable_map(pre).insert(key@, value@));
            }
        }
        res
    }

    fn remove(&mut self, key: String) -> (r: Result<(), Error>) {
        let ghost pre = sled_contents(&self.db);
        match sled_remove(self, key.as_str()) {
            Ok(Some(prev)) => {
                let ghost stored = pre[key@];
                let valid = bytes_to_string(prev).is_some();
                proof {
                    if valid_utf8(stored) {
                        assert(decodable_map(pre).contains_key(key@));
                        assert(decodable_map(pre.remove(key@)) =~= decodable_map(pre).remove(
                            key@,
                        ));
                    } else {
                        // the removed binding was never in the map
                        assert(!decodable_map(pre).contains_key(key@));
                        assert(decodable_map(pre.remove(key@)) =~= decodable_map(pre));
                    }
                }
                if valid {
                    Ok(())
                } else {
                    Err(Error::KeyNotFound)
                }
            }
            Ok(None) => {
                proof {
                    assert(!decodable_map(pre).contains_key(key@));
                }
                Err(Error::KeyNotFound)
            }
            Err(e) => Err(e),
        }
    }
}

} // verus!
