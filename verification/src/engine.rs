//! The contract every storage engine offers.

use vstd::prelude::*;

use crate::error::KvsError;
use crate::store::KvStore;

verus! {

/// Which storage backend a store directory is pinned to.
#[derive(Debug, Clone, Copy, PartialEq, Eq)]
pub enum EngineKind {
    /// This crate's log-structured engine.
    Kvs,
    /// The alternative embedded-database backend.
    Sled,
}

/// Parses the contents of a directory's `engine` file: exactly `kvs` or
/// `sled` name a backend; anything else names none.
pub fn parse_engine(s: &String) -> (r: Option<EngineKind>)
    ensures
        r == Some(EngineKind::Kvs) <==> s@ == "kvs"@,
        r == Some(EngineKind::Sled) <==> s@ == "sled"@,
        r is None <==> (s@ != "kvs"@ && s@ != "sled"@),
{
    proof {
        reveal_strlit("kvs");
        reveal_strlit("sled");
        assert("kvs"@.len() == 3);
        assert("sled"@.len() == 4);
        assert("kvs"@ != "sled"@);
    }
    let kvs_name: String = "kvs".to_owned();
    let sled_name: String = "sled".to_owned();
    if *s == kvs_name {
        Some(EngineKind::Kvs)
    } else if *s == sled_name {
        Some(EngineKind::Sled)
    } else {
        None
    }
}

/// A key/value storage engine: a mutable map from string keys to string
/// values. An engine may fail for operational reasons (I/O, a corrupt
/// backing store), but whenever an operation succeeds it moves the engine's
/// map exactly as stated here.
pub trait KvsEngine: Sized {
    /// The engine's internal invariant.
    spec fn inv(&self) -> bool;

    /// The string map the engine holds.
    spec fn model(&self) -> Map<Seq<char>, Seq<char>>;

    /// Sets the value of a string key to a string.
    ///
    /// If the key already exists, the previous value is overwritten.
    fn set(&mut self, key: String, value: String) -> (r: Result<(), KvsError>)
        requires
            old(self).inv(),
        ensures
            final(self).inv(),
            r is Ok ==> final(self).model() == old(self).model().insert(key@, value@),
            r is Err ==> final(self).model() == old(self).model(),
    ;

    /// Gets the string value of a given string key.
    ///
    /// Returns no value if the given key does not exist.
    fn get(&self, key: String) -> (r: Result<Option<String>, KvsError>)
        requires
            self.inv(),
        ensures
            match r {
                Ok(opt) => match opt {
                    Some(v) => self.model().contains_key(key@) && v@ == self.model()[key@],
                    None => !self.model().contains_key(key@),
                },
                Err(_) => true,
            },
    ;

    /// Removes a given key.
    ///
    /// Fails with `KvsError::KeyNotFound` if the key is not found.
    fn remove(&mut self, key: String) -> (r: Result<(), KvsError>)
        requires
            old(self).inv(),
        ensures
            final(self).inv(),
            r is Ok ==> old(self).model().contains_key(key@) && final(self).model() == old(
                self,
            ).model().remove(key@),
            r is Err ==> final(self).model() == old(self).model(),
    ;
}

impl KvsEngine for KvStore {
    open spec fn inv(&self) -> bool {
        self.wf()
    }

    open spec fn model(&self) -> Map<Seq<char>, Seq<char>> {
        self.kv()
    }

    fn set(&mut self, key: String, value: String) -> (r: Result<(), KvsError>) {
        KvStore::set(self, key, value)
    }

    fn get(&self, key: String) -> (r: Result<Option<String>, KvsError>) {
        KvStore::get(self, key)
    }

    fn remove(&mut self, key: String) -> (r: Result<(), KvsError>) {
        KvStore::remove(self, key)
    }
}

} // verus!
