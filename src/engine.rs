//! Which engine a directory belongs to, how the store names its log files, and the operations
//! that every engine offers.

use vstd::prelude::*;
use vstd::string::*;

use crate::error::Error;

verus! {

/// The operations of a key-value engine.
pub trait KvsEngine {
    /// Sets `key` to `value`.
    fn set(&mut self, key: String, value: String) -> Result<(), Error>;

    /// The value of `key`, if it has one.
    fn get(&mut self, key: String) -> Result<Option<String>, Error>;

    /// Removes `key`; fails with [`Error::KeyNotFound`] where it has no value.
    fn remove(&mut self, key: String) -> Result<(), Error>;
}

/// The kinds of backing engine.
#[derive(Debug, Clone, Copy, PartialEq, Eq, Structural)]
pub enum EngineType {
    /// The log-structured store of this crate.
    Kvs,
    /// The embedded B-tree store that serves as a baseline.
    Sled,
}

/// What the files of a directory say about the engines that wrote it.
#[derive(Debug, Clone, Copy, PartialEq, Eq, Structural)]
pub struct PreviousEngine {
    /// A log file of the store is there.
    pub kvs: bool,
    /// A file of the baseline store is there.
    pub sled: bool,
}

pub open spec fn engine_name(t: EngineType) -> Seq<char> {
    match t {
        EngineType::Kvs => "kvs"@,
        EngineType::Sled => "sled"@,
    }
}

/// The suffix that marks the store's log files.
pub open spec fn log_suffix() -> Seq<char> {
    ".pingcap"@
}

/// A file that the baseline store keeps in its directory.
pub open spec fn is_sled_marker(name: Seq<char>) -> bool {
    name == "conf"@ || name == "db"@
}

/// A log file of the store.
pub open spec fn is_log_name(name: Seq<char>) -> bool {
    name.len() >= log_suffix().len() && name.subrange(
        name.len() - log_suffix().len(),
        name.len() as int,
    ) == log_suffix()
}

/// What the files `names` of a directory say: whether any of the store's log files is there,
/// and whether any of the baseline store's files is there.
pub open spec fn previous_engine_of(names: Seq<Seq<char>>) -> PreviousEngine {
    PreviousEngine {
        kvs: exists|i: int| 0 <= i < names.len() && is_log_name(#[trigger] names[i]),
        sled: exists|i: int| 0 <= i < names.len() && is_sled_marker(#[trigger] names[i]),
    }
}

/// The engine to open: the store's is refused where a file of the baseline store is there,
/// the baseline store where a log file of the store is there. Where none is asked for, the
/// directory's own engine, and the store's in a fresh directory; a directory that holds files
/// of both is refused.
pub open spec fn choose_engine_spec(prev: PreviousEngine, requested: Option<EngineType>) -> Result<
    EngineType,
    Error,
> {
    match requested {
        Some(EngineType::Kvs) => if prev.sled {
            Err(Error::EngineMismatch)
        } else {
            Ok(EngineType::Kvs)
        },
        Some(EngineType::Sled) => if prev.kvs {
            Err(Error::EngineMismatch)
        } else {
            Ok(EngineType::Sled)
        },
        None => if prev.kvs && prev.sled {
            Err(Error::EngineMismatch)
        } else if prev.sled {
            Ok(EngineType::Sled)
        } else {
            Ok(EngineType::Kvs)
        },
    }
}

/// Whether two strings hold the same characters.
fn str_eq(a: &str, b: &str) -> (r: bool)
    ensures
        r == (a@ == b@),
{
    a.to_owned() == b.to_owned()
}

impl EngineType {
    /// The engine's name: `kvs` or `sled`.
    pub fn name(&self) -> (r: String)
        ensures
            r@ == engine_name(*self),
    {
        match self {
            EngineType::Kvs => "kvs".to_owned(),
            EngineType::Sled => "sled".to_owned(),
        }
    }

    /// The engine with the given name.
    pub fn from_name(s: &str) -> (r: Result<EngineType, Error>)
        ensures
            r == (if s@ == "kvs"@ {
                Ok(EngineType::Kvs)
            } else if s@ == "sled"@ {
                Ok(EngineType::Sled)
            } else {
                Err(Error::UnknownEngine)
            }),
    {
        if str_eq(s, "kvs") {
            Ok(EngineType::Kvs)
        } else if str_eq(s, "sled") {
            Ok(EngineType::Sled)
        } else {
            Err(Error::UnknownEngine)
        }
    }
}

/// Whether `name` is one of the baseline store's files.
pub fn is_sled_marker_name(name: &str) -> (r: bool)
    ensures
        r == is_sled_marker(name@),
{
    str_eq(name, "conf") || str_eq(name, "db")
}

/// Whether `name` is a log file of the store.
pub fn is_log_file_name(name: &str) -> (r: bool)
    ensures
        r == is_log_name(name@),
{
    let suffix = ".pingcap";
    let n = name.unicode_len();
    let m = suffix.unicode_len();
    if n < m {
        return false;
    }
    let tail = name.substring_char(n - m, n);
    str_eq(tail, suffix)
}

/// What the files `names` of a directory say about the engines that wrote it.
pub fn previous_engine(names: &Vec<String>) -> (r: PreviousEngine)
    ensures
        r == previous_engine_of(names@.map_values(|s: String| s@)),
{
    let ghost views = names@.map_values(|s: String| s@);
    let mut has_log = false;
    let mut has_marker = false;
    let mut i: usize = 0;
    while i < names.len()
        invariant
            views == names@.map_values(|s: String| s@),
            i <= names@.len(),
            has_marker <==> exists|j: int| 0 <= j < i && is_sled_marker(#[trigger] views[j]),
            has_log <==> exists|j: int| 0 <= j < i && is_log_name(#[trigger] views[j]),
        decreases names@.len() - i,
    {
        let name = names[i].as_str();
        if is_sled_marker_name(name) {
            assert(is_sled_marker(views[i as int]));
            has_marker = true;
        }
        if is_log_file_name(name) {
            assert(is_log_name(views[i as int]));
            has_log = true;
        }
        i = i + 1;
    }
    PreviousEngine { kvs: has_log, sled: has_marker }
}

/// The engine to open in a directory that `prev` describes, where `requested` was asked for.
pub fn choose_engine(prev: PreviousEngine, requested: Option<EngineType>) -> (r: Result<
    EngineType,
    Error,
>)
    ensures
        r == choose_engine_spec(prev, requested),
{
    match requested {
        Some(EngineType::Kvs) => if prev.sled {
            Err(Error::EngineMismatch)
        } else {
            Ok(EngineType::Kvs)
        },
        Some(EngineType::Sled) => if prev.kvs {
            Err(Error::EngineMismatch)
        } else {
            Ok(EngineType::Sled)
        },
        None => if prev.kvs && prev.sled {
            Err(Error::EngineMismatch)
        } else if prev.sled {
            Ok(EngineType::Sled)
        } else {
            Ok(EngineType::Kvs)
        },
    }
}

/// The name of a log file created at `timestamp`.
pub fn log_file_name(timestamp: &str) -> (r: String)
    ensures
        r@ == timestamp@ + log_suffix(),
{
    timestamp.to_owned().concat(".pingcap")
}

/// The name of a file that a compaction writes, created at `timestamp`. Its prefix sorts it
/// before every log file named by a timestamp.
pub fn compacted_file_name(timestamp: &str) -> (r: String)
    ensures
        r@ == "0000-"@ + timestamp@ + log_suffix(),
{
    "0000-".to_owned().concat(timestamp).concat(".pingcap")
}

} // verus!
