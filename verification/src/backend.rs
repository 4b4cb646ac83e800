//! The storage backend abstraction: an ordered key-value store of byte strings.
use vstd::prelude::*;
use crate::text::{decimal, push_decimal, push_str, string_of};

verus! {

/// `std::io::Error`, carried by [`StorageError::Io`].
#[verifier::external_type_specification]
#[verifier::external_body]
pub struct ExIoError(std::io::Error);

/// Errors that can occur in storage operations.
#[derive(Debug)]
pub enum StorageError {
    /// Key not found in storage.
    NotFound(String),
    /// I/O error (file system, network, etc.).
    Io(std::io::Error),
    /// Serialization error.
    Serialization(String),
    /// Transaction error.
    Transaction(String),
    /// Database corruption.
    Corruption(String),
    /// Backend-specific error.
    Backend(String),
}

/// The text of an I/O error (`std::io::Error`'s `Display`).
#[verifier::external_body]
fn io_error_text(e: &std::io::Error) -> (r: String) {
    e.to_string()
}

impl StorageError {
    /// The error's message: a fixed phrase naming the kind of error, a colon,
    /// and the detail it carries.
    pub fn message(&self) -> (r: String)
        ensures
            match self {
                StorageError::NotFound(s) => r@ == "Key not found: "@ + s@,
                StorageError::Io(_) => "I/O error: "@.is_prefix_of(r@),
                StorageError::Serialization(s) => r@ == "Serialization error: "@ + s@,
                StorageError::Transaction(s) => r@ == "Transaction error: "@ + s@,
                StorageError::Corruption(s) => r@ == "Database corruption: "@ + s@,
                StorageError::Backend(s) => r@ == "Backend error: "@ + s@,
            },
    {
        let mut out: Vec<char> = Vec::new();
        match self {
            StorageError::NotFound(s) => {
                push_str(&mut out, "Key not found: ");
                push_str(&mut out, s.as_str());
            },
            StorageError::Io(e) => {
                push_str(&mut out, "I/O error: ");
                let t = io_error_text(e);
                push_str(&mut out, t.as_str());
                assert(("I/O error: "@ + t@).take("I/O error: "@.len() as int) =~= "I/O error: "@);
            },
            StorageError::Serialization(s) => {
                push_str(&mut out, "Serialization error: ");
                push_str(&mut out, s.as_str());
            },
            StorageError::Transaction(s) => {
                push_str(&mut out, "Transaction error: ");
                push_str(&mut out, s.as_str());
            },
            StorageError::Corruption(s) => {
                push_str(&mut out, "Database corruption: ");
                push_str(&mut out, s.as_str());
            },
            StorageError::Backend(s) => {
                push_str(&mut out, "Backend error: ");
                push_str(&mut out, s.as_str());
            },
        }
        string_of(out.as_slice())
    }
}

/// Result type for storage operations.
pub type StorageResult<T> = Result<T, StorageError>;

/// Storage statistics.
#[derive(Debug, Clone, Copy, Default)]
pub struct StorageStats {
    /// Total number of keys.
    pub key_count: u64,
    /// Total size in bytes.
    pub total_bytes: u64,
    /// Average key size in bytes.
    pub avg_key_size: u64,
    /// Average value size in bytes.
    pub avg_value_size: u64,
    /// Number of read operations.
    pub reads: u64,
    /// Number of write operations.
    pub writes: u64,
    /// Number of delete operations.
    pub deletes: u64,
}

/// The one-line summary of a statistics record:
/// `StorageStats { keys: K, size: M MB, reads: R, writes: W, deletes: D }`,
/// with the size in whole mebibytes.
pub open spec fn stats_display(s: StorageStats) -> Seq<char> {
    "StorageStats { keys: "@ + decimal(s.key_count as nat) + ", size: "@ + decimal(
        (s.total_bytes / 1024 / 1024) as nat,
    ) + " MB, reads: "@ + decimal(s.reads as nat) + ", writes: "@ + decimal(s.writes as nat)
        + ", deletes: "@ + decimal(s.deletes as nat) + " }"@
}

/// The record with every counter zero.
pub open spec fn zero_stats() -> StorageStats {
    StorageStats {
        key_count: 0,
        total_bytes: 0,
        avg_key_size: 0,
        avg_value_size: 0,
        reads: 0,
        writes: 0,
        deletes: 0,
    }
}

impl StorageStats {
    /// All counters zero.
    pub fn new() -> (r: StorageStats)
        ensures
            r == zero_stats(),
    {
        StorageStats {
            key_count: 0,
            total_bytes: 0,
            avg_key_size: 0,
            avg_value_size: 0,
            reads: 0,
            writes: 0,
            deletes: 0,
        }
    }

    /// The human-readable summary (what the record displays as).
    pub fn to_display_string(&self) -> (r: String)
        ensures
            r@ == stats_display(*self),
    {
        let mut out: Vec<char> = Vec::new();
        push_str(&mut out, "StorageStats { keys: ");
        push_decimal(&mut out, self.key_count);
        push_str(&mut out, ", size: ");
        push_decimal(&mut out, self.total_bytes / 1024 / 1024);
        push_str(&mut out, " MB, reads: ");
        push_decimal(&mut out, self.reads);
        push_str(&mut out, ", writes: ");
        push_decimal(&mut out, self.writes);
        push_str(&mut out, ", deletes: ");
        push_decimal(&mut out, self.deletes);
        push_str(&mut out, " }");
        assert(out@ =~= stats_display(*self));
        string_of(out.as_slice())
    }
}

} // verus!

verus! {

/// A store with no pairs.
pub open spec fn no_entries() -> Map<Seq<u8>, Seq<u8>> {
    Map::empty()
}

/// The view of a key-value pair.
pub open spec fn entries_view(v: Seq<(Vec<u8>, Vec<u8>)>) -> Seq<(Seq<u8>, Seq<u8>)> {
    v.map_values(|e: (Vec<u8>, Vec<u8>)| (e.0@, e.1@))
}

/// `es` is the scan of `m` over the keys that `sel` admits: every such entry of
/// `m` once, and nothing else, in strictly increasing key order.
pub open spec fn is_scan(
    m: Map<Seq<u8>, Seq<u8>>,
    es: Seq<(Seq<u8>, Seq<u8>)>,
    sel: spec_fn(Seq<u8>) -> bool,
) -> bool {
    &&& forall|i: int, j: int| 0 <= i < j < es.len() ==> crate::bytes::lex_lt(#[trigger] es[i].0, #[trigger] es[j].0)
    &&& forall|i: int|
        0 <= i < es.len() ==> sel(#[trigger] es[i].0) && m.contains_key(es[i].0) && m[es[i].0] == es[i].1
    &&& forall|k: Seq<u8>| m.contains_key(k) && sel(k) ==> exists|i: int| 0 <= i < es.len() && #[trigger] es[i].0 == k
}

/// `m` after inserting the pairs of `es` in order (a later pair wins).
pub open spec fn insert_all(m: Map<Seq<u8>, Seq<u8>>, es: Seq<(Seq<u8>, Seq<u8>)>) -> Map<Seq<u8>, Seq<u8>>
    decreases es.len(),
{
    if es.len() == 0 {
        m
    } else {
        insert_all(m, es.drop_last()).insert(es.last().0, es.last().1)
    }
}

/// Whether `k` lies in the half-open range `[start, end)`.
pub open spec fn in_range(start: Seq<u8>, end: Seq<u8>, k: Seq<u8>) -> bool {
    crate::bytes::lex_le(start, k) && crate::bytes::lex_lt(k, end)
}

/// A key-value store over byte strings, the layer every quad store is built on.
///
/// Implementations may fail (an I/O error, say); what a call promises, it
/// promises when it returns `Ok`.
pub trait StorageBackend: Sized {
    /// The key-value pairs held.
    spec fn contents(&self) -> Map<Seq<u8>, Seq<u8>>;

    /// Whether every operation of this store succeeds (as it does for a store
    /// kept in memory); a store that may fail promises nothing here.
    spec fn never_fails(&self) -> bool;

    /// Gets the value stored under `key`.
    fn get(&self, key: &[u8]) -> (r: StorageResult<Option<Vec<u8>>>)
        ensures
            self.never_fails() ==> r is Ok,
            r matches Ok(o) ==> match o {
                Some(v) => self.contents().contains_key(key@) && v@ == self.contents()[key@],
                None => !self.contents().contains_key(key@),
            },
    ;

    /// Stores `value` under `key`, replacing any earlier value.
    fn put(&mut self, key: &[u8], value: &[u8]) -> (r: StorageResult<()>)
        ensures
            old(self).never_fails() ==> r is Ok,
            final(self).never_fails() == old(self).never_fails(),
            r is Ok ==> final(self).contents() == old(self).contents().insert(key@, value@),
    ;

    /// Removes `key` and its value, if present.
    fn delete(&mut self, key: &[u8]) -> (r: StorageResult<()>)
        ensures
            old(self).never_fails() ==> r is Ok,
            final(self).never_fails() == old(self).never_fails(),
            r is Ok ==> final(self).contents() == old(self).contents().remove(key@),
    ;

    /// Whether `key` is present.
    fn contains(&self, key: &[u8]) -> (r: StorageResult<bool>)
        ensures
            self.never_fails() ==> r is Ok,
            r matches Ok(b) ==> b == self.contents().contains_key(key@),
    {
        match self.get(key) {
            Ok(o) => Ok(o.is_some()),
            Err(e) => Err(e),
        }
    }

    /// The pairs whose keys lie in `[start, end)`, in key order.
    fn range_scan(&self, start: &[u8], end: &[u8]) -> (r: StorageResult<Vec<(Vec<u8>, Vec<u8>)>>)
        ensures
            self.never_fails() ==> r is Ok,
            r matches Ok(v) ==> is_scan(self.contents(), entries_view(v@), |k: Seq<u8>| in_range(start@, end@, k)),
    ;

    /// The pairs whose keys start with `prefix`, in key order.
    fn prefix_scan(&self, prefix: &[u8]) -> (r: StorageResult<Vec<(Vec<u8>, Vec<u8>)>>)
        ensures
            self.never_fails() ==> r is Ok,
            r matches Ok(v) ==> is_scan(self.contents(), entries_view(v@), |k: Seq<u8>| prefix@.is_prefix_of(k)),
    ;

    /// Makes pending writes durable; a store kept in memory has nothing to do.
    fn flush(&mut self) -> (r: StorageResult<()>)
        ensures
            old(self).never_fails() ==> r is Ok,
            final(self).never_fails() == old(self).never_fails(),
            r is Ok ==> final(self).contents() == old(self).contents(),
    {
        Ok(())
    }

    /// Compacts the storage; a store without compaction has nothing to do.
    fn compact(&mut self) -> (r: StorageResult<()>)
        ensures
            old(self).never_fails() ==> r is Ok,
            final(self).never_fails() == old(self).never_fails(),
            r is Ok ==> final(self).contents() == old(self).contents(),
    {
        Ok(())
    }

    /// Stores each pair in turn, as successive `put`s would, stopping at the
    /// first failure.
    fn batch_put(&mut self, pairs: Vec<(Vec<u8>, Vec<u8>)>) -> (r: StorageResult<()>)
        ensures
            old(self).never_fails() ==> r is Ok,
            final(self).never_fails() == old(self).never_fails(),
            r is Ok ==> final(self).contents() == insert_all(old(self).contents(), entries_view(pairs@)),
    {
        let mut i: usize = 0;
        while i < pairs.len()
            invariant
                i <= pairs@.len(),
                self.contents() == insert_all(old(self).contents(), entries_view(pairs@).take(i as int)),
                self.never_fails() == old(self).never_fails(),
            decreases pairs@.len() - i,
        {
            let (key, value) = &pairs[i];
            match self.put(key.as_slice(), value.as_slice()) {
                Ok(()) => {},
                Err(e) => {
                    return Err(e);
                },
            }
            assert(entries_view(pairs@).take(i + 1).drop_last() =~= entries_view(pairs@).take(i as int));
            i += 1;
        }
        assert(entries_view(pairs@).take(i as int) =~= entries_view(pairs@));
        Ok(())
    }

    /// Counters kept by the store; a store that keeps none reports zeros.
    fn stats(&self) -> (r: StorageStats)
        default_ensures
            r == zero_stats(),
    {
        StorageStats::new()
    }
}

} // verus!
