//! Transactions over a storage backend: operations buffered until commit.
use vstd::prelude::*;
use crate::backend::{entries_view, StorageResult};

verus! {

/// A transaction: reads and writes that take effect together, or not at all.
pub trait Transaction: Send {
    /// Gets a value as seen inside the transaction.
    fn get(&self, key: &[u8]) -> StorageResult<Option<Vec<u8>>>;

    /// Writes a pair inside the transaction.
    fn put(&mut self, key: &[u8], value: &[u8]) -> StorageResult<()>;

    /// Deletes a key inside the transaction.
    fn delete(&mut self, key: &[u8]) -> StorageResult<()>;

    /// Commits the transaction, making its changes durable.
    fn commit(self: Box<Self>) -> StorageResult<()>;

    /// Rolls the transaction back, discarding its changes.
    fn rollback(self: Box<Self>) -> StorageResult<()>;
}

/// A transaction for an in-memory store: puts and deletes are buffered, in
/// the order made, for the store to apply.
pub struct InMemoryTransaction {
    puts: Vec<(Vec<u8>, Vec<u8>)>,
    deletes: Vec<Vec<u8>>,
    committed: bool,
}

/// The views of a sequence of keys.
pub open spec fn keys_view(v: Seq<Vec<u8>>) -> Seq<Seq<u8>> {
    v.map_values(|k: Vec<u8>| k@)
}

impl InMemoryTransaction {
    /// The buffered puts, in order.
    pub closed spec fn buffered_puts(&self) -> Seq<(Seq<u8>, Seq<u8>)> {
        entries_view(self.puts@)
    }

    /// The buffered deletes, in order.
    pub closed spec fn buffered_deletes(&self) -> Seq<Seq<u8>> {
        keys_view(self.deletes@)
    }

    /// A transaction with nothing buffered.
    pub fn new() -> (r: InMemoryTransaction)
        ensures
            r.buffered_puts() == Seq::<(Seq<u8>, Seq<u8>)>::empty(),
            r.buffered_deletes() == Seq::<Seq<u8>>::empty(),
    {
        let r = InMemoryTransaction { puts: Vec::new(), deletes: Vec::new(), committed: false };
        assert(r.buffered_puts() =~= Seq::<(Seq<u8>, Seq<u8>)>::empty());
        assert(r.buffered_deletes() =~= Seq::<Seq<u8>>::empty());
        r
    }

    /// The buffered puts and deletes, each in the order made.
    pub fn into_changes(self) -> (r: (Vec<(Vec<u8>, Vec<u8>)>, Vec<Vec<u8>>))
        ensures
            entries_view(r.0@) == self.buffered_puts(),
            keys_view(r.1@) == self.buffered_deletes(),
    {
        (self.puts, self.deletes)
    }
}

impl Default for InMemoryTransaction {
    fn default() -> (r: InMemoryTransaction)
        ensures
            r.buffered_puts() == Seq::<(Seq<u8>, Seq<u8>)>::empty(),
            r.buffered_deletes() == Seq::<Seq<u8>>::empty(),
    {
        InMemoryTransaction::new()
    }
}

impl Transaction for InMemoryTransaction {
    /// Reads are not tracked: always `Ok(None)`.
    fn get(&self, key: &[u8]) -> (r: StorageResult<Option<Vec<u8>>>)
        ensures
            r matches Ok(None),
    {
        Ok(None)
    }

    /// Buffers the put.
    fn put(&mut self, key: &[u8], value: &[u8]) -> (r: StorageResult<()>)
        ensures
            r is Ok,
            final(self).buffered_puts() == old(self).buffered_puts().push((key@, value@)),
            final(self).buffered_deletes() == old(self).buffered_deletes(),
    {
        self.puts.push((vstd::slice::slice_to_vec(key), vstd::slice::slice_to_vec(value)));
        assert(self.buffered_puts() =~= old(self).buffered_puts().push((key@, value@)));
        Ok(())
    }

    /// Buffers the delete.
    fn delete(&mut self, key: &[u8]) -> (r: StorageResult<()>)
        ensures
            r is Ok,
            final(self).buffered_puts() == old(self).buffered_puts(),
            final(self).buffered_deletes() == old(self).buffered_deletes().push(key@),
    {
        self.deletes.push(vstd::slice::slice_to_vec(key));
        assert(self.buffered_deletes() =~= old(self).buffered_deletes().push(key@));
        Ok(())
    }

    /// Marks the transaction committed; always succeeds.
    fn commit(self: Box<Self>) -> (r: StorageResult<()>)
        ensures
            r is Ok,
    {
        let mut t = *self;
        t.committed = true;
        Ok(())
    }

    /// Drops the buffered changes; always succeeds.
    fn rollback(self: Box<Self>) -> (r: StorageResult<()>)
        ensures
            r is Ok,
    {
        Ok(())
    }
}

} // verus!
