//! Batch key encoding and bulk processing of quads.
use vstd::prelude::*;
use rayon::iter::{IntoParallelRefIterator, ParallelIterator};
use crate::indexes::{key_spec, IndexType};
use crate::keybuf::{key_bytes, KeyBuf};
use crate::node::Quad;
use crate::quad_store::quad_storable;

verus! {

/// Whether every quad of a batch can be encoded.
pub open spec fn all_storable(quads: Seq<Quad>) -> bool {
    forall|i: int| 0 <= i < quads.len() ==> quad_storable(#[trigger] quads[i]@)
}

/// `keys` are the keys of `quads` in index `t`, one for one and in order.
pub open spec fn keys_of_batch(keys: Seq<KeyBuf>, quads: Seq<Quad>, t: IndexType) -> bool {
    &&& keys.len() == quads.len()
    &&& forall|i: int| 0 <= i < keys.len() ==> key_bytes(#[trigger] keys[i]) == key_spec(t, quads[i]@)
}

/// `rayon`'s `par_iter().map(..).collect()` over the quads, each mapped to its
/// key by `IndexType::encode_key`; an indexed parallel iterator collects into a
/// vector in the input's order.
#[verifier::external_body]
fn par_encode_keys(quads: &[Quad], index_type: IndexType) -> (r: Vec<KeyBuf>)
    requires
        all_storable(quads@),
    ensures
        keys_of_batch(r@, quads@, index_type),
{
    quads.par_iter().map(|quad| index_type.encode_key(quad)).collect()
}

/// `num_cpus::get`: the number of logical CPUs available, at least one.
#[verifier::external_body]
fn cpu_count() -> (r: usize)
    ensures
        r >= 1,
{
    num_cpus::get()
}

/// Encodes batches of quads into index keys.
pub struct SimdEncoder {
    marker: (),
}

impl SimdEncoder {
    /// An encoder.
    pub fn new() -> (r: SimdEncoder) {
        SimdEncoder { marker: () }
    }

    /// The key of each quad in index `index_type`, in order.
    pub fn encode_batch(&self, quads: &[Quad], index_type: IndexType) -> (r: Vec<KeyBuf>)
        requires
            all_storable(quads@),
        ensures
            keys_of_batch(r@, quads@, index_type),
    {
        let mut out: Vec<KeyBuf> = Vec::new();
        let mut i: usize = 0;
        while i < quads.len()
            invariant
                i <= quads@.len(),
                all_storable(quads@),
                out@.len() == i,
                forall|j: int| 0 <= j < i ==> key_bytes(#[trigger] out@[j]) == key_spec(index_type, quads@[j]@),
            decreases quads@.len() - i,
        {
            assert(quad_storable(quads@[i as int]@));
            out.push(index_type.encode_key(&quads[i]));
            i += 1;
        }
        out
    }

    /// The key of each quad in index `index_type`, in order, computed on all
    /// CPUs at once.
    pub fn encode_batch_parallel(&self, quads: &[Quad], index_type: IndexType) -> (r: Vec<KeyBuf>)
        requires
            all_storable(quads@),
        ensures
            keys_of_batch(r@, quads@, index_type),
    {
        par_encode_keys(quads, index_type)
    }
}

impl Default for SimdEncoder {
    fn default() -> (r: SimdEncoder) {
        SimdEncoder::new()
    }
}

/// Processes quads in batches of a configured size.
pub struct BatchProcessor {
    batch_size: usize,
    num_workers: usize,
}

/// The `i`-th batch of `quads` in batches of `size`.
pub open spec fn batch(quads: Seq<Quad>, size: nat, i: int) -> Seq<Quad> {
    quads.subrange(i * size, if (i + 1) * size <= quads.len() {
        (i + 1) * size
    } else {
        quads.len() as int
    })
}

/// The number of batches of `size` that `n` items make (the last may be short).
pub open spec fn batch_count(n: nat, size: nat) -> nat
    recommends
        size > 0,
{
    if size == 0 {
        0
    } else {
        ((n + size - 1) / (size as int)) as nat
    }
}

/// The sequences of `os`, one after another.
pub open spec fn concat<R>(os: Seq<Seq<R>>) -> Seq<R>
    decreases os.len(),
{
    if os.len() == 0 {
        Seq::empty()
    } else {
        concat(os.drop_last()) + os.last()
    }
}

/// `out` is what `processor` may return for the `i`-th batch of `quads` in
/// batches of `size`.
pub open spec fn batch_output<F: Fn(&[Quad]) -> Vec<R>, R>(
    processor: &F,
    quads: Seq<Quad>,
    size: nat,
    i: int,
    out: Seq<R>,
) -> bool {
    exists|c: &[Quad], v: Vec<R>| c@ == batch(quads, size, i) && v@ == out && processor.ensures((c,), v)
}

impl BatchProcessor {
    /// The batch size.
    pub closed spec fn size(&self) -> usize {
        self.batch_size
    }

    /// The number of workers.
    pub closed spec fn workers(&self) -> usize {
        self.num_workers
    }

    /// Batches of 2048, one worker per available CPU.
    pub fn new() -> (r: BatchProcessor)
        ensures
            r.size() == 2048,
            r.workers() >= 1,
    {
        BatchProcessor { batch_size: 2048, num_workers: cpu_count() }
    }

    /// The same processor with batches of `size`.
    pub fn with_batch_size(self, size: usize) -> (r: BatchProcessor)
        ensures
            r.size() == size,
            r.workers() == self.workers(),
    {
        let mut s = self;
        s.batch_size = size;
        s
    }

    /// The same processor with `count` workers.
    pub fn with_workers(self, count: usize) -> (r: BatchProcessor)
        ensures
            r.size() == self.size(),
            r.workers() == count,
    {
        let mut s = self;
        s.num_workers = count;
        s
    }

    /// The batch size.
    pub fn batch_size(&self) -> (r: usize)
        ensures
            r == self.size(),
    {
        self.batch_size
    }

    /// The number of workers.
    pub fn num_workers(&self) -> (r: usize)
        ensures
            r == self.workers(),
    {
        self.num_workers
    }

    /// Runs `processor` on each batch of `quads` in turn and concatenates what
    /// the calls return, in batch order.
    pub fn process_bulk<F, R>(&self, quads: &[Quad], processor: F) -> (r: Vec<R>) where
        F: Fn(&[Quad]) -> Vec<R>,

        requires
            self.size() > 0,
            forall|c: &[Quad]| #[trigger] processor.requires((c,)),
        ensures
            exists|os: Seq<Seq<R>>|
                {
                    &&& os.len() == batch_count(quads@.len(), self.size() as nat)
                    &&& r@ == concat(os)
                    &&& forall|i: int|
                        0 <= i < os.len() ==> #[trigger] batch_output(&processor, quads@, self.size() as nat, i, os[i])
                },
    {
        let size = self.batch_size;
        let n = quads.len();
        let mut out: Vec<R> = Vec::new();
        let mut start: usize = 0;
        let mut k: usize = 0;
        let ghost mut os: Seq<Seq<R>> = Seq::empty();
        while start < n
            invariant
                size == self.size(),
                size > 0,
                n == quads@.len(),
                start <= n,
                start <= k * size,
                k == 0 || (k - 1) * size < start,
                start < n ==> start == k * size,
                k <= start,
                forall|c: &[Quad]| #[trigger] processor.requires((c,)),
                os.len() == k,
                out@ == concat(os),
                forall|i: int|
                    0 <= i < os.len() ==> #[trigger] batch_output(&processor, quads@, size as nat, i, os[i]),
            decreases n - start,
        {
            let end = if n - start > size {
                start + size
            } else {
                n
            };
            let chunk = vstd::slice::slice_subrange(quads, start, end);
            proof {
                assert((k + 1) * size == k * size + size) by (nonlinear_arith);
                assert(chunk@ =~= batch(quads@, size as nat, k as int));
            }
            let mut part = processor(chunk);
            let ghost pvec = part;
            let ghost pv = part@;
            let ghost old_os = os;
            proof {
                os = os.push(pv);
                assert(os.drop_last() =~= old_os);
                assert(chunk@ == batch(quads@, size as nat, k as int) && pvec@ == pv && processor.ensures(
                    (chunk,),
                    pvec,
                ));
                assert(batch_output(&processor, quads@, size as nat, k as int, pv));
                assert forall|i: int|
                    0 <= i < os.len() implies #[trigger] batch_output(&processor, quads@, size as nat, i, os[i]) by {
                    if i < old_os.len() {
                        assert(os[i] == old_os[i]);
                    } else {
                        assert(os[i] == pv);
                    }
                }
            }
            let ghost before = out@;
            out.append(&mut part);
            assert(out@ =~= concat(os));
            proof {
                assert((k + 1) * size == k * size + size) by (nonlinear_arith);
            }
            start = end;
            k = k + 1;
        }
        proof {
            lemma_batch_count(n as nat, size as nat, k as nat);
        }
        assert(os.len() == batch_count(quads@.len(), self.size() as nat) && out@ == concat(os));
        out
    }
}

proof fn lemma_batch_count(n: nat, size: nat, k: nat)
    requires
        size > 0,
        n <= k * size,
        k == 0 || (k - 1) * size < n,
    ensures
        batch_count(n, size) == k,
{
    if k == 0 {
        assert(n == 0);
        assert((size - 1) / (size as int) == 0) by (nonlinear_arith)
            requires
                size > 0,
        ;
    } else {
        let q = (n + size - 1) / (size as int);
        assert(q == k) by (nonlinear_arith)
            requires
                size > 0,
                n <= k * size,
                (k - 1) * size < n,
                q == (n + size - 1) / (size as int),
        ;
    }
}

impl Default for BatchProcessor {
    fn default() -> (r: BatchProcessor)
        ensures
            r.size() == 2048,
            r.workers() >= 1,
    {
        BatchProcessor::new()
    }
}

/// Copies the first `len` bytes of `src` over the first `len` bytes of
/// `dst`; the rest of `dst` is left as it was.
pub fn simd_memcpy(dst: &mut [u8], src: &[u8], len: usize)
    requires
        len <= old(dst)@.len(),
        len <= src@.len(),
    ensures
        final(dst)@ == src@.take(len as int) + old(dst)@.skip(len as int),
{
    let mut i: usize = 0;
    while i < len
        invariant
            i <= len,
            len <= src@.len(),
            len <= dst@.len(),
            dst@.len() == old(dst)@.len(),
            forall|j: int| 0 <= j < i ==> dst@[j] == src@[j],
            forall|j: int| i <= j < dst@.len() ==> dst@[j] == old(dst)@[j],
        decreases len - i,
    {
        dst[i] = src[i];
        i = i + 1;
    }
    assert(dst@ =~= src@.take(len as int) + old(dst)@.skip(len as int));
}

} // verus!
