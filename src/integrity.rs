//! Whole-content and block digests of file contents.

use vstd::prelude::*;
use crate::header::{bytes_seqs, HashAlgorithm};

verus! {

/// The SHA-256 digest of a byte sequence.
pub uninterp spec fn sha256_of(data: Seq<u8>) -> Seq<u8>;

/// Relies on sha2's `Sha256::digest`: the 32-byte SHA-256 digest of `data`,
/// which depends on `data` alone.
#[verifier::external_body]
fn sha256(data: &[u8]) -> (r: Vec<u8>)
    ensures
        r@ == sha256_of(data@),
        r@.len() == 32,
{
    <sha2::Sha256 as sha2::Digest>::digest(data).to_vec()
}

/// Relies on sha2's `OutputSizeUser::output_size` for `Sha256`: 32 bytes.
#[verifier::external_body]
fn sha256_output_size() -> (r: usize)
    ensures
        r == 32,
{
    <sha2::Sha256 as sha2::digest::OutputSizeUser>::output_size()
}

/// The digest of `data` under `alg`.
pub open spec fn digest_of(alg: HashAlgorithm, data: Seq<u8>) -> Seq<u8> {
    match alg {
        HashAlgorithm::Sha256 => sha256_of(data),
    }
}

/// The number of `n`-byte blocks that `len` bytes split into: `ceil(len / n)`.
pub open spec fn block_count(len: nat, n: nat) -> nat
    recommends
        n > 0,
{
    if len % n == 0 {
        len / n
    } else {
        len / n + 1
    }
}

/// Block `i` of `data` split into `n`-byte blocks; the last may be shorter.
pub open spec fn block_of(data: Seq<u8>, n: nat, i: int) -> Seq<u8> {
    let start = i * n;
    let end = if (i + 1) * n <= data.len() {
        (i + 1) * n
    } else {
        data.len() as int
    };
    data.subrange(start, end)
}

/// The blocks of `data`, in order.
pub open spec fn blocks_of(data: Seq<u8>, n: nat) -> Seq<Seq<u8>> {
    Seq::new(block_count(data.len(), n), |i: int| block_of(data, n, i))
}

/// The digest of each block of `data`, in order.
pub open spec fn block_digests(alg: HashAlgorithm, data: Seq<u8>, n: nat) -> Seq<Seq<u8>> {
    Seq::new(block_count(data.len(), n), |i: int| digest_of(alg, block_of(data, n, i)))
}

impl HashAlgorithm {
    /// The length in bytes of a digest.
    pub open spec fn spec_hash_len(self) -> nat {
        match self {
            HashAlgorithm::Sha256 => 32,
        }
    }

    pub fn hash_len(&self) -> (r: usize)
        ensures
            r == self.spec_hash_len(),
    {
        match self {
            HashAlgorithm::Sha256 => sha256_output_size(),
        }
    }

    /// The digest of `data`.
    pub fn hash(&self, data: &[u8]) -> (r: Vec<u8>)
        ensures
            r@ == digest_of(*self, data@),
            r@.len() == self.spec_hash_len(),
    {
        match self {
            HashAlgorithm::Sha256 => sha256(data),
        }
    }

    /// Splits `data` into `block_size`-byte blocks, the last one possibly
    /// shorter, and hashes each of them.
    pub fn hash_blocks(&self, block_size: usize, data: &[u8]) -> (r: Vec<Vec<u8>>)
        requires
            block_size > 0,
        ensures
            bytes_seqs(r@) == block_digests(*self, data@, block_size as nat),
    {
        let ghost n = block_size as nat;
        let mut blocks: Vec<Vec<u8>> = Vec::new();
        let mut start: usize = 0;
        let mut i: usize = 0;
        while start < data.len()
            invariant
                block_size > 0,
                n == block_size as nat,
                start <= data@.len(),
                start < data@.len() ==> start == i * block_size,
                i <= start,
                i <= block_count(data@.len(), n),
                start >= data@.len() ==> i == block_count(data@.len(), n),
                blocks@.len() == i,
                forall|j: int|
                    0 <= j < i ==> (#[trigger] blocks@[j])@ == digest_of(*self, block_of(data@, n, j)),
            decreases data@.len() - start,
        {
            let end: usize = if block_size <= data.len() - start {
                start + block_size
            } else {
                data.len()
            };
            let chunk = vstd::slice::slice_subrange(data, start, end);
            assert((i + 1) * n == i * n + n) by (nonlinear_arith);
            assert(chunk@ == block_of(data@, n, i as int));
            proof {
                lemma_block_step(data@.len(), n, i as nat);
            }
            blocks.push(self.hash(chunk));
            i += 1;
            start = end;
        }
        assert(bytes_seqs(blocks@) =~= block_digests(*self, data@, n));
        blocks
    }
}

/// Hashing the blocks of equal data with equal block sizes gives equal
/// digests, one for each started block: `ceil(len / n)` of them.
pub proof fn lemma_block_digests_deterministic(
    alg: HashAlgorithm,
    data1: Seq<u8>,
    data2: Seq<u8>,
    n: nat,
)
    requires
        n > 0,
        data1 == data2,
    ensures
        block_digests(alg, data1, n) == block_digests(alg, data2, n),
        block_digests(alg, data1, n).len() == (data1.len() + n - 1) / n as int,
{
    let len = data1.len();
    let q = len / n;
    let r = len % n;
    assert(len == q * n + r && 0 <= r < n) by (nonlinear_arith)
        requires
            n > 0,
            q == len / n,
            r == len % n,
    ;
    if r == 0 {
        assert((len + n - 1) / n as int == q) by (nonlinear_arith)
            requires
                len == q * n,
                n > 0,
        ;
    } else {
        assert((len + n - 1) / n as int == q + 1) by (nonlinear_arith)
            requires
                len == q * n + r,
                0 < r < n,
        ;
    }
}

/// The blocks of `data`, put back together, are `data`: the whole-content
/// digest is the same whichever block size the blocks were hashed with.
pub proof fn lemma_blocks_cover(alg: HashAlgorithm, data: Seq<u8>, n: nat)
    requires
        n > 0,
    ensures
        blocks_of(data, n).flatten() == data,
        digest_of(alg, blocks_of(data, n).flatten()) == digest_of(alg, data),
{
    lemma_blocks_prefix(data, n, block_count(data.len(), n));
    let c = block_count(data.len(), n);
    assert(blocks_of(data, n) =~= Seq::new(c, |i: int| block_of(data, n, i)).subrange(0, c as int));
    if c * n >= data.len() {
        assert(data.subrange(0, data.len() as int) =~= data);
    }
    lemma_count_covers(data.len(), n);
}

/// `block_count(len, n)` blocks of `n` bytes reach past the end.
proof fn lemma_count_covers(len: nat, n: nat)
    requires
        n > 0,
    ensures
        block_count(len, n) * n >= len,
        len > 0 ==> (block_count(len, n) - 1) * n < len,
{
    let q = len / n;
    let r = len % n;
    assert(len == q * n + r && 0 <= r < n) by (nonlinear_arith)
        requires
            n > 0,
            q == len / n,
            r == len % n,
    ;
    if r == 0 {
        assert(block_count(len, n) * n >= len);
        if len > 0 {
            assert(q > 0) by (nonlinear_arith) requires len == q * n, len > 0, n > 0;
            assert((q - 1) * n == q * n - n) by (nonlinear_arith);
        }
    } else {
        assert((q + 1) * n == q * n + n) by (nonlinear_arith);
    }
}

/// The first `k` blocks, put together, are the data up to `k * n`.
proof fn lemma_blocks_prefix(data: Seq<u8>, n: nat, k: nat)
    requires
        n > 0,
        k <= block_count(data.len(), n),
    ensures
        Seq::new(k, |i: int| block_of(data, n, i)).flatten() == data.subrange(
            0,
            if k * n <= data.len() { (k * n) as int } else { data.len() as int },
        ),
    decreases k,
{
    let s = Seq::new(k, |i: int| block_of(data, n, i));
    if k == 0 {
        assert(s =~= Seq::<Seq<u8>>::empty());
        assert(data.subrange(0, 0) =~= Seq::<u8>::empty());
    } else {
        let k1 = (k - 1) as nat;
        lemma_blocks_prefix(data, n, k1);
        lemma_count_covers(data.len(), n);
        assert(k1 * n < data.len()) by {
            assert(k1 <= block_count(data.len(), n) - 1);
            assert(k1 * n <= (block_count(data.len(), n) - 1) * n) by (nonlinear_arith)
                requires
                    k1 <= block_count(data.len(), n) - 1,
                    n > 0,
            ;
        }
        assert(s.drop_last() =~= Seq::new(k1, |i: int| block_of(data, n, i)));
        s.drop_last().lemma_flatten_push(s.last());
        assert(s.drop_last().push(s.last()) =~= s);
        assert((k1 + 1) * n == k1 * n + n) by (nonlinear_arith);
        assert(k * n == k1 * n + n);
        assert(s.flatten() =~= data.subrange(
            0,
            if k * n <= data.len() { (k * n) as int } else { data.len() as int },
        ));
    }
}

/// Stepping from block `i` to block `i + 1`.
proof fn lemma_block_step(len: nat, n: nat, i: nat)
    requires
        n > 0,
        i * n < len,
    ensures
        i < block_count(len, n),
        (i + 1) * n < len ==> i + 1 < block_count(len, n),
        (i + 1) * n >= len ==> i + 1 == block_count(len, n),
{
    assert((i + 1) * n == i * n + n) by (nonlinear_arith);
    let q = len / n;
    let r = len % n;
    assert(len == q * n + r && 0 <= r < n) by (nonlinear_arith)
        requires n > 0, q == len / n, r == len % n;
    if i > q {
        assert(i * n >= (q + 1) * n) by (nonlinear_arith) requires i >= q + 1, n > 0;
        assert((q + 1) * n == q * n + n) by (nonlinear_arith);
    }
    if i == q {
        assert(i * n == q * n);
    }
    if (i + 1) * n < len {
        if i + 1 > q {
            assert((i + 1) * n >= (q + 1) * n) by (nonlinear_arith) requires i + 1 >= q + 1, n > 0;
            assert((q + 1) * n == q * n + n) by (nonlinear_arith);
        }
        if i + 1 == q {
            assert(r > 0);
        }
    } else {
        if i + 1 < q {
            assert((i + 1) * n < q * n) by (nonlinear_arith) requires i + 1 < q, n > 0;
        }
        if i + 1 == q {
            assert(r == 0);
        }
    }
}

} // verus!
