//! The raw allocator: size/alignment parameters in, a zero-initialised block
//! of exactly the requested size out, with exact-parameter deallocation.
//!
//! The backing directory for platform page mappings is held in an explicit
//! configuration object rather than implicit global state.  The block model
//! here is what every consumer is verified against; the operating-system
//! mapping path (anonymous backing files) lives outside the verified library,
//! rejects exactly the parameters these contracts reject, and may in
//! addition fail when the operating system refuses resources.

use vstd::prelude::*;
use vstd::arithmetic::power2::{is_pow2, is_pow2_equiv};
use vstd::arithmetic::power::{lemma_pow_increases, lemma_pow_strictly_increases, pow};

verus! {

/// Largest alignment the allocator accepts: the platform page size.
pub const MAX_ALIGN: usize = 4096;

/// Allocator configuration: the directory in which backing files for page
/// mappings are created.
pub struct AllocConfig {
    path: String,
}

impl AllocConfig {
    /// The configured backing directory, as a sequence of characters.
    pub closed spec fn spec_path(&self) -> Seq<char> {
        self.path@
    }

    /// Builds a configuration pointing at the given backing directory.
    pub fn new(path: String) -> (c: AllocConfig)
        ensures
            c.spec_path() == path@,
    {
        AllocConfig { path }
    }
}

/// Replaces the backing directory used by all subsequent allocations.
pub fn set_path(cfg: &mut AllocConfig, p: String)
    ensures
        final(cfg).spec_path() == p@,
{
    cfg.path = p;
}

/// Reads the currently configured backing directory.
pub fn with_path(cfg: &AllocConfig) -> (p: &String)
    ensures
        p@ == cfg.spec_path(),
{
    &cfg.path
}

/// A block of memory handed out by the allocator: owned, zero-initialised
/// bytes of exactly the size that was requested.
pub struct Block {
    bytes: Vec<u8>,
}

impl View for Block {
    type V = Seq<u8>;

    closed spec fn view(&self) -> Seq<u8> {
        self.bytes@
    }
}

/// The allocator's parameter contract: a request is served exactly when the
/// size is non-zero and fits the operating system's signed length type, and
/// the alignment is a non-zero power of two no larger than the page size.
pub open spec fn valid_alloc_params(size: usize, align: usize) -> bool {
    &&& size > 0
    &&& size <= i64::MAX as usize
    &&& align > 0
    &&& align <= MAX_ALIGN
    &&& is_pow2(align as int)
}

/// Anything representable as a power of two is at least 1.
pub(crate) proof fn lemma_pow2_ge_one(n: int)
    requires
        is_pow2(n),
    ensures
        n >= 1,
{
    reveal(is_pow2);
}

/// Two powers of two with `p < q` satisfy `2 * p <= q`.
pub(crate) proof fn lemma_pow2_double_le(p: int, q: int)
    requires
        is_pow2(p),
        is_pow2(q),
        p < q,
    ensures
        2 * p <= q,
{
    is_pow2_equiv(p);
    is_pow2_equiv(q);
    let i = choose|i: nat| pow(2, i) == p;
    let j = choose|j: nat| pow(2, j) == q;
    if j <= i {
        lemma_pow_increases(2, j, i);
        assert(false);
    }
    lemma_pow_strictly_increases(2, i, i + 1);
    assert(pow(2, i + 1) == 2 * pow(2, i)) by {
        vstd::arithmetic::power::lemma_pow_adds(2, i, 1);
        vstd::arithmetic::power::lemma_pow1(2);
    }
    lemma_pow_increases(2, i + 1, j);
}

/// Decides whether `n` is a power of two, for `n` bounded by the page size.
fn is_power_of_two(n: usize) -> (r: bool)
    requires
        n <= MAX_ALIGN,
    ensures
        r == is_pow2(n as int),
{
    let mut p: usize = 1;
    proof {
        reveal(is_pow2);
    }
    while p < n
        invariant
            n <= MAX_ALIGN,
            1 <= p <= 2 * MAX_ALIGN,
            is_pow2(p as int),
            forall|q: int| is_pow2(q) && q < p ==> q < n,
        decreases 2 * n - p,
    {
        proof {
            assert forall|q: int| is_pow2(q) && q < 2 * p implies q < n by {
                lemma_pow2_ge_one(q);
                if q > p {
                    lemma_pow2_double_le(p as int, q);
                    assert(false);
                }
            }
            assert(is_pow2(2 * p as int)) by {
                reveal(is_pow2);
            }
        }
        p = p * 2;
    }
    if p == n {
        true
    } else {
        proof {
            if is_pow2(n as int) {
                assert(n < p);
            }
        }
        false
    }
}

/// Decides whether a size/alignment pair meets the allocator's parameter
/// contract.
pub fn valid_params(size: usize, align: usize) -> (b: bool)
    ensures
        b == valid_alloc_params(size, align),
{
    if size == 0 || size > i64::MAX as usize || align == 0 || align > MAX_ALIGN {
        return false;
    }
    is_power_of_two(align)
}

/// `allocate(size, align)`: returns a zero-filled block of exactly `size`
/// bytes, or nothing (the null sentinel of the platform interface) when the
/// parameters violate the contract.  Every exit path releases any resource
/// acquired on the way.
pub fn allocate(cfg: &AllocConfig, size: usize, align: usize) -> (r: Option<Block>)
    ensures
        r is Some <==> valid_alloc_params(size, align),
        r matches Some(b) ==> b@ == Seq::new(size as nat, |i: int| 0u8),
{
    if !valid_params(size, align) {
        return None;
    }
    let mut bytes: Vec<u8> = Vec::new();
    let mut i: usize = 0;
    while i < size
        invariant
            i <= size,
            bytes@ =~= Seq::new(i as nat, |j: int| 0u8),
        decreases size - i,
    {
        bytes.push(0u8);
        i = i + 1;
    }
    proof {
        assert(bytes@ =~= Seq::new(size as nat, |j: int| 0u8));
    }
    Some(Block { bytes })
}

/// `deallocate(block, old_size, align)`: releases a block.  The caller must
/// pass the exact size used at allocation; the alignment is accepted for
/// interface symmetry.  The exactness obligation, fatal if violated on the
/// platform path, is discharged statically here.
pub fn deallocate(block: Block, old_size: usize, _align: usize)
    requires
        block@.len() == old_size,
{
}

} // verus!
