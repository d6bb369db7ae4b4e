use vstd::prelude::*;
use vstd::arithmetic::div_mod::{lemma_fundamental_div_mod, lemma_mod_multiples_basic};
use vstd::arithmetic::power2::{
    pow2,
    lemma_pow2_adds,
    lemma_pow2_pos,
    lemma_pow2_strictly_increases,
    lemma_pow2_unfold,
    lemma2_to64,
};

verus! {

/// Number of addresses in a block whose prefix length is `prefix`.
pub open spec fn block_size(prefix: int) -> int {
    pow2((32 - prefix) as nat) as int
}

/// `addr` is the first address of a block of prefix length `prefix`.
pub open spec fn aligned(addr: int, prefix: int) -> bool {
    addr % block_size(prefix) == 0
}

/// `p` is the shortest prefix length at which `addr` starts a block,
/// i.e. the largest block that `addr` can begin.
pub open spec fn is_alignment_prefix(addr: int, p: int) -> bool {
    &&& 0 <= p <= 32
    &&& aligned(addr, p)
    &&& forall|q: int| 0 <= q < p ==> !aligned(addr, q)
}

/// `p` is the shortest prefix length whose blocks hold at most `remaining`
/// addresses, i.e. the largest block that fits in what is left of a range.
pub open spec fn is_span_prefix(remaining: int, p: int) -> bool {
    &&& 0 <= p <= 32
    &&& block_size(p) <= remaining
    &&& forall|q: int| 0 <= q < p ==> block_size(q) > remaining
}

/// The shortest prefix length at which `addr` is aligned.
pub open spec fn alignment_prefix(addr: int) -> int {
    choose|p: int| is_alignment_prefix(addr, p)
}

/// The shortest prefix length whose blocks fit in `remaining` addresses.
pub open spec fn span_prefix(remaining: int) -> int {
    choose|p: int| is_span_prefix(remaining, p)
}

/// `e` is the integer base-2 logarithm of `x`, rounded down.
pub open spec fn is_floor_log2(x: int, e: int) -> bool {
    0 <= e && pow2(e as nat) <= x < pow2((e + 1) as nat)
}

pub proof fn lemma_block_size_bounds(p: int)
    requires
        0 <= p <= 32,
    ensures
        1 <= block_size(p) <= 0x1_0000_0000,
        p < 32 ==> block_size(p) == 2 * block_size(p + 1),
{
    lemma2_to64();
    lemma_pow2_pos((32 - p) as nat);
    if p < 32 {
        lemma_pow2_unfold((32 - p) as nat);
    }
    if p > 0 {
        lemma_pow2_strictly_increases((32 - p) as nat, 32);
    }
}

/// A longer prefix gives a smaller block.
pub proof fn lemma_block_size_decreases(p: int, q: int)
    requires
        0 <= q < p <= 32,
    ensures
        block_size(p) < block_size(q),
{
    lemma_pow2_strictly_increases((32 - p) as nat, (32 - q) as nat);
}

/// An address aligned to a block is aligned to every smaller block.
pub proof fn lemma_aligned_longer(addr: int, q: int, p: int)
    requires
        0 <= q <= p <= 32,
        aligned(addr, q),
    ensures
        aligned(addr, p),
{
    let small = block_size(p);
    let big = block_size(q);
    let k = pow2((p - q) as nat) as int;
    lemma_pow2_adds((32 - p) as nat, (p - q) as nat);
    assert(big == small * k);
    lemma_pow2_pos((32 - p) as nat);
    lemma_pow2_pos((32 - q) as nat);
    lemma_fundamental_div_mod(addr, big);
    assert(addr == big * (addr / big));
    assert(addr == (k * (addr / big)) * small) by (nonlinear_arith)
        requires
            addr == big * (addr / big),
            big == small * k,
    ;
    lemma_mod_multiples_basic(k * (addr / big), small);
}

/// At most one prefix length is the alignment prefix of an address.
pub proof fn lemma_alignment_prefix_unique(addr: int, p: int)
    requires
        is_alignment_prefix(addr, p),
    ensures
        alignment_prefix(addr) == p,
{
    let c = alignment_prefix(addr);
    assert(is_alignment_prefix(addr, c));
    if c < p {
        assert(!aligned(addr, c));
    } else if p < c {
        assert(!aligned(addr, p));
    }
}

/// At most one prefix length is the span prefix of a count.
pub proof fn lemma_span_prefix_unique(remaining: int, p: int)
    requires
        is_span_prefix(remaining, p),
    ensures
        span_prefix(remaining) == p,
{
    let c = span_prefix(remaining);
    assert(is_span_prefix(remaining, c));
    if c < p {
        assert(block_size(c) > remaining);
    } else if p < c {
        assert(block_size(p) > remaining);
    }
}

/// Computes `2^x`, for `x` up to 32 (the size of a `/0` block).
pub fn integer_pow_2(x: u32) -> (r: u64)
    requires
        x <= 32,
    ensures
        r == pow2(x as nat),
{
    let mut mut_x: u32 = x;
    let mut product: u64 = 1;
    proof {
        lemma2_to64();
    }
    while mut_x > 0
        invariant
            mut_x <= x <= 32,
            product == pow2((x - mut_x) as nat),
        decreases mut_x,
    {
        proof {
            lemma_pow2_unfold((x - mut_x + 1) as nat);
            lemma2_to64();
            if x - mut_x + 1 < 32 {
                lemma_pow2_strictly_increases((x - mut_x + 1) as nat, 32);
            }
        }
        product = product * 2;
        mut_x = mut_x - 1;
    }
    product
}

/// The integer base-2 logarithm of `x`, rounded down: the largest `e`
/// with `2^e <= x`.
pub fn integer_log_2(x: u64) -> (r: u32)
    requires
        1 <= x <= 0x1_0000_0000,
    ensures
        r <= 32,
        is_floor_log2(x as int, r as int),
{
    let mut exponent: u32 = 0;
    let mut product: u64 = 1;
    proof {
        lemma2_to64();
    }
    while product < x
        invariant
            1 <= x <= 0x1_0000_0000,
            exponent <= 32,
            product == pow2(exponent as nat),
            exponent == 0 || pow2((exponent - 1) as nat) < x,
        decreases 32 - exponent,
    {
        proof {
            lemma2_to64();
            if exponent >= 32 {
                if exponent > 32 {
                    lemma_pow2_strictly_increases(32, exponent as nat);
                }
                assert(false);
            }
            lemma_pow2_unfold((exponent + 1) as nat);
        }
        product = product * 2;
        exponent = exponent + 1;
    }
    proof {
        lemma_pow2_unfold((exponent + 1) as nat);
    }
    if product != x {
        proof {
            lemma2_to64();
            lemma_pow2_unfold(exponent as nat);
        }
        exponent - 1
    } else {
        exponent
    }
}

/// The shortest prefix length whose blocks hold no more than `remaining`
/// addresses: `32 - floor(log2(remaining))`.
pub fn min_prefix_for_span(remaining: u64) -> (r: u32)
    requires
        1 <= remaining <= 0x1_0000_0000,
    ensures
        is_span_prefix(remaining as int, r as int),
        r as int == span_prefix(remaining as int),
{
    let e = integer_log_2(remaining);
    let r = 32 - e;
    proof {
        assert forall|q: int| 0 <= q < r implies block_size(q) > remaining by {
            if 32 - q > e + 1 {
                lemma_pow2_strictly_increases((e + 1) as nat, (32 - q) as nat);
            }
        }
        lemma_span_prefix_unique(remaining as int, r as int);
    }
    r
}

/// The shortest prefix length at which `addr` starts a block: the largest
/// block that can begin at `addr`.
pub fn max_aligned_prefix(addr: u32) -> (r: u32)
    ensures
        is_alignment_prefix(addr as int, r as int),
        r as int == alignment_prefix(addr as int),
{
    let mut p: u32 = 32;
    let mut size: u64 = 1;
    proof {
        lemma2_to64();
    }
    while p > 0
        invariant_except_break
            p <= 32,
            size == block_size(p as int),
            aligned(addr as int, p as int),
        ensures
            p <= 32,
            size == block_size(p as int),
            aligned(addr as int, p as int),
            p == 0 || !aligned(addr as int, p - 1),
        decreases p,
    {
        proof {
            lemma_block_size_bounds(p - 1);
        }
        let next: u64 = size * 2;
        if (addr as u64) % next != 0 {
            break;
        }
        size = next;
        p = p - 1;
    }
    proof {
        assert forall|q: int| 0 <= q < p implies !aligned(addr as int, q) by {
            if aligned(addr as int, q) {
                lemma_aligned_longer(addr as int, q, p - 1);
            }
        }
        lemma_alignment_prefix_unique(addr as int, p as int);
    }
    p
}

} // verus!
