use vstd::prelude::*;
use vstd::arithmetic::power2::{lemma_pow2_pos, lemma2_to64};
use crate::prefix::{
    aligned,
    alignment_prefix,
    block_size,
    is_alignment_prefix,
    is_span_prefix,
    lemma_aligned_longer,
    lemma_block_size_bounds,
    lemma_block_size_decreases,
    span_prefix,
    integer_pow_2,
    max_aligned_prefix,
    min_prefix_for_span,
};

verus! {

/// A CIDR block: the `2^(32 - prefix)` addresses starting at `base`.
#[derive(Clone, Copy, Debug, PartialEq, Eq, Structural)]
pub struct CidrBlock {
    pub base: u32,
    pub prefix: u32,
}

/// The last address of a block.
pub open spec fn block_last(b: CidrBlock) -> int {
    b.base + block_size(b.prefix as int) - 1
}

/// Address `a` lies in block `b`.
pub open spec fn in_block(b: CidrBlock, a: int) -> bool {
    b.base <= a <= block_last(b)
}

/// Address `a` lies in one of the blocks of `bs`.
pub open spec fn covered(bs: Seq<CidrBlock>, a: int) -> bool {
    exists|i: int| 0 <= i < bs.len() && #[trigger] in_block(bs[i], a)
}

/// No block with a shorter prefix could stand in place of `b`: it would
/// either not start at `b.base` or run past `end`.
pub open spec fn is_maximal(b: CidrBlock, end: int) -> bool {
    forall|q: int|
        0 <= q < b.prefix ==> !aligned(b.base as int, q) || b.base + block_size(q) - 1 > end
}

/// The prefix length of the block that starts at `cursor` when the range
/// runs to `end`: as short as both the alignment of `cursor` and the count
/// of addresses left allow.
pub open spec fn chosen_prefix(cursor: int, end: int) -> int {
    let a = alignment_prefix(cursor);
    let s = span_prefix(end - cursor + 1);
    if a < s {
        s
    } else {
        a
    }
}

/// The blocks that cover `[cursor, end]`, from left to right, each the
/// largest one that starts at the current address and stays in the range.
pub open spec fn cidr_blocks(cursor: int, end: int) -> Seq<CidrBlock>
    decreases
            if cursor > end {
                0
            } else {
                end + 1 - cursor
            },
{
    if cursor > end {
        Seq::empty()
    } else {
        let p = chosen_prefix(cursor, end);
        proof {
            lemma_pow2_pos((32 - p) as nat);
            assert(block_size(p) > 0);
        }
        seq![CidrBlock { base: cursor as u32, prefix: p as u32 }] + cidr_blocks(
            cursor + block_size(p),
            end,
        )
    }
}

proof fn lemma_alignment_exists(addr: int, k: int)
    requires
        0 <= k <= 32,
        aligned(addr, k),
    ensures
        is_alignment_prefix(addr, alignment_prefix(addr)),
    decreases k,
{
    if exists|q: int| 0 <= q < k && aligned(addr, q) {
        let q = choose|q: int| 0 <= q < k && aligned(addr, q);
        lemma_alignment_exists(addr, q);
    } else {
        assert(is_alignment_prefix(addr, k));
    }
}

proof fn lemma_span_exists(remaining: int, k: int)
    requires
        0 <= k <= 32,
        block_size(k) <= remaining,
    ensures
        is_span_prefix(remaining, span_prefix(remaining)),
    decreases k,
{
    if exists|q: int| 0 <= q < k && block_size(q) <= remaining {
        let q = choose|q: int| 0 <= q < k && block_size(q) <= remaining;
        lemma_span_exists(remaining, q);
    } else {
        assert(is_span_prefix(remaining, k));
    }
}

/// The block chosen at `cursor` starts there, stays in the range and
/// cannot be made larger.
pub proof fn lemma_chosen_block(cursor: int, end: int)
    requires
        0 <= cursor <= end <= 0xFFFF_FFFF,
    ensures
        0 <= chosen_prefix(cursor, end) <= 32,
        aligned(cursor, chosen_prefix(cursor, end)),
        cursor + block_size(chosen_prefix(cursor, end)) - 1 <= end,
        is_maximal(
            CidrBlock { base: cursor as u32, prefix: chosen_prefix(cursor, end) as u32 },
            end,
        ),
{
    lemma2_to64();
    lemma_alignment_exists(cursor, 32);
    lemma_span_exists(end - cursor + 1, 32);
    let a = alignment_prefix(cursor);
    let s = span_prefix(end - cursor + 1);
    let p = chosen_prefix(cursor, end);
    lemma_aligned_longer(cursor, a, p);
    if p > s {
        lemma_block_size_decreases(p, s);
    }
    let b = CidrBlock { base: cursor as u32, prefix: p as u32 };
    assert forall|q: int|
        0 <= q < b.prefix implies !aligned(b.base as int, q) || b.base + block_size(q) - 1
        > end by {
        if q < a {
        } else {
            assert(q < s);
        }
    }
}

/// The blocks that cover `[c, end]` start at `c`, end at `end`, follow one
/// another without gap or overlap, are each aligned and maximal, and hold
/// exactly the addresses of the range.
pub proof fn lemma_cidr_blocks(c: int, end: int)
    requires
        0 <= c,
        end <= 0xFFFF_FFFF,
    ensures
        c > end ==> cidr_blocks(c, end).len() == 0,
        c <= end ==> cidr_blocks(c, end).len() > 0 && cidr_blocks(c, end)[0].base == c
            && block_last(cidr_blocks(c, end).last()) == end,
        forall|i: int|
            0 <= i < cidr_blocks(c, end).len() ==> {
                let b = #[trigger] cidr_blocks(c, end)[i];
                &&& c <= b.base
                &&& b.prefix <= 32
                &&& b.prefix == chosen_prefix(b.base as int, end)
                &&& aligned(b.base as int, b.prefix as int)
                &&& block_last(b) <= end
                &&& is_maximal(b, end)
            },
        forall|i: int|
            0 <= i < cidr_blocks(c, end).len() - 1 ==> block_last(
                #[trigger] cidr_blocks(c, end)[i],
            ) + 1 == cidr_blocks(c, end)[i + 1].base,
        forall|a: int| c <= a <= end <==> covered(cidr_blocks(c, end), a),
    decreases end + 1 - c,
{
    let bs = cidr_blocks(c, end);
    if c <= end {
        lemma_chosen_block(c, end);
        let p = chosen_prefix(c, end);
        let s = block_size(p);
        let b = CidrBlock { base: c as u32, prefix: p as u32 };
        let rest = cidr_blocks(c + s, end);
        lemma_cidr_blocks(c + s, end);
        assert(bs == seq![b] + rest);
        assert(bs[0] == b);
        assert forall|i: int| 1 <= i < bs.len() implies bs[i] == rest[i - 1] by {}
        assert forall|i: int|
            0 <= i < bs.len() - 1 implies block_last(#[trigger] bs[i]) + 1 == bs[i + 1].base by {
            if i > 0 {
                assert(bs[i] == rest[i - 1]);
                assert(bs[i + 1] == rest[i]);
            }
        }
        assert forall|a: int| c <= a <= end <==> covered(bs, a) by {
            if c <= a <= end {
                if a <= block_last(b) {
                    assert(in_block(bs[0], a));
                } else {
                    assert(covered(rest, a));
                    let j = choose|j: int| 0 <= j < rest.len() && #[trigger] in_block(rest[j], a);
                    assert(in_block(bs[j + 1], a));
                }
            }
            if covered(bs, a) {
                let i = choose|i: int| 0 <= i < bs.len() && #[trigger] in_block(bs[i], a);
                if i > 0 {
                    assert(in_block(rest[i - 1], a));
                    assert(covered(rest, a));
                }
            }
        }
    }
}

/// Splits the inclusive address range `[start, end]` into CIDR blocks that
/// cover it exactly, in ascending order, each as large as its base address
/// and the rest of the range allow. An empty range (`start > end`) gives no
/// blocks.
pub fn decompose(start: u32, end: u32) -> (r: Vec<CidrBlock>)
    ensures
        r@ == cidr_blocks(start as int, end as int),
        start > end ==> r@.len() == 0,
        start <= end ==> r@.len() > 0 && r@[0].base == start && block_last(r@.last()) == end,
        forall|i: int|
            0 <= i < r@.len() ==> #[trigger] r@[i].prefix <= 32 && aligned(
                r@[i].base as int,
                r@[i].prefix as int,
            ),
        forall|i: int|
            0 <= i < r@.len() - 1 ==> block_last(#[trigger] r@[i]) + 1 == r@[i + 1].base
                && r@[i].base < r@[i + 1].base,
        forall|i: int| 0 <= i < r@.len() ==> is_maximal(#[trigger] r@[i], end as int),
        forall|a: int| start <= a <= end <==> covered(r@, a),
{
    let mut blocks: Vec<CidrBlock> = Vec::new();
    let mut cursor: u32 = start;
    while end >= cursor
        invariant_except_break
            start <= cursor,
            start <= end ==> cursor <= end + 1,
            blocks@ + cidr_blocks(cursor as int, end as int) == cidr_blocks(
                start as int,
                end as int,
            ),
        ensures
            blocks@ == cidr_blocks(start as int, end as int),
        decreases end + 1 - cursor,
    {
        let align = max_aligned_prefix(cursor);
        let remaining: u64 = end as u64 - cursor as u64 + 1;
        let cap = min_prefix_for_span(remaining);
        let prefix: u32 = if align < cap {
            cap
        } else {
            align
        };
        proof {
            lemma_chosen_block(cursor as int, end as int);
            lemma_block_size_bounds(prefix as int);
        }
        let block = CidrBlock { base: cursor, prefix };
        let ghost rest = cidr_blocks(cursor + block_size(prefix as int), end as int);
        assert(cidr_blocks(cursor as int, end as int) == seq![block] + rest);
        assert(blocks@.push(block) + rest == blocks@ + (seq![block] + rest));
        blocks.push(block);
        let size = integer_pow_2(32 - prefix);
        assert(size == block_size(prefix as int));
        if cursor as u64 + size >= 0xFFFF_FFFF {
            proof {
                lemma_top_guard(cursor as int, end as int);
                assert(rest == Seq::<CidrBlock>::empty());
                assert(blocks@ == blocks@ + rest);
            }
            break;
        }
        cursor = cursor + size as u32;
    }
    proof {
        lemma_cidr_blocks(start as int, end as int);
        let bs = blocks@;
        assert forall|i: int| 0 <= i < bs.len() - 1 implies block_last(#[trigger] bs[i]) + 1
            == bs[i + 1].base && bs[i].base < bs[i + 1].base by {
            lemma_block_size_bounds(bs[i].prefix as int);
        }
    }
    blocks
}

/// A block that reaches the top of the address space, or the address just
/// below it, is the last block of its range.
proof fn lemma_top_guard(cursor: int, end: int)
    requires
        0 <= cursor <= end <= 0xFFFF_FFFF,
        cursor + block_size(chosen_prefix(cursor, end)) >= 0xFFFF_FFFF,
    ensures
        cursor + block_size(chosen_prefix(cursor, end)) > end,
{
    lemma_chosen_block(cursor, end);
    let p = chosen_prefix(cursor, end);
    let s = block_size(p);
    if cursor + s == 0xFFFF_FFFF {
        lemma2_to64();
        assert(block_size(31) == 2);
        assert(block_size(32) == 1);
        if p < 32 {
            lemma_aligned_longer(cursor, p, 31);
            lemma_block_size_bounds(p);
            assert(cursor % 2 == 0);
            assert(s % 2 == 0);
            assert((cursor + s) % 2 == 0);
            assert(false);
        } else {
            lemma_alignment_exists(cursor, 32);
            lemma_span_exists(end - cursor + 1, 32);
            assert(aligned(cursor, 31));
            assert(alignment_prefix(cursor) <= 31);
            assert(span_prefix(end - cursor + 1) == 32);
            assert(block_size(31) > end - cursor + 1);
        }
    }
}

} // verus!
