use vstd::prelude::*;
use vstd::arithmetic::power2::{pow2, lemma2_to64};
use vstd::string::StringExecFns;
use crate::range::{CidrBlock, cidr_blocks, decompose};

verus! {

/// The character of decimal digit `d`.
pub open spec fn digit_char(d: int) -> char {
    seq!['0', '1', '2', '3', '4', '5', '6', '7', '8', '9'][d]
}

/// The decimal digits of `n`, most significant first, without leading zeros.
pub open spec fn decimal(n: nat) -> Seq<char>
    decreases n,
{
    if n < 10 {
        seq![digit_char(n as int)]
    } else {
        decimal(n / 10).push(digit_char((n % 10) as int))
    }
}

/// Octet `k` of an address, counted from the least significant (0) to the
/// most significant (3).
pub open spec fn octet(addr: u32, k: nat) -> nat {
    (addr as nat / pow2(8 * k)) % 256
}

/// Dotted-decimal text of an address, most significant octet first.
pub open spec fn dotted(addr: u32) -> Seq<char> {
    decimal(octet(addr, 3)) + seq!['.'] + decimal(octet(addr, 2)) + seq!['.'] + decimal(
        octet(addr, 1),
    ) + seq!['.'] + decimal(octet(addr, 0))
}

/// CIDR text of a block: its base address, a slash and its prefix length.
pub open spec fn block_text(b: CidrBlock) -> Seq<char> {
    dotted(b.base) + seq!['/'] + decimal(b.prefix as nat)
}

fn digit_str(d: u32) -> (r: &'static str)
    requires
        d < 10,
    ensures
        r@ == seq![digit_char(d as int)],
{
    proof {
        reveal_strlit("0");
        reveal_strlit("1");
        reveal_strlit("2");
        reveal_strlit("3");
        reveal_strlit("4");
        reveal_strlit("5");
        reveal_strlit("6");
        reveal_strlit("7");
        reveal_strlit("8");
        reveal_strlit("9");
    }
    match d {
        0 => "0",
        1 => "1",
        2 => "2",
        3 => "3",
        4 => "4",
        5 => "5",
        6 => "6",
        7 => "7",
        8 => "8",
        _ => "9",
    }
}

/// Appends the decimal digits of `n` (an octet or a prefix length) to `s`.
fn push_decimal(s: &mut String, n: u32)
    requires
        n < 256,
    ensures
        final(s)@ == old(s)@ + decimal(n as nat),
{
    if n >= 100 {
        s.append(digit_str(n / 100));
        s.append(digit_str((n / 10) % 10));
        s.append(digit_str(n % 10));
        assert(decimal(n as nat) == decimal((n / 100) as nat) + seq![digit_char(((n / 10) % 10) as int)]
            + seq![digit_char((n % 10) as int)]);
    } else if n >= 10 {
        s.append(digit_str(n / 10));
        s.append(digit_str(n % 10));
        assert(decimal(n as nat) == decimal((n / 10) as nat) + seq![digit_char((n % 10) as int)]);
    } else {
        s.append(digit_str(n));
    }
}

/// Dotted-decimal text of an IPv4 address, such as `10.0.0.255`.
pub fn int_to_ipv4(ip: u32) -> (r: String)
    ensures
        r@ == dotted(ip),
{
    let mask_0_8: u32 = 0x0000_00FF;
    let mask_9_16: u32 = 0x0000_FF00;
    let mask_17_24: u32 = 0x00FF_0000;
    let mask_25_32: u32 = 0xFF00_0000;
    let first: u32 = (ip & mask_25_32) >> 24;
    let second: u32 = (ip & mask_17_24) >> 16;
    let third: u32 = (ip & mask_9_16) >> 8;
    let fourth: u32 = ip & mask_0_8;
    proof {
        lemma_octets(ip);
    }
    let mut ipv4 = String::new();
    push_decimal(&mut ipv4, first);
    proof {
        reveal_strlit(".");
    }
    ipv4.append(".");
    push_decimal(&mut ipv4, second);
    ipv4.append(".");
    push_decimal(&mut ipv4, third);
    ipv4.append(".");
    push_decimal(&mut ipv4, fourth);
    ipv4
}

proof fn lemma_octets(ip: u32)
    ensures
        (ip & 0xFF00_0000u32) >> 24u32 == octet(ip, 3),
        (ip & 0x00FF_0000u32) >> 16u32 == octet(ip, 2),
        (ip & 0x0000_FF00u32) >> 8u32 == octet(ip, 1),
        ip & 0x0000_00FFu32 == octet(ip, 0),
{
    lemma2_to64();
    assert((ip & 0xFF00_0000u32) >> 24u32 == (ip / 16777216) % 256) by (bit_vector);
    assert((ip & 0x00FF_0000u32) >> 16u32 == (ip / 65536) % 256) by (bit_vector);
    assert((ip & 0x0000_FF00u32) >> 8u32 == (ip / 256) % 256) by (bit_vector);
    assert(ip & 0x0000_00FFu32 == ip % 256) by (bit_vector);
    assert(pow2(8 * 0) == 1);
    assert(ip as nat / 1 == ip as nat);
}

/// CIDR text of a block, such as `10.0.0.0/8`.
pub fn format_block(block: CidrBlock) -> (r: String)
    requires
        block.prefix <= 32,
    ensures
        r@ == block_text(block),
{
    let mut text = int_to_ipv4(block.base);
    proof {
        reveal_strlit("/");
    }
    text.append("/");
    push_decimal(&mut text, block.prefix);
    text
}

/// The CIDR blocks that cover `[start, end]` exactly, as text, in ascending
/// order; none when `start > end`.
pub fn ip_range_to_cidr(start: u32, end: u32) -> (r: Vec<String>)
    ensures
        r@.len() == cidr_blocks(start as int, end as int).len(),
        forall|i: int|
            0 <= i < r@.len() ==> #[trigger] r@[i]@ == block_text(
                cidr_blocks(start as int, end as int)[i],
            ),
{
    let blocks = decompose(start, end);
    let mut ip_blocks: Vec<String> = Vec::new();
    let mut i: usize = 0;
    while i < blocks.len()
        invariant
            i <= blocks@.len(),
            blocks@ == cidr_blocks(start as int, end as int),
            forall|j: int| 0 <= j < blocks@.len() ==> #[trigger] blocks@[j].prefix <= 32,
            ip_blocks@.len() == i,
            forall|j: int| 0 <= j < i ==> #[trigger] ip_blocks@[j]@ == block_text(blocks@[j]),
        decreases blocks.len() - i,
    {
        ip_blocks.push(format_block(blocks[i]));
        i = i + 1;
    }
    ip_blocks
}

} // verus!
