use ip2cidr::{
    decompose, format_block, int_to_ipv4, integer_log_2, integer_pow_2, ip_range_to_cidr,
    max_aligned_prefix, min_prefix_for_span, CidrBlock,
};

fn blk(base: u32, prefix: u32) -> CidrBlock {
    CidrBlock { base, prefix }
}

fn size(prefix: u32) -> u64 {
    1u64 << (32 - prefix)
}

/// Checks coverage, contiguity, alignment and maximality of a decomposition.
fn check_laws(start: u32, end: u32) {
    let blocks = decompose(start, end);
    if start > end {
        assert!(blocks.is_empty());
        return;
    }
    assert!(!blocks.is_empty());
    assert_eq!(blocks[0].base, start);
    let mut next = start as u64;
    for b in &blocks {
        assert!(b.prefix <= 32);
        assert_eq!(b.base as u64, next);
        assert_eq!(b.base as u64 % size(b.prefix), 0);
        let last = b.base as u64 + size(b.prefix) - 1;
        assert!(last <= end as u64);
        if b.prefix > 0 {
            let bigger = size(b.prefix - 1);
            assert!(b.base as u64 % bigger != 0 || b.base as u64 + bigger - 1 > end as u64);
        }
        next = last + 1;
    }
    assert_eq!(next, end as u64 + 1);
}

#[test]
fn single_zero_address() {
    assert_eq!(decompose(0, 0), vec![blk(0, 32)]);
    assert_eq!(ip_range_to_cidr(0, 0), vec!["0.0.0.0/32".to_string()]);
}

#[test]
fn four_aligned_addresses() {
    assert_eq!(decompose(0, 3), vec![blk(0, 30)]);
    assert_eq!(ip_range_to_cidr(0, 3), vec!["0.0.0.0/30".to_string()]);
}

#[test]
fn unaligned_start() {
    assert_eq!(decompose(1, 3), vec![blk(1, 32), blk(2, 31)]);
    assert_eq!(
        ip_range_to_cidr(1, 3),
        vec!["0.0.0.1/32".to_string(), "0.0.0.2/31".to_string()]
    );
}

#[test]
fn whole_slash_24() {
    assert_eq!(decompose(0, 255), vec![blk(0, 24)]);
    assert_eq!(ip_range_to_cidr(0, 255), vec!["0.0.0.0/24".to_string()]);
}

#[test]
fn ten_to_twenty() {
    assert_eq!(
        decompose(10, 20),
        vec![blk(10, 31), blk(12, 30), blk(16, 30), blk(20, 32)]
    );
    assert_eq!(
        ip_range_to_cidr(10, 20),
        vec![
            "0.0.0.10/31".to_string(),
            "0.0.0.12/30".to_string(),
            "0.0.0.16/30".to_string(),
            "0.0.0.20/32".to_string(),
        ]
    );
    check_laws(10, 20);
}

#[test]
fn max_address_alone() {
    assert_eq!(decompose(u32::MAX, u32::MAX), vec![blk(u32::MAX, 32)]);
    assert_eq!(
        ip_range_to_cidr(u32::MAX, u32::MAX),
        vec!["255.255.255.255/32".to_string()]
    );
}

#[test]
fn whole_address_space() {
    assert_eq!(decompose(0, u32::MAX), vec![blk(0, 0)]);
    assert_eq!(ip_range_to_cidr(0, u32::MAX), vec!["0.0.0.0/0".to_string()]);
}

#[test]
fn range_ending_just_below_top() {
    assert_eq!(
        decompose(0xFFFF_FFFC, 0xFFFF_FFFE),
        vec![blk(0xFFFF_FFFC, 31), blk(0xFFFF_FFFE, 32)]
    );
    check_laws(0xFFFF_FFFC, 0xFFFF_FFFE);
}

#[test]
fn range_reaching_top() {
    assert_eq!(
        decompose(0xFFFF_FFFD, 0xFFFF_FFFF),
        vec![blk(0xFFFF_FFFD, 32), blk(0xFFFF_FFFE, 31)]
    );
    assert_eq!(decompose(0x8000_0000, u32::MAX), vec![blk(0x8000_0000, 1)]);
    check_laws(1, u32::MAX);
}

#[test]
fn empty_when_start_above_end() {
    assert!(decompose(5, 4).is_empty());
    assert!(ip_range_to_cidr(u32::MAX, 0).is_empty());
}

#[test]
fn laws_on_assorted_ranges() {
    let ranges: [(u32, u32); 8] = [
        (0, 0),
        (3, 17),
        (1, 254),
        (167_772_160, 184_549_375),
        (123_456, 7_654_321),
        (0x0102_0304, 0x0A0B_0C0D),
        (u32::MAX - 1000, u32::MAX),
        (7, 3),
    ];
    for (s, e) in ranges {
        check_laws(s, e);
    }
}

#[test]
fn private_network_is_one_block() {
    assert_eq!(ip_range_to_cidr(167_772_160, 184_549_375), vec!["10.0.0.0/8".to_string()]);
}

#[test]
fn ipv4_text() {
    assert_eq!(int_to_ipv4(0), "0.0.0.0");
    assert_eq!(int_to_ipv4(0x0A00_00FF), "10.0.0.255");
    assert_eq!(int_to_ipv4(0xC0A8_0101), "192.168.1.1");
    assert_eq!(int_to_ipv4(0x0102_0304), "1.2.3.4");
    assert_eq!(int_to_ipv4(u32::MAX), "255.255.255.255");
}

#[test]
fn block_text() {
    assert_eq!(format_block(blk(0xC0A8_0000, 16)), "192.168.0.0/16");
    assert_eq!(format_block(blk(0, 0)), "0.0.0.0/0");
    assert_eq!(format_block(blk(0x6400_0001, 32)), "100.0.0.1/32");
}

#[test]
fn powers_of_two() {
    assert_eq!(integer_pow_2(0), 1);
    assert_eq!(integer_pow_2(1), 2);
    assert_eq!(integer_pow_2(10), 1024);
    assert_eq!(integer_pow_2(31), 0x8000_0000);
    assert_eq!(integer_pow_2(32), 0x1_0000_0000);
}

#[test]
fn floor_logarithm() {
    assert_eq!(integer_log_2(1), 0);
    assert_eq!(integer_log_2(2), 1);
    assert_eq!(integer_log_2(3), 1);
    assert_eq!(integer_log_2(11), 3);
    assert_eq!(integer_log_2(1024), 10);
    assert_eq!(integer_log_2(1025), 10);
    assert_eq!(integer_log_2(0xFFFF_FFFF), 31);
    assert_eq!(integer_log_2(0x1_0000_0000), 32);
}

#[test]
fn span_cap() {
    assert_eq!(min_prefix_for_span(1), 32);
    assert_eq!(min_prefix_for_span(3), 31);
    assert_eq!(min_prefix_for_span(4), 30);
    assert_eq!(min_prefix_for_span(11), 29);
    assert_eq!(min_prefix_for_span(0x1_0000_0000), 0);
}

#[test]
fn alignment_finder() {
    assert_eq!(max_aligned_prefix(0), 0);
    assert_eq!(max_aligned_prefix(1), 32);
    assert_eq!(max_aligned_prefix(12), 30);
    assert_eq!(max_aligned_prefix(0x8000_0000), 1);
    assert_eq!(max_aligned_prefix(0x0A00_0000), 7);
    assert_eq!(max_aligned_prefix(u32::MAX), 32);
}
