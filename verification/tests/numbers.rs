//! Numbers as bit patterns, packed values, positions, lists and bytes.

use swamp::halves::widen;
use swamp::ieee::{ge32, ge64, lt32, lt64};
use swamp::lru::LruList;
use swamp::q4::{block_len, blocks_per_head, load_term, store_block, Q4Block};
use swamp::text::{contains, matches_at, same_bytes};
use swamp::zones::{
    local_page_id, page_id, page_start_for, resolve_flat, slot_in_page, zone_block_size,
    zone_index, zone_offset, zone_pages, zone_start,
};

#[test]
fn every_half_widens() {
    for h in 0..=u16::MAX {
        assert_eq!(widen(h), half::f16::from_bits(h).to_f32().to_bits(), "{:#06x}", h);
    }
    assert_eq!(widen(0x3c00), 0x3f80_0000);
    assert_eq!(widen(0x0001), 0x3380_0000);
    assert_eq!(widen(0xfc00), 0xff80_0000);
    assert_eq!(widen(0x7e00), 0x7fc0_0000);
}

#[test]
fn bit_patterns_compare_like_numbers() {
    let values = [
        f64::NEG_INFINITY,
        -1.5,
        -0.0,
        0.0,
        f64::MIN_POSITIVE / 2.0,
        1.0,
        1.5,
        f64::INFINITY,
        f64::NAN,
    ];
    for a in values {
        for b in values {
            assert_eq!(lt64(a.to_bits(), b.to_bits()), a < b);
            assert_eq!(ge64(a.to_bits(), b.to_bits()), a >= b);
            let (x, y) = (a as f32, b as f32);
            assert_eq!(lt32(x.to_bits(), y.to_bits()), x < y);
            assert_eq!(ge32(x.to_bits(), y.to_bits()), x >= y);
        }
    }
}

#[test]
fn packed_blocks_read_back() {
    let mut codes = [0u8; 32];
    for i in 0..32 {
        codes[i] = (i % 16) as u8;
    }
    let block = Q4Block { d: 0x1234, dmin: 0xabcd, codes };
    let mut page = vec![0u8; 60];
    store_block(&mut page, 1, &block, 32);
    for i in 0..32 {
        let t = load_term(&page, 1, i);
        assert_eq!((t.d, t.dmin, t.code), (0x1234, 0xabcd, (i % 16) as u8));
    }
    assert!(page[0..20].iter().all(|b| *b == 0) && page[40..].iter().all(|b| *b == 0));
    assert_eq!((blocks_per_head(64), blocks_per_head(65)), (2, 3));
    assert_eq!((block_len(65, 0), block_len(65, 2)), (32, 1));
}

#[test]
fn positions_lie_in_zones() {
    assert_eq!([0, 4095, 4096, 131071, 131072].map(zone_index), [0, 0, 1, 1, 2]);
    assert_eq!([0, 1, 2].map(zone_start), [0, 4096, 131072]);
    assert_eq!([0, 1, 2].map(zone_block_size), [32, 128, 1024]);
    assert_eq!([0, 1, 2].map(zone_offset), [0, 128, 1120]);
    assert_eq!([0, 1, 2].map(|z| zone_pages(z, 131073)), [128, 992, 1]);
    for pos in [0, 31, 32, 4095, 4096, 4223, 131071, 131072, 200_000] {
        let zone = zone_index(pos);
        assert_eq!(resolve_flat(page_id(pos)), (zone, local_page_id(pos)));
        assert_eq!(page_start_for(pos) + slot_in_page(pos), pos);
        assert!(slot_in_page(pos) < zone_block_size(zone));
        assert!(page_id(pos) <= page_id(pos + 1));
    }
}

#[test]
fn least_recent_page_is_last() {
    let mut l = LruList::new();
    assert_eq!(l.tail(), None);
    let (a, b, c) = (l.grow(), l.grow(), l.grow());
    for id in [a, b, c] {
        l.push_front(id);
    }
    assert_eq!((l.head(), l.tail(), l.len()), (Some(c), Some(a), 3));
    assert_eq!(l.newer(a), Some(b));
    l.touch(a);
    assert_eq!((l.head(), l.tail()), (Some(a), Some(b)));
    l.unlink(b);
    assert_eq!(l.tail(), Some(c));
}

#[test]
fn bytes_are_searched() {
    assert!(contains(b"abcabd", b"abd") && !contains(b"abcabd", b"abe"));
    assert!(contains(b"", b"") && !contains(b"", b"a"));
    assert!(matches_at(b"abc", b"bc", 1) && !matches_at(b"abc", b"bc", 2));
    assert!(same_bytes(b"ab", b"ab") && !same_bytes(b"ab", b"abc"));
}
