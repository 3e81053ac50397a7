use linhash::root::{calc_base_level, calc_old_page_id, Root};

fn root(next_split_main_page_id: u64, base_level: u8) -> Root {
    Root { next_split_main_page_id, base_level }
}

#[test]
fn test_calc_base_level() {
    assert_eq!(calc_base_level(2), root(0, 1));
    assert_eq!(calc_base_level(3), root(1, 1));
    assert_eq!(calc_base_level(4), root(0, 2));
    assert_eq!(calc_base_level(5), root(1, 2));
    assert_eq!(calc_base_level(6), root(2, 2));
    assert_eq!(calc_base_level(7), root(3, 2));
    assert_eq!(calc_base_level(8), root(0, 3));
}

#[test]
fn restore_test_calc_base_level() {
    // The derived directory as its two components: split pointer first,
    // base level second.
    let tbl = [
        (2u64, (0u64, 1u8)),
        (3, (1, 1)),
        (4, (0, 2)),
        (5, (1, 2)),
        (6, (2, 2)),
        (7, (3, 2)),
        (8, (0, 3)),
    ];
    for (n, (next_split_id, level)) in tbl {
        let r = calc_base_level(n);
        assert_eq!((r.next_split_main_page_id, r.base_level), (next_split_id, level));
    }
}

#[test]
fn test_calc_old_page_id() {
    let tbl = [
        (0b10u64, 2u8, 0b0u64),
        (0b11, 2, 0b1),
        (0b100, 3, 0b0),
        (0b101, 3, 0b01),
        (0b110, 3, 0b10),
        (0b111, 3, 0b11),
    ];

    for (page_id, locallevel, expected_old_page_id) in tbl {
        assert_eq!(calc_old_page_id(page_id, locallevel), expected_old_page_id);
    }
}

#[test]
fn test_page_chain_id_routing() {
    // Base level 2, split pointer 1: bucket 0 has already been split this
    // round and is addressed with three bits; buckets 1..4 with two.
    let r = root(1, 2);
    let cid = r.calc_page_chain_id(0b1000);
    assert_eq!(cid.main_page_id, 0b000);
    assert_eq!(cid.locallevel, 3);
    let cid = r.calc_page_chain_id(0b1100);
    assert_eq!(cid.main_page_id, 0b100);
    assert_eq!(cid.locallevel, 3);
    let cid = r.calc_page_chain_id(0b1101);
    assert_eq!(cid.main_page_id, 0b01);
    assert_eq!(cid.locallevel, 2);
    let cid = r.calc_page_chain_id(0b111);
    assert_eq!(cid.main_page_id, 0b11);
    assert_eq!(cid.locallevel, 2);
}
