use linhash::codec::{calc_max_kv_per_page, decode_page, encode_page};
use linhash::device::Device;
use linhash::frame::{build_frame, parse_frame, PAGE_SIZE};
use linhash::page::Page;

#[test]
fn test_write_read_page() {
    let dir = tempfile::tempdir().unwrap();
    let max_kv = calc_max_kv_per_page(32, 16);
    let mut device = Device::open(dir.path().to_str().unwrap(), "main", 32, 16, max_kv).unwrap();

    let mut page = Page::new();
    page.insert(vec![1; 32], vec![1; 16]);
    page.insert(vec![2; 32], vec![2; 16]);

    device.write_page(3, &page).unwrap();

    let read_page = device.read_page(3).unwrap().unwrap();
    assert_eq!(read_page.get(&vec![1; 32][..]), Some(vec![1; 16]));
    assert_eq!(read_page.get(&vec![2; 32][..]), Some(vec![2; 16]));
}

#[test]
fn test_unwritten_page_is_absent() {
    let dir = tempfile::tempdir().unwrap();
    let max_kv = calc_max_kv_per_page(8, 8);
    let device = Device::open(dir.path().to_str().unwrap(), "main", 8, 8, max_kv).unwrap();
    assert!(device.read_page(17).unwrap().is_none());
}

#[test]
fn test_codec_roundtrip() {
    let mut page = Page::new();
    page.overflow_id = Some(12345);
    page.locallevel = Some(3);
    page.insert(vec![9; 8], vec![7; 8]);
    page.insert(vec![8; 8], vec![6; 8]);

    let payload = encode_page(&page);
    let max_kv = calc_max_kv_per_page(8, 8);
    let decoded = decode_page(&payload, 8, 8, max_kv).unwrap();
    assert_eq!(decoded.overflow_id, Some(12345));
    assert_eq!(decoded.locallevel, Some(3));
    assert_eq!(decoded.get(&vec![9; 8][..]), Some(vec![7; 8]));
    assert_eq!(decoded.get(&vec![8; 8][..]), Some(vec![6; 8]));
    assert_eq!(decoded.kv_pairs.len(), 2);
}

#[test]
fn test_decoder_rejects_wrong_sizes() {
    let mut page = Page::new();
    page.insert(vec![1; 8], vec![2; 8]);
    let payload = encode_page(&page);
    let max_kv = calc_max_kv_per_page(16, 16);
    // The payload holds 8-byte keys; a device configured for 16-byte keys
    // treats the page as absent.
    assert!(decode_page(&payload, 16, 16, max_kv).is_none());
}

#[test]
fn test_frame_detects_torn_write() {
    let mut page = Page::new();
    page.insert(vec![5; 8], vec![6; 8]);
    let payload = encode_page(&page);
    let frame = build_frame(&payload);
    assert_eq!(frame.len(), PAGE_SIZE);
    assert!(parse_frame(&frame).is_some());

    // Flip one payload byte: the stored checksum no longer matches.
    let mut torn = frame.clone();
    torn[40] ^= 0xff;
    assert!(parse_frame(&torn).is_none());

    // Break the magic: the frame reads as never written.
    let mut blank = frame.clone();
    blank[0] = 0;
    assert!(parse_frame(&blank).is_none());

    // An all-zero block is no frame at all.
    let zeroes = vec![0u8; PAGE_SIZE];
    assert!(parse_frame(&zeroes).is_none());
}

#[test]
fn test_max_kv_per_page_formula() {
    // 15 bytes of page header, 24 bytes per 8/8 pair, 4064 bytes of payload
    // budget: 168 pairs fit, 169 do not.
    assert_eq!(calc_max_kv_per_page(8, 8), 168);
    // One enormous pair still fits by construction.
    assert_eq!(calc_max_kv_per_page(2000, 2000), 1);
}

#[test]
fn test_page_insert_replaces() {
    let mut page = Page::new();
    assert_eq!(page.insert(vec![1; 8], vec![1; 8]), None);
    let old = page.insert(vec![1; 8], vec![2; 8]);
    assert_eq!(old, Some(vec![1; 8]));
    assert_eq!(page.get(&vec![1; 8][..]), Some(vec![2; 8]));
    assert_eq!(page.kv_pairs.len(), 1);
    assert!(page.contains(&vec![1; 8][..]));
    let removed = page.remove(&vec![1; 8][..]);
    assert_eq!(removed, Some(vec![2; 8]));
    assert_eq!(page.get(&vec![1; 8][..]), None);
}

#[test]
fn test_open_rejects_untagged_primary_pages() {
    // Two valid frames whose pages carry no local level: the primary scan
    // cannot disambiguate a torn split and reports a corrupt table.
    let dir = tempfile::tempdir().unwrap();
    let max_kv = calc_max_kv_per_page(8, 8);
    let mut device = Device::open(dir.path().to_str().unwrap(), "main", 8, 8, max_kv).unwrap();
    device.write_page(0, &Page::new()).unwrap();
    device.write_page(1, &Page::new()).unwrap();
    drop(device);

    let r = linhash::LinHash::open(dir.path().to_str().unwrap(), 8, 8);
    assert!(matches!(r, Err(linhash::error::Error::Codec)));
}
