use master_server::image::{
    collect_entries, compile_image, encode_image, total_key_bytes, Entry, Tier,
};
use master_server::le::{get_le32, put_le};
use master_server::store::{merged_value, read_count};

fn entry(key: &[u8], freq: u32) -> Entry {
    Entry { key: key.to_vec(), freq }
}

fn le32(bytes: &[u8], at: usize) -> u32 {
    u32::from_le_bytes([bytes[at], bytes[at + 1], bytes[at + 2], bytes[at + 3]])
}

fn le64(bytes: &[u8], at: usize) -> u64 {
    let mut arr = [0u8; 8];
    arr.copy_from_slice(&bytes[at..at + 8]);
    u64::from_le_bytes(arr)
}

#[test]
fn little_endian_agrees_with_std() {
    for n in [0u64, 1, 255, 256, 65_535, 65_536, 4_294_967_295, u64::MAX] {
        let mut one = Vec::new();
        put_le(&mut one, n, 1);
        assert_eq!(one, (n as u8).to_le_bytes().to_vec());
        let mut two = Vec::new();
        put_le(&mut two, n, 2);
        assert_eq!(two, (n as u16).to_le_bytes().to_vec());
        let mut four = Vec::new();
        put_le(&mut four, n, 4);
        assert_eq!(four, (n as u32).to_le_bytes().to_vec());
        assert_eq!(get_le32(&four), n as u32);
        let mut eight = Vec::new();
        put_le(&mut eight, n, 8);
        assert_eq!(eight, n.to_le_bytes().to_vec());
        let mut sixteen = Vec::new();
        put_le(&mut sixteen, n, 16);
        assert_eq!(sixteen, (n as u128).to_le_bytes().to_vec());
    }
}

#[test]
fn nothing_to_compile() {
    assert_eq!(compile_image(Vec::new()), None);
    assert_eq!(compile_image(collect_entries(vec![(b"k".to_vec(), vec![1, 2, 3])])), None);
}

#[test]
fn single_entry_image() {
    let bytes = encode_image(&vec![entry(b"ab", 1000)]);
    let expected: Vec<u8> = vec![
        1, 0, 0, 0, 1, 0, 0, 0, 0, 0, 0, 0, 0, 0, 0, 0, 0, 0, 0, 0, 0, 0, 0, 0, // header
        0, 2, b'a', b'b', 0xe8, 0x03, 0, 0, // record
        2, 0, 0, 0, 0, 0, 0, 0, 32, 0, 0, 0, 0, 0, 0, 0, // footer
    ];
    assert_eq!(bytes, expected);
}

#[test]
fn tiers_and_widths() {
    let compiled = compile_image(vec![
        entry(b"e", 1),
        entry(b"d", 2),
        entry(b"c", 10),
        entry(b"b", 100),
        entry(b"a", 1000),
    ])
    .unwrap();
    assert_eq!(compiled.patterns, 5);
    let b = &compiled.bytes;
    assert_eq!(le32(b, 0), 5);
    for tier in 0..5 {
        assert_eq!(le32(b, 4 + 4 * tier), 1);
    }
    // Each record: number, key length, key, frequency.
    let mut at = 24;
    for (width, key, freq) in
        [(1usize, b'a', 1000u32), (2, b'b', 100), (4, b'c', 10), (8, b'd', 2), (16, b'e', 1)]
    {
        assert!(b[at..at + width].iter().all(|x| *x == 0));
        assert_eq!(b[at + width], 1);
        assert_eq!(b[at + width + 1], key);
        assert_eq!(le32(b, at + width + 2), freq);
        at += width + 6;
    }
    assert_eq!(le64(b, at), 5);
    assert_eq!(le64(b, at + 8), at as u64);
    assert_eq!(b.len(), at + 16);
}

#[test]
fn tier_of_each_bound() {
    let tiers = [Tier::I8, Tier::I16, Tier::I32, Tier::I64, Tier::I128];
    for (freq, tier) in [
        (u32::MAX, Tier::I8),
        (1000, Tier::I8),
        (999, Tier::I16),
        (100, Tier::I16),
        (99, Tier::I32),
        (10, Tier::I32),
        (9, Tier::I64),
        (2, Tier::I64),
        (1, Tier::I128),
    ] {
        for t in tiers {
            assert_eq!(t.admits(freq), t == tier);
        }
    }
    for t in tiers {
        assert!(!t.admits(0));
    }
}

#[test]
fn zero_frequency_has_no_tier() {
    let rows = vec![(b"a".to_vec(), vec![0, 0, 0, 0]), (b"b".to_vec(), vec![1, 0, 0, 0])];
    let compiled = compile_image(collect_entries(rows)).unwrap();
    assert_eq!(compiled.patterns, 2);
    let b = &compiled.bytes;
    assert_eq!(le32(b, 0), 2);
    for tier in 0..4 {
        assert_eq!(le32(b, 4 + 4 * tier), 0);
    }
    assert_eq!(le32(b, 20), 1);
    // One record of 16 + 1 + 1 + 4 bytes only.
    assert_eq!(b.len(), 24 + 22 + 16);
    assert_eq!(b[24 + 17], b'b');
    assert_eq!(le32(b, 24 + 18), 1);
    assert_eq!(le64(b, 24 + 22), 2);
    assert_eq!(le64(b, 24 + 30), 24 + 22);
}

#[test]
fn only_zero_frequencies() {
    let b = compile_image(vec![entry(b"x", 0), entry(b"yz", 0)]).unwrap().bytes;
    let mut expected = vec![2, 0, 0, 0];
    expected.extend_from_slice(&[0; 20]);
    expected.extend_from_slice(&[3, 0, 0, 0, 0, 0, 0, 0, 24, 0, 0, 0, 0, 0, 0, 0]);
    assert_eq!(b, expected);
}

#[test]
fn tier_counts_add_up_to_the_seen() {
    let freqs = [0, 1, 1, 2, 9, 10, 0, 99, 100, 1000, 5000, 1];
    let entries: Vec<Entry> = freqs.iter().map(|f| entry(b"k", *f)).collect();
    let b = compile_image(entries).unwrap().bytes;
    let counts: Vec<u32> = (0..5).map(|t| le32(&b, 4 + 4 * t)).collect();
    assert_eq!(counts, vec![2, 1, 2, 2, 3]);
    assert_eq!(le32(&b, 0), 12);
    let widths = [1usize, 2, 4, 8, 16];
    let records: usize =
        counts.iter().zip(widths).map(|(n, width)| *n as usize * (width + 1 + 1 + 4)).sum();
    assert_eq!(b.len(), 24 + records + 16);
}

#[test]
fn sorts_by_frequency_descending() {
    let compiled = compile_image(vec![
        entry(b"low", 1001),
        entry(b"top", 9000),
        entry(b"mid", 5000),
    ])
    .unwrap();
    let b = &compiled.bytes;
    let record = 1 + 1 + 3 + 4;
    assert_eq!(&b[26..29], b"top");
    assert_eq!(&b[26 + record..29 + record], b"mid");
    assert_eq!(&b[26 + 2 * record..29 + 2 * record], b"low");
    assert_eq!(b[24], 0);
    assert_eq!(b[24 + record], 1);
    assert_eq!(b[24 + 2 * record], 2);
}

#[test]
fn record_numbers_wrap_in_the_first_tier() {
    let entries: Vec<Entry> = (0..300u32).map(|i| entry(&[1], 2000 - i)).collect();
    let b = compile_image(entries).unwrap().bytes;
    let record = 1 + 1 + 1 + 4;
    assert_eq!(le32(&b, 4), 300);
    assert_eq!(b[24 + 255 * record], 255);
    assert_eq!(b[24 + 256 * record], 0);
    assert_eq!(b[24 + 299 * record], 43);
}

#[test]
fn long_keys_are_cut_in_records_but_count_in_the_footer() {
    let key = vec![7u8; 300];
    let b = encode_image(&vec![entry(&key, 50)]);
    assert_eq!(b[24 + 4], 255);
    assert_eq!(b.len(), 24 + 4 + 1 + 255 + 4 + 16);
    assert_eq!(le64(&b, b.len() - 16), 300);
    assert_eq!(le64(&b, b.len() - 8), (b.len() - 16) as u64);
    assert_eq!(total_key_bytes(&vec![entry(&key, 50), entry(b"x", 1)]), Some(301));
}

#[test]
fn ties_leave_header_and_footer() {
    let one = compile_image(vec![entry(b"aa", 5), entry(b"bb", 5), entry(b"c", 7)]).unwrap().bytes;
    let two = compile_image(vec![entry(b"bb", 5), entry(b"c", 7), entry(b"aa", 5)]).unwrap().bytes;
    assert_eq!(one.len(), two.len());
    assert_eq!(one[..24], two[..24]);
    assert_eq!(one[one.len() - 16..], two[two.len() - 16..]);
}

#[test]
fn different_entries_give_different_images() {
    let a = encode_image(&vec![entry(b"a", 3)]);
    let b = encode_image(&vec![entry(b"a", 4)]);
    let c = encode_image(&vec![entry(b"b", 3)]);
    assert_ne!(a, b);
    assert_ne!(a, c);
}

#[test]
fn rows_without_a_count_are_skipped() {
    let rows = vec![
        (b"one".to_vec(), vec![1, 0, 0, 0]),
        (b"bad".to_vec(), vec![9, 9, 9]),
        (b"long".to_vec(), vec![2, 1, 0, 0, 77]),
    ];
    assert_eq!(collect_entries(rows), vec![entry(b"one", 1), entry(b"long", 258)]);
}

#[test]
fn merging_counts() {
    assert_eq!(merged_value(None, 5), vec![5, 0, 0, 0]);
    assert_eq!(merged_value(Some(&[1, 2]), 5), vec![5, 0, 0, 0]);
    assert_eq!(merged_value(Some(&[255, 0, 0, 0, 99]), 1), vec![0, 1, 0, 0]);
    assert_eq!(read_count(None), 0);
    assert_eq!(read_count(Some(&[1, 2, 3])), 0);
    let once = merged_value(Some(&[10, 0, 0, 0]), 7);
    assert_eq!(read_count(Some(&once)), 17);
    let ab = merged_value(Some(&merged_value(None, 3)), 4);
    let ba = merged_value(Some(&merged_value(None, 4)), 3);
    assert_eq!(ab, ba);
    assert_eq!(read_count(Some(&ab)), 7);
}
