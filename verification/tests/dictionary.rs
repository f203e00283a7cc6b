use symcc_fuzzing_helper::symdict::{DictWord, SymDict};

fn raw_word(begin: u32, end: u32, data: &[u8]) -> Vec<u8> {
    let mut v = begin.to_le_bytes().to_vec();
    v.extend_from_slice(&end.to_le_bytes());
    v.extend_from_slice(data);
    v
}

fn word(begin: u32, end: u32, data: &[u8]) -> DictWord {
    DictWord { begin, end, data: data.to_vec() }
}

#[test]
fn test_symdict_dedup() {
    let file1 = "/home/thematch/Desktop/mysymcc/mytest/dict/id:000005,src:000004,time:631,execs:7810,op:havoc,rep:8,+cov"
        .to_string();
    let file2 = "/home/thematch/Desktop/mysymcc/mytest/dict/id:000005,trimmed".to_string();
    // Only the names of the two dictionaries are known here, not the raw
    // dictionary's contents, so an empty one is trimmed.
    assert!(file1.ends_with("+cov") && file2.ends_with("trimmed"));
    let raw: Vec<u8> = Vec::new();
    assert!(SymDict::raw_is_well_formed(&raw));
    let _ = SymDict::trim_symdict(raw);
}

#[test]
fn decode_reads_records() {
    let mut raw = raw_word(3, 5, b"abc");
    raw.extend(raw_word(0, 0, b"z"));
    let mut reader = bytes::Bytes::from(raw);
    assert_eq!(DictWord::decode(&mut reader), Some(word(3, 5, b"abc")));
    assert_eq!(DictWord::decode(&mut reader), Some(word(0, 0, b"z")));
    assert_eq!(DictWord::decode(&mut reader), None);
}

#[test]
fn encode_writes_length_byte() {
    assert_eq!(
        word(1, 2, b"hi").encode(),
        vec![1, 0, 0, 0, 2, 0, 0, 0, 2, b'h', b'i']
    );
    // the length byte keeps only the low byte of the length
    let long = word(0, 299, &[7u8; 300]);
    let enc = long.encode();
    assert_eq!(enc[8], 44);
    assert_eq!(enc.len(), 309);
}

#[test]
fn raw_well_formedness() {
    assert!(SymDict::raw_is_well_formed(&raw_word(1, 2, b"ab")));
    assert!(!SymDict::raw_is_well_formed(&raw_word(1, 3, b"ab")));
    assert!(!SymDict::raw_is_well_formed(&raw_word(3, 1, b"abc")));
    assert!(!SymDict::raw_is_well_formed(&[1, 2, 3]));
}

#[test]
fn sort_orders_by_end_then_begin_and_keeps_first() {
    let mut d = SymDict(vec![
        word(5, 9, b"first"),
        word(1, 3, b"abc"),
        word(0, 3, b"abcd"),
        word(5, 9, b"second"),
        word(2, 2, b"x"),
    ]);
    d.sort();
    assert_eq!(
        d.0,
        vec![
            word(2, 2, b"x"),
            word(0, 3, b"abcd"),
            word(1, 3, b"abc"),
            word(5, 9, b"first"),
        ]
    );
    // sorting again changes nothing
    d.sort();
    assert_eq!(d.0.len(), 4);
    assert_eq!(d.0[3], word(5, 9, b"first"));
}

#[test]
fn precedes_orders_by_end_then_begin() {
    assert!(word(9, 10, b"").precedes(&word(0, 11, b"")));
    assert!(word(1, 10, b"").precedes(&word(2, 10, b"")));
    assert!(!word(2, 10, b"").precedes(&word(2, 10, b"")));
}

#[test]
fn to_bytes_counts_all_but_writes_short_words() {
    let d = SymDict(vec![word(0, 1, b"ab"), word(0, 300, &[1u8; 301])]);
    let out = d.to_bytes();
    assert_eq!(&out[..4], &[2, 0, 0, 0]);
    assert_eq!(&out[4..], &[0, 0, 0, 0, 1, 0, 0, 0, 2, b'a', b'b']);
}

#[test]
fn trim_sorts_dedups_and_encodes() {
    let mut raw = raw_word(4, 5, b"zz");
    raw.extend(raw_word(0, 1, b"ab"));
    raw.extend(raw_word(4, 5, b"yy"));
    assert!(SymDict::raw_is_well_formed(&raw));
    let parsed = SymDict::from_raw(raw.clone());
    assert_eq!(parsed.0.len(), 3);
    let out = SymDict::trim_symdict(raw);
    let mut expected = vec![2, 0, 0, 0];
    expected.extend(word(0, 1, b"ab").encode());
    expected.extend(word(4, 5, b"zz").encode());
    assert_eq!(out, expected);
}
