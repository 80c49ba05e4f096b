use quake3::huffman::{Huffman, HuffmanError, Node, MAX_NODES};

const USERINFO_BLOB: [u8; 229] = [
    0x44, 0x74, 0x30, 0x8e, 0x05, 0x0c, 0xc7, 0x26, 0xc3, 0x14, 0xec, 0x8e,
    0xf9, 0x67, 0xd0, 0x1a, 0x4e, 0x29, 0x98, 0x01, 0xc7, 0xc3, 0x7a, 0x30,
    0x2c, 0x2c, 0x19, 0x1c, 0x13, 0x87, 0xc2, 0xde, 0x71, 0x0a, 0x5c, 0xac,
    0x30, 0xcd, 0x40, 0xce, 0x3a, 0xca, 0xaf, 0x96, 0x2a, 0xb0, 0xd9, 0x3a,
    0xb7, 0xb0, 0xfd, 0x4d, 0xa8, 0x0e, 0xc9, 0xba, 0x79, 0x4c, 0x28, 0x0a,
    0xc4, 0x0a, 0x4f, 0x83, 0x02, 0x9b, 0x9f, 0x69, 0xe4, 0x0a, 0xc3, 0x38,
    0x47, 0x9b, 0xcf, 0x22, 0xaf, 0x61, 0xf6, 0x64, 0x6f, 0x13, 0x7c, 0xa3,
    0xae, 0x1f, 0xaf, 0x06, 0x52, 0xb7, 0x3c, 0xa3, 0x06, 0x5f, 0x3a, 0xf4,
    0x8f, 0x66, 0xd2, 0x40, 0xac, 0xee, 0x2b, 0x2d, 0xea, 0x38, 0x18, 0xf9,
    0xb7, 0xf2, 0x36, 0x37, 0x80, 0xea, 0x17, 0xe9, 0xd5, 0x40, 0x58, 0xf7,
    0x0f, 0xc6, 0xb2, 0x3a, 0x85, 0xe5, 0xbb, 0xca, 0xf7, 0x78, 0x77, 0x09,
    0x2c, 0xe1, 0xe5, 0x7b, 0xcc, 0xad, 0x59, 0x0f, 0x3c, 0xea, 0x67, 0x2a,
    0x37, 0x1a, 0x31, 0xc7, 0x83, 0xe5, 0x02, 0xd7, 0xd1, 0xdd, 0xc0, 0x73,
    0xeb, 0xe6, 0x5d, 0x4c, 0x32, 0x87, 0xa4, 0xa4, 0x8d, 0x2e, 0x1b, 0x08,
    0x0b, 0x38, 0x11, 0xac, 0x7b, 0x9a, 0x34, 0x16, 0xe2, 0xe6, 0xd1, 0x3b,
    0xf0, 0xf8, 0xf2, 0x99, 0xda, 0xc4, 0x91, 0xb7, 0x4b, 0x53, 0xcf, 0x82,
    0xa6, 0xda, 0x10, 0x61, 0x89, 0xb0, 0x5b, 0x6c, 0x6e, 0xc3, 0x46, 0xe3,
    0xb7, 0x7c, 0x19, 0x62, 0x38, 0xac, 0x42, 0x48, 0x23, 0xab, 0x11, 0xe6,
    0x20, 0x0a, 0xb8, 0x75, 0x91, 0x26, 0x12, 0x6e, 0x92, 0x25, 0x65, 0xc9,
    0x00,
];

const USERINFO: &[u8] = b"\"\\challenge\\-9938504\\qport\\2033\\protocol\\68\\name\\UnnamedPlayer\\rate\\25000\\snaps\\20\\model\\sarge\\headmodel\\sarge\\team_model\\james\\team_headmodel\\*james\\color1\\4\\color2\\5\\handicap\\100\\sex\\male\\cl_anonymous\\0\\cg_predictItems\\1\\teamtask\\0\\cl_voipProtocol\\opus\\cl_guid\\D17466611282F45B65CE2FD80F83B6B0\"";

#[test]
fn huffman_adaptive_encode_simple() {
    let mut huff = Huffman::adaptive();
    let decoded = b"aab";
    let bits = huff.encode(&decoded[..]).unwrap();
    let expected = [0x86u8, 0x19, 0x01];
    assert_eq!(&bits[..], &expected[..]);
}

#[test]
fn huffman_adaptive_decode_simple() {
    let mut huff = Huffman::adaptive();
    let encoded_bytes = [0x86u8, 0x19, 0x01];
    let decoded_len = 3;
    let mut decoded_bytes = Vec::new();
    huff.decode(&encoded_bytes[..], decoded_len, &mut decoded_bytes).unwrap();
    let expected = b"aab";
    assert_eq!(&decoded_bytes[..], expected);
}

#[test]
fn huffman_adaptive_encode() {
    let mut huff = Huffman::adaptive();
    let bits = huff.encode(USERINFO).unwrap();
    assert_eq!(&bits[..], &USERINFO_BLOB[..]);
}

#[test]
fn huffman_adaptive_decode() {
    let mut huff = Huffman::adaptive();
    let decoded_len = 0x0128;
    let mut decoded_bytes = Vec::new();
    huff.decode(&USERINFO_BLOB[..], decoded_len, &mut decoded_bytes).unwrap();
    assert_eq!(&decoded_bytes[..], USERINFO);
}

fn round_trip(input: &[u8]) -> Vec<u8> {
    let bits = Huffman::adaptive().encode(input).unwrap();
    let mut out = Vec::new();
    Huffman::adaptive().decode(&bits, input.len(), &mut out).unwrap();
    out
}

#[test]
fn huffman_round_trip_samples() {
    let samples: Vec<Vec<u8>> = vec![
        Vec::new(),
        vec![0u8],
        vec![0xffu8; 1300],
        b"abracadabra".to_vec(),
        (0u8..=254).collect(),
        (0..1300u32).map(|i| ((i * 7919) % 97) as u8).collect(),
        USERINFO.to_vec(),
    ];
    for s in samples {
        assert_eq!(round_trip(&s), s);
    }
}

#[test]
fn huffman_encode_empty_is_empty() {
    let bits = Huffman::adaptive().encode(&[]).unwrap();
    assert!(bits.is_empty());
}

#[test]
fn huffman_decode_truncated() {
    let mut out = Vec::new();
    let r = Huffman::adaptive().decode(&[0x86u8, 0x19], 3, &mut out);
    assert_eq!(r, Err(HuffmanError::Truncated));
    let r = Huffman::adaptive().decode(&[], 1, &mut out);
    assert_eq!(r, Err(HuffmanError::Truncated));
}

#[test]
fn huffman_decode_zero_length_reads_nothing() {
    let mut out = Vec::new();
    Huffman::adaptive().decode(&[], 0, &mut out).unwrap();
    assert!(out.is_empty());
}

#[test]
fn huffman_all_symbols_overflow_arena() {
    let all: Vec<u8> = (0u8..=255).collect();
    assert_eq!(Huffman::adaptive().encode(&all), Err(HuffmanError::ArenaOverflow));
}

#[test]
fn huffman_new_symbol_bits_high_first() {
    // one new symbol: an empty path to the NYT root, then bit 7 down to bit 0
    let bits = Huffman::adaptive().encode(&[0x01]).unwrap();
    assert_eq!(bits, vec![0x80u8]);
}

fn weight(node: &Node) -> u64 {
    match *node {
        Node::NotYetTransmitted { .. } => 0,
        Node::Leaf { weight, .. } => weight,
        Node::Internal { weight, .. } => weight,
    }
}

/// Checks the sibling order, the weight sums and the symbol table of a coder.
fn check_tree(huff: &Huffman) {
    let nodes: Vec<(usize, Node)> =
        (0..MAX_NODES).filter_map(|i| huff.node(i).map(|n| (i, n))).collect();
    for pair in nodes.windows(2) {
        assert!(weight(&pair[0].1) >= weight(&pair[1].1), "sibling order at {}", pair[1].0);
    }
    for (i, node) in &nodes {
        match *node {
            Node::Internal { left, right, weight: w, .. } => {
                let l = huff.node(left).unwrap();
                let r = huff.node(right).unwrap();
                assert_eq!(w, weight(&l) + weight(&r), "weight sum at {}", i);
            }
            Node::Leaf { symbol, .. } => {
                assert_eq!(huff.symbol_leaf(symbol), Some(*i));
            }
            Node::NotYetTransmitted { .. } => {}
        }
    }
    for s in 0u8..=255 {
        if let Some(i) = huff.symbol_leaf(s) {
            assert!(matches!(huff.node(i), Some(Node::Leaf { symbol, .. }) if symbol == s));
        }
    }
}

#[test]
fn huffman_tree_invariants_after_each_symbol() {
    let inputs: Vec<Vec<u8>> = vec![
        USERINFO.to_vec(),
        b"aab".to_vec(),
        (0..600u32).map(|i| ((i * i + 3 * i) % 41) as u8).collect(),
        (0u8..=254).rev().collect(),
    ];
    for input in inputs {
        for n in 0..=input.len() {
            let mut huff = Huffman::adaptive();
            huff.encode(&input[..n]).unwrap();
            check_tree(&huff);
        }
    }
}

#[test]
fn huffman_decoder_tree_matches_encoder() {
    let bits = Huffman::adaptive().encode(USERINFO).unwrap();
    let mut enc = Huffman::adaptive();
    enc.encode(USERINFO).unwrap();
    let mut dec = Huffman::adaptive();
    let mut out = Vec::new();
    dec.decode(&bits, USERINFO.len(), &mut out).unwrap();
    for i in 0..MAX_NODES {
        assert_eq!(enc.node(i), dec.node(i));
    }
    check_tree(&dec);
}
