use jpegdec::coding::EntropyCoding;
use jpegdec::entropy_decoder::EntropyDecoder;
use jpegdec::error::DecodeError;
use jpegdec::frame_header::ComponentType;
use jpegdec::huffman_tree::HuffmanTree;
use jpegdec::scan_header::{EncodingOrder, ScanComponentSelector, ScanHeader};

const ZIGZAG_TABLE: [usize; 64] = [
    0, 1, 5, 6, 14, 15, 27, 28, 2, 4, 7, 13, 16, 26, 29, 42, 3, 8, 12, 17, 25, 30, 41, 43, 9, 11, 18, 24, 31, 40, 44, 53, 10, 19, 23, 32, 39, 45, 52, 54, 20, 22, 33, 38, 46, 51, 55, 60, 21, 34, 37, 47, 50, 56, 59, 61, 35, 36, 48, 49, 57, 58, 62, 63
];

fn empty_scan_header() -> ScanHeader {
    ScanHeader {
        encoding_order: EncodingOrder::NonInterleaved,
        component_type: ComponentType::Grayscale,
        scan_component_selectors: vec![],
        start_of_spectral: 0,
        end_of_spectral: 0,
        successive_approx_bit_position_high: 0,
        point_transform: 0,
    }
}

fn color_scan_header() -> ScanHeader {
    ScanHeader {
        encoding_order: EncodingOrder::Interleaved,
        component_type: ComponentType::Color,
        scan_component_selectors: vec![
            ScanComponentSelector::from(1, 0, 0),
            ScanComponentSelector::from(2, 0, 0),
            ScanComponentSelector::from(3, 0, 0),
        ],
        start_of_spectral: 0,
        end_of_spectral: 63,
        successive_approx_bit_position_high: 0,
        point_transform: 0,
    }
}

/// A DC and an AC table at destination 0: bit 0 decodes to `dc0` / `ac0`,
/// bit 1 to `dc1` / `ac1`.
fn two_symbol_trees(dc0: u8, dc1: u8, ac0: u8, ac1: u8) -> Vec<HuffmanTree> {
    vec![
        HuffmanTree::from(0, 0, vec![(dc0, 1), (dc1, 1)]).unwrap(),
        HuffmanTree::from(1, 0, vec![(ac0, 1), (ac1, 1)]).unwrap(),
    ]
}

#[test]
fn test_zigzag() {
    let mut entropy_decoder =
        EntropyDecoder::new(&[], empty_scan_header(), EntropyCoding::Huffman(vec![]));

    let data = vec![
        (0, 0, 0),
        (1, 1, 1),
        (2, 2, 2),
        (3, 3, 3),
        (4, 4, 4),
        (5, 5, 5),
        (6, 6, 6),
        (7, 7, 7),
        (8, 8, 8),
        (9, 9, 9),
        (10, 10, 10),
        (11, 11, 11),
        (12, 12, 12),
        (13, 13, 13),
        (14, 14, 14),
        (15, 15, 15),
        (16, 16, 16),
        (17, 17, 17),
        (18, 18, 18),
        (19, 19, 19),
        (20, 20, 20),
        (21, 21, 21),
        (22, 22, 22),
        (23, 23, 23),
        (24, 24, 24),
        (25, 25, 25),
        (26, 26, 26),
        (27, 27, 27),
        (28, 28, 28),
        (29, 29, 29),
        (30, 30, 30),
        (31, 31, 31),
        (32, 32, 32),
        (33, 33, 33),
        (34, 34, 34),
        (35, 35, 35),
        (36, 36, 36),
        (37, 37, 37),
        (38, 38, 38),
        (39, 39, 39),
        (40, 40, 40),
        (41, 41, 41),
        (42, 42, 42),
        (43, 43, 43),
        (44, 44, 44),
        (45, 45, 45),
        (46, 46, 46),
        (47, 47, 47),
        (48, 48, 48),
        (49, 49, 49),
        (50, 50, 50),
        (51, 51, 51),
        (52, 52, 52),
        (53, 53, 53),
        (54, 54, 54),
        (55, 55, 55),
        (56, 56, 56),
        (57, 57, 57),
        (58, 58, 58),
        (59, 59, 59),
        (60, 60, 60),
        (61, 61, 61),
        (62, 62, 62),
        (63, 63, 63),
    ];

    let unzigzagged = entropy_decoder.zigzag(data).unwrap();

    println!("{:?}", unzigzagged);
}

#[test]
fn zigzag_puts_a_block_into_raster_order() {
    let mut entropy_decoder =
        EntropyDecoder::new(&[], empty_scan_header(), EntropyCoding::Huffman(vec![]));
    let data: Vec<(u8, u8, u8)> = (0..64u8).map(|i| (i, i, i)).collect();
    let blocks = entropy_decoder.zigzag(data).unwrap();
    assert_eq!(blocks.len(), 1);
    for i in 0..64 {
        let z = ZIGZAG_TABLE[i] as u8;
        assert_eq!(blocks[0][i], (z, z, z));
    }
    // raster (0, 2) is the sixth coefficient in zig-zag order
    assert_eq!(blocks[0][2], (5, 5, 5));
    assert_eq!(blocks[0][8], (2, 2, 2));
}

#[test]
fn zigzag_round_trip_is_identity() {
    let mut entropy_decoder =
        EntropyDecoder::new(&[], empty_scan_header(), EntropyCoding::Huffman(vec![]));
    let natural: Vec<(u8, u8, u8)> = (0..64u8).map(|i| (i, 2 * i, 255 - i)).collect();
    let mut zigzagged = vec![(0u8, 0u8, 0u8); 64];
    for i in 0..64 {
        zigzagged[ZIGZAG_TABLE[i]] = natural[i];
    }
    let blocks = entropy_decoder.zigzag(zigzagged).unwrap();
    assert_eq!(blocks, vec![natural]);
}

#[test]
fn zigzag_pads_a_short_last_block_with_zeros() {
    let mut entropy_decoder =
        EntropyDecoder::new(&[], empty_scan_header(), EntropyCoding::Huffman(vec![]));
    let data: Vec<(u8, u8, u8)> = (0..65u8).map(|i| (i, i, i)).collect();
    let blocks = entropy_decoder.zigzag(data).unwrap();
    assert_eq!(blocks.len(), 2);
    assert_eq!(blocks[1][0], (64, 64, 64));
    assert_eq!(blocks[1][1], (0, 0, 0));
    assert!(entropy_decoder.zigzag(vec![]).unwrap().is_empty());
}

#[test]
fn decode_walks_dc_then_ac_trees() {
    let bits = [0, 1, 1, 0, 0, 1, 1];
    let mut decoder = EntropyDecoder::new(
        &bits,
        color_scan_header(),
        EntropyCoding::Huffman(two_symbol_trees(5, 7, 50, 70)),
    );
    // the first position of a block uses the DC tree, the next ones the AC tree;
    // the trailing bit starts a position that never completes
    assert_eq!(decoder.decode().unwrap(), vec![(5, 7, 7), (50, 50, 70)]);
}

#[test]
fn decode_returns_to_dc_after_sixty_four_positions() {
    let mut bits = vec![];
    for _ in 0..65 {
        bits.extend_from_slice(&[1, 1, 1]);
    }
    let mut decoder = EntropyDecoder::new(
        &bits,
        color_scan_header(),
        EntropyCoding::Huffman(two_symbol_trees(5, 7, 50, 70)),
    );
    let out = decoder.decode().unwrap();
    assert_eq!(out.len(), 65);
    assert_eq!(out[0], (7, 7, 7));
    assert_eq!(out[1], (70, 70, 70));
    assert_eq!(out[63], (70, 70, 70));
    assert_eq!(out[64], (7, 7, 7));
}

#[test]
fn decode_rejects_a_bit_outside_zero_and_one() {
    let bits = [0, 2];
    let mut decoder = EntropyDecoder::new(
        &bits,
        color_scan_header(),
        EntropyCoding::Huffman(two_symbol_trees(5, 7, 50, 70)),
    );
    assert_eq!(decoder.decode(), Err(DecodeError::InvalidBit));
}

#[test]
fn decode_rejects_a_missing_table() {
    let bits = [0, 0, 0];
    let trees = vec![HuffmanTree::from(0, 0, vec![(5, 1), (7, 1)]).unwrap()];
    let mut decoder = EntropyDecoder::new(&bits, color_scan_header(), EntropyCoding::Huffman(trees));
    assert_eq!(decoder.decode(), Err(DecodeError::MissingHuffmanTable));
}

#[test]
fn decode_rejects_arithmetic_coding() {
    let bits = [0, 0];
    let mut decoder = EntropyDecoder::new(&bits, color_scan_header(), EntropyCoding::Arithmetic);
    assert_eq!(decoder.decode(), Err(DecodeError::NotImplemented));
}

#[test]
fn decode_rejects_a_scan_without_three_components() {
    let bits = [0, 0];
    let mut decoder = EntropyDecoder::new(
        &bits,
        empty_scan_header(),
        EntropyCoding::Huffman(two_symbol_trees(5, 7, 50, 70)),
    );
    assert_eq!(decoder.decode(), Err(DecodeError::UnsupportedComponentCount));
}
