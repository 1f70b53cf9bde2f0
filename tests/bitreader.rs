use jpegdec::bitreader::BitReader;
use jpegdec::scan_header::EncodingOrder;

#[test]
fn test_u8_to_bits() {
    let test_cases = vec![
        (4, vec![0, 0, 0, 0, 0, 1, 0, 0]),
        (21, vec![0, 0, 0, 1, 0, 1, 0, 1]),
        (69, vec![0, 1, 0, 0, 0, 1, 0, 1]),
    ];

    for (num, expected) in test_cases {
        let data = vec![num];
        let mut bit_reader = BitReader::new(&data, EncodingOrder::Interleaved);

        let got = bit_reader.u8_to_bits(num);

        assert_eq!(got.to_vec(), expected)
    }
}

#[test]
fn test_slice_to_bits() {
    let data = vec![4, 21, 69];

    let mut bit_reader = BitReader::new(&data, EncodingOrder::Interleaved);
    let got = bit_reader.slice_to_bits();

    assert_eq!(
        got,
        vec![0, 0, 0, 0, 0, 1, 0, 0, 0, 0, 0, 1, 0, 1, 0, 1, 0, 1, 0, 0, 0, 1, 0, 1]
    );
}

#[test]
fn slice_to_bits_of_nothing_is_empty() {
    let data: Vec<u8> = vec![];
    let mut bit_reader = BitReader::new(&data, EncodingOrder::NonInterleaved);
    assert!(bit_reader.slice_to_bits().is_empty());
}

#[test]
fn u8_to_bits_of_extremes() {
    let data = vec![0u8];
    let mut bit_reader = BitReader::new(&data, EncodingOrder::Interleaved);
    assert_eq!(bit_reader.u8_to_bits(0xFF), [1, 1, 1, 1, 1, 1, 1, 1]);
    assert_eq!(bit_reader.u8_to_bits(0x80), [1, 0, 0, 0, 0, 0, 0, 0]);
    assert_eq!(bit_reader.u8_to_bits(0x00), [0; 8]);
}
