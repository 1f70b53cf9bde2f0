use jpegdec::coding::EntropyCoding;
use jpegdec::decoder::JpegDecoder;
use jpegdec::error::DecodeError;
use jpegdec::frame_header::{Component, ComponentType, FrameData};
use jpegdec::huffman_tree::HuffmanClass;
use jpegdec::sample_precision::SamplePrecision;

// SOI, APP0, two quantization tables, a 6x2 colour frame, four Huffman
// tables (DC/AC for destinations 0 and 1), a three-component scan, the
// entropy-coded data and EOI.
fn mock_jpeg() -> Vec<u8> {
    vec![
        0xFF, 0xD8, // SOI
        0xFF, 0xE0, // APP0
        0x00, 0x10, b'J', b'F', b'I', b'F', 0x00, 0x01, 0x01, 0x01, 0x00, 0x48, 0x00, 0x48,
        0x00, 0x00, // 16
        0xFF, 0xDB, // QT 1
        0x00, 0x03, 0x00, 0xFF, 0xDB, // QT 2
        0x00, 0x03, 0x00, 0xFF, 0xC0, // START OF FRAME
        0x00, 0x11, 0x08, 0x00, 0x02, 0x00, 0x06, 0x03, 0x01, 0x22, 0x00, 0x02, 0x11, 0x01,
        0x03, 0x11, 0x01, // 17
        0xFF, 0xC4, // HUFFMAN 1 39
        0x00, 0x15, 0x00, 0x01, 0x01, 0x00, 0x00, 0x00, 0x00, 0x00, 0x00, 0x00, 0x00, 0x00,
        0x00, 0x00, 0x00, 0x00, 0x00, 0x00, 0x09, // 21
        0xFF, 0xC4, // HUFFMAN 2 62
        0x00, 0x19, 0x10, 0x01, 0x00, 0x02, 0x03, 0x00, 0x00, 0x00, 0x00, 0x00, 0x00, 0x00,
        0x00, 0x00, 0x00, 0x00, 0x00, 0x00, 0x06, 0x08, 0x38, 0x88, 0xB6, // 25
        0xFF, 0xC4, // HUFFMAN 3 89
        0x00, 0x15, 0x01, 0x01, 0x01, 0x00, 0x00, 0x00, 0x00, 0x00, 0x00, 0x00, 0x00, 0x00,
        0x00, 0x00, 0x00, 0x00, 0x00, 0x07, 0x0Aa, // 21
        0xFF, 0xC4, // HUFFMAN 4 112
        0x00, 0x1C, 0x11, 0x00, 0x01, 0x03, 0x05, 0x00, 0x00, 0x00, 0x00, 0x00, 0x00, 0x00,
        0x00, 0x00, 0x00, 0x00, 0x00, 0x08, 0x00, 0x07, 0xB8, 0x09, 0x38, 0x39, 0x76,
        0x78, // 28
        0xFF, 0xDA, // START OF SCAN
        0x00, 0x0C, 0x03, 0x01, 0x00, 0x02, 0x11, 0x03, 0x11, 0x00, 0x3F,
        0x00, // three bytes that are skipped
        0xFF, // the start of the image data
        0x00, 0x00, 0xFF, 0x00, 0xFF, 0x00, 0x02, 0x04, b'h', 0x02, 0xFF, 0xD9, // EOI
    ]
}

#[test]
fn dct_decoder_test_decoding_various_markers() {
    let decoder = JpegDecoder::from_buffer(mock_jpeg()).unwrap();
    let jfif = decoder.decode().unwrap();

    let FrameData {
        precision,
        image_height,
        image_width,
        component_type,
        components,
    } = jfif.frame_header;
    assert_eq!(precision, SamplePrecision::EightBit);
    assert_eq!(image_width, 6);
    assert_eq!(image_height, 2);
    assert_eq!(component_type, ComponentType::Color);
    assert_eq!(components.len(), 3);
    assert_eq!(
        [
            Component {
                component_id: 1,
                horizontal_scaling_factor: 2,
                vertical_scaling_factor: 2,
                qt_table_id: 0
            },
            Component {
                component_id: 2,
                horizontal_scaling_factor: 1,
                vertical_scaling_factor: 1,
                qt_table_id: 1
            },
            Component {
                component_id: 3,
                horizontal_scaling_factor: 1,
                vertical_scaling_factor: 1,
                qt_table_id: 1
            }
        ]
        .to_vec(),
        components
    );

    let huffman_trees = match jfif.entropy_coding {
        EntropyCoding::Huffman(ht) => ht,
        EntropyCoding::Arithmetic => unreachable!(),
    };

    assert_eq!(huffman_trees.len(), 4);
    assert_eq!(
        huffman_trees.iter().map(|ht| ht.class()).collect::<Vec<_>>(),
        vec![HuffmanClass::DC, HuffmanClass::AC, HuffmanClass::DC, HuffmanClass::AC,]
    );

    assert_eq!(
        huffman_trees.iter().map(|ht| ht.destination_id()).collect::<Vec<_>>(),
        vec![0, 0, 1, 1]
    );

    assert_eq!(jfif.data, [0xFF, 0x00, 0xFF, 0xFF, 0x02, 0x04, b'h', 0x02,].to_vec());
}

#[test]
fn mock_scan_header_and_tables() {
    let jfif = JpegDecoder::from_buffer(mock_jpeg()).unwrap().decode().unwrap();
    let selectors = &jfif.scan_header.scan_component_selectors;
    assert_eq!(selectors.len(), 3);
    assert_eq!((selectors[0].component_id, selectors[0].dc_destination_id, selectors[0].ac_destination_id), (1, 0, 0));
    assert_eq!((selectors[1].component_id, selectors[1].dc_destination_id, selectors[1].ac_destination_id), (2, 1, 1));
    assert_eq!((selectors[2].component_id, selectors[2].dc_destination_id, selectors[2].ac_destination_id), (3, 1, 1));
    assert_eq!(jfif.scan_header.start_of_spectral, 0);
    assert_eq!(jfif.scan_header.end_of_spectral, 63);
    assert_eq!(jfif.quant_tables.len(), 2);
    assert_eq!(jfif.quant_tables[0].table_id, 0);
    assert_eq!(jfif.quant_tables[0].quantization_table_element.len(), 64);
    match jfif.entropy_coding {
        EntropyCoding::Huffman(trees) => {
            // each tree has one leaf per listed symbol
            let sizes: Vec<usize> = trees.iter().map(|t| t.num_nodes()).collect();
            assert_eq!(sizes, vec![3, 11, 3, 17]);
        }
        EntropyCoding::Arithmetic => unreachable!(),
    }
}

#[test]
fn mock_fails_on_its_missing_quantization_table() {
    // both mock tables install destination 0; components 2 and 3 name table 1
    let jfif = JpegDecoder::from_buffer(mock_jpeg()).unwrap().decode().unwrap();
    assert!(matches!(jfif.decode_blocks(), Err(DecodeError::MissingQuantizationTable)));
}

#[test]
fn huffman_table_with_too_few_symbols_fails() {
    let mut data = mock_jpeg();
    // the first table's histogram now counts three codes, but it lists two symbols
    assert_eq!(&data[51..55], &[0x00, 0x15, 0x00, 0x01]);
    data[55] = 0x02;
    let decoder = JpegDecoder::from_buffer(data).unwrap();
    assert!(matches!(decoder.decode(), Err(DecodeError::MalformedHuffmanTable)));
}

#[test]
fn buffer_without_start_of_image_is_rejected() {
    let mut data = mock_jpeg();
    data[1] = 0xD9;
    assert!(matches!(JpegDecoder::from_buffer(data), Err(DecodeError::MissingStartOfImage)));
}

#[test]
fn buffer_without_final_end_of_image_is_rejected() {
    let mut data = mock_jpeg();
    data.push(0x00);
    assert!(matches!(JpegDecoder::from_buffer(data), Err(DecodeError::MisplacedBoundaryMarker)));
}

#[test]
fn segment_running_past_the_buffer_is_rejected() {
    let mut data = mock_jpeg();
    // the APP0 length field now declares far more bytes than the buffer holds
    data[4] = 0x7F;
    assert!(matches!(JpegDecoder::from_buffer(data), Err(DecodeError::SegmentOutOfBounds)));
}

#[test]
fn sixteen_bit_quantization_table_is_rejected() {
    let mut data = mock_jpeg();
    assert_eq!(&data[20..25], &[0xFF, 0xDB, 0x00, 0x03, 0x00]);
    data[24] = 0x10;
    let decoder = JpegDecoder::from_buffer(data).unwrap();
    assert!(matches!(decoder.decode(), Err(DecodeError::UnsupportedPrecision)));
}

#[test]
fn scan_of_one_component_is_rejected() {
    let mut data = mock_jpeg();
    let sos = data.windows(2).position(|w| w == [0xFF, 0xDA]).unwrap();
    data[sos + 4] = 0x01;
    let decoder = JpegDecoder::from_buffer(data).unwrap();
    assert!(matches!(decoder.decode(), Err(DecodeError::UnsupportedComponentCount)));
}

#[test]
fn missing_scan_is_reported() {
    let mut data = mock_jpeg();
    let sos = data.windows(2).position(|w| w == [0xFF, 0xDA]).unwrap();
    // turn the scan header into an application segment
    data[sos + 1] = 0xE1;
    let decoder = JpegDecoder::from_buffer(data).unwrap();
    assert!(matches!(decoder.decode(), Err(DecodeError::MissingMarker(0xDA))));
}

#[test]
fn three_huffman_segments_are_a_wrong_count() {
    let mut data = mock_jpeg();
    let dht = data.windows(2).position(|w| w == [0xFF, 0xC4]).unwrap();
    data[dht + 1] = 0xE1;
    let decoder = JpegDecoder::from_buffer(data).unwrap();
    assert!(matches!(decoder.decode(), Err(DecodeError::WrongSegmentCount(0xC4))));
}

#[test]
fn grayscale_frame_with_colour_scan_is_a_mismatch() {
    let mut data = mock_jpeg();
    let sof = data.windows(2).position(|w| w == [0xFF, 0xC0]).unwrap();
    // one component in the frame
    data[sof + 9] = 0x01;
    let jfif = JpegDecoder::from_buffer(data).unwrap().decode().unwrap();
    assert_eq!(jfif.frame_header.component_type, ComponentType::Grayscale);
    assert!(matches!(jfif.decode_blocks(), Err(DecodeError::ComponentTypeMismatch)));
}

#[test]
fn three_dc_tables_are_a_table_count_mismatch() {
    let mut data = mock_jpeg();
    let dht = data.windows(2).position(|w| w == [0xFF, 0xC4]).unwrap();
    let second = dht + 2 + 0x15;
    assert_eq!(&data[second..second + 2], &[0xFF, 0xC4]);
    // the second table becomes a DC table
    data[second + 4] = 0x00;
    let jfif = JpegDecoder::from_buffer(data).unwrap().decode().unwrap();
    assert!(matches!(jfif.decode_blocks(), Err(DecodeError::TableCountMismatch)));
}

#[test]
fn sixteen_bit_frame_precision_is_rejected() {
    let mut data = mock_jpeg();
    let sof = data.windows(2).position(|w| w == [0xFF, 0xC0]).unwrap();
    data[sof + 4] = 16;
    let jfif = JpegDecoder::from_buffer(data).unwrap().decode().unwrap();
    assert_eq!(jfif.frame_header.precision, SamplePrecision::SixteenBit);
    assert!(matches!(jfif.decode_blocks(), Err(DecodeError::UnsupportedPrecision)));
}

#[test]
fn decode_blocks_of_a_consistent_image() {
    let mut data = mock_jpeg();
    // the second quantization table installs destination 1
    assert_eq!(&data[25..30], &[0xFF, 0xDB, 0x00, 0x03, 0x00]);
    data[29] = 0x01;
    let jfif = JpegDecoder::from_buffer(data.clone()).unwrap().decode().unwrap();
    let table0: Vec<u8> = data[25..89].to_vec();
    assert_eq!(jfif.quant_tables[0].quantization_table_element, table0);
    let blocks = jfif.decode_blocks().unwrap();
    // 8 bytes of entropy data hold fewer than 64 coefficient positions: one block
    assert_eq!(blocks.len(), 1);
    assert_eq!(blocks[0].0.coefficients.len(), 64);
    assert_eq!(blocks[0].1.coefficients.len(), 64);
    assert_eq!(blocks[0].2.coefficients.len(), 64);
}
