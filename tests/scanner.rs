use jpegdec::marker::{Marker, MarkerType, DHT, DQT, EOI, SOF0, SOI, SOS};
use jpegdec::scanner::{check_start_of_image, read_markers, scan_markers, MarLen};

fn small_jpeg() -> Vec<u8> {
    vec![
        0xFF, 0xD8, // SOI
        0xFF, 0xDB, 0x00, 0x03, 0x00, // DQT
        0xFF, 0xDB, 0x00, 0x04, 0x01, 0x02, // DQT
        0xFF, 0xD0, // RST0
        0xFF, 0xC0, 0x00, 0x02, // SOF0 with an empty payload
        0xFF, 0x00, 0x13, // stuffed data
        0xFF, 0xD9, // EOI
    ]
}

#[test]
fn read_markers_finds_one_soi_and_one_eoi() {
    let data = small_jpeg();
    let map = read_markers(&data).unwrap();
    assert_eq!(map.get(Marker::new(SOI)), &vec![MarLen { offset: 2, length: 0 }]);
    assert_eq!(map.get(Marker::new(EOI)), &vec![MarLen { offset: data.len(), length: 0 }]);
}

#[test]
fn scan_records_segments_in_file_order() {
    let data = small_jpeg();
    let map = scan_markers(&data).unwrap();
    assert_eq!(
        map.get(Marker::new(DQT)),
        &vec![MarLen { offset: 6, length: 1 }, MarLen { offset: 11, length: 2 }]
    );
    assert_eq!(map.get(Marker::new(0xD0)), &vec![MarLen { offset: 15, length: 0 }]);
    assert_eq!(map.get(Marker::new(SOF0)), &vec![MarLen { offset: 19, length: 0 }]);
    assert!(map.get(Marker::new(SOS)).is_empty());
    assert!(map.get(Marker::new(DHT)).is_empty());
    assert!(map.get(Marker::new(0x00)).is_empty());
}

#[test]
fn singleton_marker_is_recorded_once() {
    let data = vec![0xFF, 0xD8, 0xFF, 0xD8, 0xFF, 0xD9];
    let map = scan_markers(&data).unwrap();
    assert_eq!(map.get(Marker::new(SOI)), &vec![MarLen { offset: 2, length: 0 }]);
}

#[test]
fn start_of_image_must_open_the_buffer() {
    assert!(check_start_of_image(&vec![0xFF, 0xD8, 0xFF]).is_ok());
    assert!(check_start_of_image(&vec![0xFF, 0xD8]).is_err());
    assert!(check_start_of_image(&vec![0x00, 0xFF, 0xD8, 0xFF]).is_err());
    assert!(read_markers(&vec![]).is_err());
}

#[test]
fn segment_with_short_length_field_is_rejected() {
    assert!(scan_markers(&vec![0xFF, 0xDB, 0x00]).is_err());
    assert!(scan_markers(&vec![0xFF, 0xDB, 0x00, 0x01]).is_err());
    assert!(scan_markers(&vec![0xFF, 0xDB, 0x00, 0x02]).is_ok());
}

#[test]
fn marker_kinds() {
    assert_eq!(Marker::all().len(), 254);
    assert_eq!(Marker::all()[0], Marker::new(0x01));
    assert!(Marker::new(0xFF).is_invalid_low_byte());
    assert!(Marker::new(0x00).is_invalid_low_byte());
    assert!(!Marker::new(SOI).is_invalid_low_byte());
    assert!(Marker::new(SOI).singleton());
    assert!(!Marker::new(DHT).singleton());
    assert!(!Marker::new(DQT).singleton());
    assert_eq!(Marker::new(EOI).is_segment(), MarkerType::StandAlone);
    assert_eq!(Marker::new(0xD7).is_segment(), MarkerType::StandAlone);
    assert_eq!(Marker::new(SOS).is_segment(), MarkerType::Segment);
    assert_eq!(Marker::new(SOI).to_u16(), 0xFFD8);
    assert!(Marker::new(SOF0).encoding_process().is_some());
    assert!(Marker::new(DHT).encoding_process().is_none());
}
