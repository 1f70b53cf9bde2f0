use jpegdec::stuffing::sanitize;

fn restuff(data: &[u8]) -> Vec<u8> {
    let mut out = vec![];
    for &b in data {
        out.push(b);
        if b == 0xFF {
            out.push(0x00);
        }
    }
    out
}

#[test]
fn sanitize_removes_stuffed_zeros() {
    assert_eq!(sanitize(&[0xFF, 0x00, 0xFF, 0x00, 0x02, 0x04]), vec![0xFF, 0xFF, 0x02, 0x04]);
}

#[test]
fn sanitize_then_restuff_gives_back_the_input() {
    let stuffed = [0xFF, 0x00, 0xFF, 0x00, 0x02, 0x04];
    assert_eq!(restuff(&sanitize(&stuffed)), stuffed.to_vec());
}

#[test]
fn restuff_then_sanitize_gives_back_the_input() {
    let plain = [0x12, 0xFF, 0xFF, 0x00, 0x34];
    assert_eq!(sanitize(&restuff(&plain)), plain.to_vec());
}

#[test]
fn sanitize_keeps_unstuffed_bytes() {
    assert_eq!(sanitize(&[0x00, 0xFF, 0xD9, 0x01]), vec![0x00, 0xFF, 0xD9, 0x01]);
    assert_eq!(sanitize(&[0xFF]), vec![0xFF]);
    assert_eq!(sanitize(&[]), Vec::<u8>::new());
}

#[test]
fn sanitize_is_not_idempotent_on_a_stuffed_zero_run() {
    let once = sanitize(&[0xFF, 0x00, 0x00]);
    assert_eq!(once, vec![0xFF, 0x00]);
    assert_eq!(sanitize(&once), vec![0xFF]);
}
