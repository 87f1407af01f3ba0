use h264_stream::{H264NalUnit, H264Stream};

fn drain(s: &mut H264Stream<()>) -> Vec<H264NalUnit> {
    let mut out = Vec::new();
    while let Some(u) = s.pop_unit() {
        out.push(u);
    }
    out
}

fn split_all(bytes: &[u8]) -> Vec<Vec<u8>> {
    let mut s = H264Stream::new(());
    s.feed(bytes);
    drain(&mut s).into_iter().map(|u| u.raw_bytes).collect()
}

#[test]
fn two_chunks_yield_two_units() {
    let mut s = H264Stream::new(());
    s.feed(&[0x00, 0x00, 0x01, 0x67, 0xAA, 0xBB]);
    assert!(s.pop_unit().is_none());
    s.feed(&[0x00, 0x00, 0x01, 0x68, 0xCC, 0x00, 0x00, 0x01, 0x65]);
    let first = s.pop_unit().unwrap();
    assert_eq!(first.unit_code, 7);
    assert_eq!(first.raw_bytes, vec![0x00, 0x00, 0x01, 0x67, 0xAA, 0xBB]);
    let second = s.pop_unit().unwrap();
    assert_eq!(second.unit_code, 8);
    assert_eq!(second.raw_bytes, vec![0x00, 0x00, 0x01, 0x68, 0xCC]);
    assert!(s.pop_unit().is_none());
    assert_eq!(s.buffered_len(), 4);
}

#[test]
fn start_codes_minus_one_units() {
    let bytes = [
        0x00, 0x00, 0x01, 0x09, 0x10, 0x00, 0x00, 0x01, 0x67, 0x42, 0x00, 0x00, 0x00, 0x01, 0x68,
        0xCE, 0x00, 0x00, 0x01, 0x65, 0x88,
    ];
    let units = split_all(&bytes);
    assert_eq!(units.len(), 3);
}

#[test]
fn no_start_code_no_unit() {
    let mut s = H264Stream::new(());
    s.feed(&[0x12, 0x00, 0x34, 0x00, 0x00, 0x02, 0x00]);
    assert_eq!(s.queued_units(), 0);
    assert_eq!(s.buffered_len(), 7);
}

#[test]
fn unit_code_is_low_five_bits() {
    let units = {
        let mut s = H264Stream::new(());
        s.feed(&[0x00, 0x00, 0x01, 0xFF, 0x01, 0x00, 0x00, 0x01, 0x41]);
        drain(&mut s)
    };
    assert_eq!(units.len(), 1);
    assert_eq!(units[0].unit_code, 31);
    let u = H264NalUnit::new(vec![0x00, 0x00, 0x01, 0x65, 0x88]);
    assert_eq!(u.unit_code, 5);
    assert_eq!(u.raw_bytes, vec![0x00, 0x00, 0x01, 0x65, 0x88]);
}

#[test]
fn extra_leading_zeros_are_dropped() {
    let bytes = [
        0x00, 0x00, 0x00, 0x01, 0x67, 0x11, 0x00, 0x00, 0x00, 0x00, 0x01, 0x68, 0x22, 0x00, 0x00,
        0x01, 0x65, 0x33, 0x00, 0x00, 0x00, 0x01,
    ];
    let units = split_all(&bytes);
    assert_eq!(
        units,
        vec![
            vec![0x00, 0x00, 0x01, 0x67, 0x11],
            vec![0x00, 0x00, 0x01, 0x68, 0x22],
            vec![0x00, 0x00, 0x01, 0x65, 0x33],
        ]
    );
}

#[test]
fn split_anywhere_gives_same_units() {
    let bytes = [
        0x00, 0x00, 0x00, 0x01, 0x67, 0x11, 0x00, 0x22, 0x00, 0x00, 0x01, 0x68, 0x22, 0x00, 0x00,
        0x00, 0x01, 0x65, 0x33, 0x00, 0x00, 0x01, 0x41,
    ];
    let whole = split_all(&bytes);
    assert_eq!(whole.len(), 3);
    for cut in 0..=bytes.len() {
        let mut s = H264Stream::new(());
        s.feed(&bytes[..cut]);
        s.feed(&bytes[cut..]);
        let parts: Vec<Vec<u8>> = drain(&mut s).into_iter().map(|u| u.raw_bytes).collect();
        assert_eq!(parts, whole, "cut at {}", cut);
    }
}

#[test]
fn trailing_bytes_stay_buffered() {
    let mut s = H264Stream::new(());
    s.feed(&[0x00, 0x00, 0x01, 0x67, 0xAA]);
    s.feed(&[0xBB, 0x00, 0x00]);
    assert_eq!(s.queued_units(), 0);
    assert_eq!(s.buffered_len(), 8);
    s.feed(&[0x01]);
    assert_eq!(s.queued_units(), 1);
    assert_eq!(s.buffered_len(), 3);
}

#[test]
fn units_come_out_in_stream_order() {
    let bytes = [
        0x00, 0x00, 0x01, 0x61, 0x00, 0x00, 0x01, 0x62, 0x00, 0x00, 0x01, 0x63, 0x00, 0x00, 0x01,
        0x64,
    ];
    let mut s = H264Stream::new(());
    s.feed(&bytes[..9]);
    s.feed(&bytes[9..]);
    let codes: Vec<u8> = drain(&mut s).iter().map(|u| u.unit_code).collect();
    assert_eq!(codes, vec![1, 2, 3]);
}

#[test]
fn bytes_before_first_start_code_are_discarded() {
    let units = split_all(&[0xAB, 0xCD, 0x00, 0x00, 0x01, 0x67, 0x11, 0x00, 0x00, 0x01]);
    assert_eq!(units, vec![vec![0x00, 0x00, 0x01, 0x67, 0x11]]);
}

#[test]
fn start_code_without_header_yields_no_unit() {
    let units = split_all(&[0x00, 0x00, 0x01, 0x00, 0x00, 0x01, 0x67, 0x00, 0x00, 0x01]);
    assert_eq!(units, vec![vec![0x00, 0x00, 0x01, 0x67]]);
}

#[test]
fn no_encapsulated_units() {
    let mut bytes = Vec::new();
    for k in 0..50u8 {
        bytes.extend_from_slice(&[0x00, 0x00]);
        if k % 3 == 0 {
            bytes.push(0x00);
        }
        bytes.extend_from_slice(&[0x01, 0x60 | (k % 32), k, 0x00, 0x03, 0x00, k ^ 0x5A]);
    }
    let mut s = H264Stream::new(());
    for chunk in bytes.chunks(7) {
        s.feed(chunk);
    }
    let units = drain(&mut s);
    assert_eq!(units.len(), 49);
    for nal in &units {
        let mut nulls = 0;
        for byte in nal.raw_bytes.iter().skip(3) {
            if *byte == 0x00 {
                nulls += 1;
            } else if nulls >= 2 && *byte == 0x01 {
                panic!("Detected unit within unit; Parser isn't working as intended.");
            } else {
                nulls = 0;
            }
        }
    }
}

#[test]
fn buffer_keeps_whole_zero_run() {
    let mut s = H264Stream::new(());
    s.feed(&[0x00, 0x00, 0x00, 0x01, 0x67]);
    assert_eq!(s.buffered_len(), 5);
    s.feed(&[0x00, 0x00, 0x00, 0x00]);
    assert_eq!(s.buffered_len(), 9);
    s.feed(&[0x01]);
    assert_eq!(s.buffered_len(), 5);
    let u = s.pop_unit().unwrap();
    assert_eq!(u.raw_bytes, vec![0x00, 0x00, 0x01, 0x67]);
    assert_eq!(u.unit_code, 7);
}

#[test]
fn bytes_before_first_start_code_leave_the_buffer() {
    let mut s = H264Stream::new(());
    s.feed(&[0xAB, 0xCD, 0x00]);
    assert_eq!(s.buffered_len(), 3);
    s.feed(&[0x00, 0x01]);
    assert_eq!(s.buffered_len(), 3);
    assert_eq!(s.queued_units(), 0);
}

#[test]
fn zero_header_byte_with_payload_is_a_unit() {
    let units = split_all(&[0x00, 0x00, 0x01, 0x00, 0x05, 0x00, 0x00, 0x01]);
    assert_eq!(units, vec![vec![0x00, 0x00, 0x01, 0x00, 0x05]]);
    let u = H264NalUnit::new(vec![0x00, 0x00, 0x01, 0x00, 0x05]);
    assert_eq!(u.unit_code, 0);
}

#[test]
fn interleaved_reads_and_takes_keep_order() {
    let mut s = H264Stream::new(());
    s.feed(&[0x00, 0x00, 0x01, 0x61, 0x00, 0x00]);
    assert!(s.pop_unit().is_none());
    s.feed(&[0x01, 0x62, 0x00, 0x00, 0x01, 0x63]);
    assert_eq!(s.pop_unit().unwrap().unit_code, 1);
    s.feed(&[0x00, 0x00, 0x00, 0x01, 0x64, 0x00, 0x00, 0x01]);
    assert_eq!(s.pop_unit().unwrap().unit_code, 2);
    assert_eq!(s.pop_unit().unwrap().unit_code, 3);
    assert_eq!(s.pop_unit().unwrap().unit_code, 4);
    assert!(s.pop_unit().is_none());
}
