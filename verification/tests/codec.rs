//! Codec and record-builder tests against byte-exact expected values.
use georender::point;
use georender::record::{PeerArea, PeerLine, PeerNode};
use georender::varint;

fn quantize(c: f64) -> i32 {
    (c * 1e7).round() as i32
}

#[test]
fn varint_round_trip() {
    let values: Vec<u64> = vec![0, 1, 127, 128, 300, 16384, 234941233, u64::MAX];
    for &v in values.iter() {
        let len = varint::length(v);
        let mut buf = vec![0u8; len + 3];
        let written = varint::encode_with_offset(v, &mut buf, 2);
        assert_eq!(written, len);
        let decoded = varint::decode_with_offset(&buf, 2);
        assert_eq!(decoded, Some((v, len)));
    }
}

#[test]
fn varint_length_values() {
    assert_eq!(varint::length(0), 1);
    assert_eq!(varint::length(127), 1);
    assert_eq!(varint::length(128), 2);
    assert_eq!(varint::length(300), 2);
    assert_eq!(varint::length(234941233), 4);
    assert_eq!(varint::length(u64::MAX), 10);
}

#[test]
fn varint_known_encodings() {
    let mut buf = vec![0u8; 10];
    varint::encode_with_offset(300, &mut buf, 0);
    assert_eq!(&buf[0..2], &[0xac, 0x02]);
    varint::encode_with_offset(234941233, &mut buf, 0);
    assert_eq!(&buf[0..4], &[0xb1, 0xd6, 0x83, 0x70]);
}

#[test]
fn varint_decode_rejects_unterminated() {
    // every byte carries the continuation bit: no varint ends in the buffer
    let buf = vec![0x80u8, 0x81, 0xff];
    assert_eq!(varint::decode_with_offset(&buf, 0), None);
    // ten continuation bytes: no 64-bit value has so long an encoding
    let buf = vec![0xffu8; 11];
    assert_eq!(varint::decode_with_offset(&buf, 0), None);
}

#[test]
fn point_round_trip_quantized() {
    let coords: Vec<f64> = vec![0.0, 31.1847994, -179.9999999, 89.9999999, -0.00000005, 12.5];
    for &c in coords.iter() {
        let q = quantize(c);
        let mut buf = vec![0u8; 6];
        let n = point::encode_with_offset(q, &mut buf, 1);
        assert_eq!(n, 4);
        let back = point::decode_with_offset(&buf, 1);
        assert_eq!(back, q);
        // quantization error stays within half of one 1e-7 step
        assert!((back as f64 / 1e7 - c).abs() <= 5e-8);
    }
}

#[test]
fn point_known_encoding() {
    let mut buf = vec![0u8; 8];
    point::encode_with_offset(10_000_000, &mut buf, 0);
    assert_eq!(&buf[0..4], &[0x80, 0x96, 0x98, 0x00]);
    point::encode_with_offset(-25_000_000, &mut buf, 4);
    assert_eq!(&buf[4..8], &[0xc0, 0x87, 0x82, 0xfe]);
}

#[test]
fn label_written_verbatim() {
    let label = vec![7u8, 8, 9];
    let mut buf = vec![0u8; 5];
    let n = georender::label::encode_with_offset(&label, &mut buf, 2);
    assert_eq!(n, 3);
    assert_eq!(buf, vec![0u8, 0, 7, 8, 9]);
}

#[test]
fn node_record_exact() {
    let n = PeerNode::new(5, 7, vec![9], quantize(1.0), quantize(-2.5));
    let bytes = n.to_bytes_le();
    assert_eq!("01070580969800c08782fe09", hex::encode(bytes));
}

#[test]
fn line_record_exact() {
    let line = PeerLine::new(3, 2, Vec::new(), vec![(100, -200), (300, 400)]);
    let bytes = line.to_bytes_le();
    assert_eq!("020203026400000038ffffff2c01000090010000", hex::encode(bytes));
}

#[test]
fn peer_area() {
    let positions: Vec<(f64, f64)> = vec![
        (31.184799400000003, 29.897739500000004),
        (31.184888100000002, 29.898801400000004),
        (31.184858400000003, 29.8983899),
        (31.184799400000003, 29.897739500000004),
    ];
    let quantized: Vec<(i32, i32)> = positions.iter().map(|p| (quantize(p.0), quantize(p.1))).collect();
    let id: u64 = 234941233;
    // feature class and label as the external classifier reports them for
    // tags {source=bing, boundary=protected_area, tiger:cfcc=A41}
    let typ: u64 = 174;
    let label: Vec<u8> = vec![0];
    let cells: Vec<u64> = vec![1, 2, 0];
    let area = PeerArea::new(id, typ, label, quantized);
    let bytes = area.to_bytes_le(&cells);
    assert_eq!(
        "03ae01b1d68370043a6c96127308d211b16f9612ee31d211886e9612db21d2113a6c96127308d2110101020000",
        hex::encode(bytes)
    );
}

#[test]
fn area_with_triangulation() {
    // a unit square, triangulated by the external collaborator
    let ring: Vec<f64> = vec![0.0, 0.0, 1.0, 0.0, 1.0, 1.0, 0.0, 1.0];
    let holes: Vec<usize> = Vec::new();
    let raw = earcutr::earcut(&ring, &holes, 2).unwrap();
    assert_eq!(raw.len() % 3, 0);
    assert_eq!(raw.len(), 6);
    let cells: Vec<u64> = raw.iter().map(|&c| c as u64).collect();
    let quantized: Vec<(i32, i32)> = vec![
        (0, 0),
        (quantize(1.0), 0),
        (quantize(1.0), quantize(1.0)),
        (0, quantize(1.0)),
    ];
    let area = PeerArea::new(9, 1, vec![42], quantized);
    let bytes = area.to_bytes_le(&cells);
    // tag + typ + id + count + 4 positions + triangle count + 6 indices + label
    assert_eq!(bytes.len(), 1 + 1 + 1 + 1 + 32 + 1 + 6 + 1);
    assert_eq!(bytes[0], 3);
    // triangle-triplet count: two triangles
    assert_eq!(bytes[36], 2);
}
