use muse_lib::ebml::EbmlBuilder;

#[test]
fn test_vint_encoding() {
    // Test 1-byte encoding
    let mut ebml = EbmlBuilder::new();
    ebml.vint(0x7F, false);
    assert_eq!(ebml.as_slice(), &[0xFF]);

    // Test 2-byte encoding
    let mut ebml = EbmlBuilder::new();
    ebml.vint(0x3FFF, false);
    assert_eq!(ebml.as_slice(), &[0x7F, 0xFF]);

    // Test 3-byte encoding
    let mut ebml = EbmlBuilder::new();
    ebml.vint(0x1FFFFF, false);
    assert_eq!(ebml.as_slice(), &[0x3F, 0xFF, 0xFF]);
}

#[test]
fn test_size_encoding() {
    let mut ebml = EbmlBuilder::new();
    ebml.size(126);
    // With disallow_all_ones, max 1-byte is 126
    assert_eq!(ebml.as_slice(), &[0xFE]);

    let mut ebml = EbmlBuilder::new();
    ebml.size(127);
    // 127 exceeds 1-byte max with disallow_all_ones, so uses 2 bytes
    assert_eq!(ebml.as_slice().len(), 2);
    assert_eq!(ebml.as_slice(), &[0x40, 0x7F]);
}

#[test]
fn test_integer_encoding() {
    let mut ebml = EbmlBuilder::new();
    ebml.u1(0x42).u2(0x1234).u4(0xDEADBEEF);

    assert_eq!(
        ebml.as_slice(),
        &[0x42, 0x12, 0x34, 0xDE, 0xAD, 0xBE, 0xEF]
    );
}

#[test]
fn test_float_encoding() {
    let mut ebml = EbmlBuilder::new();
    ebml.f4(1.0f32.to_bits());
    assert_eq!(ebml.as_slice(), &[0x3F, 0x80, 0x00, 0x00]);

    let mut ebml = EbmlBuilder::new();
    ebml.f8(1.0f64.to_bits());
    assert_eq!(ebml.as_slice(), &[0x3F, 0xF0, 0x00, 0x00, 0x00, 0x00, 0x00, 0x00]);
}

#[test]
fn test_bytes() {
    let mut ebml = EbmlBuilder::new();
    ebml.bytes(b"hello");
    assert_eq!(ebml.as_slice(), b"hello");
}

#[test]
fn test_payload() {
    let mut child = EbmlBuilder::new();
    child.u1(0x42).u1(0x43);

    let mut parent = EbmlBuilder::new();
    parent.payload(&child);

    // Should be: size(2) + [0x42, 0x43]
    assert_eq!(parent.as_slice()[0], 0x82); // vint(2) = 0x82
    assert_eq!(&parent.as_slice()[1..], &[0x42, 0x43]);
}

#[test]
fn test_method_chaining() {
    let mut builder = EbmlBuilder::new();
    builder.u1(0x01)
        .u2(0x0203)
        .u4(0x04050607);

    let data = builder.build();
    assert_eq!(data, vec![0x01, 0x02, 0x03, 0x04, 0x05, 0x06, 0x07]);
}

#[test]
fn vint_takes_each_width_at_its_boundary() {
    let limits: [u64; 8] = [
        1 << 7,
        1 << 14,
        1 << 21,
        1 << 28,
        1 << 35,
        1 << 42,
        1 << 49,
        1 << 56,
    ];
    for (index, limit) in limits.iter().enumerate() {
        let width = index + 1;
        for disallow in [false, true] {
            let shift = if disallow { 1 } else { 0 };
            let last = limit - 1 - shift;
            let mut ebml = EbmlBuilder::new();
            ebml.vint(last, disallow);
            assert_eq!(ebml.len(), width);
            // The marker bit sits at position 7 * width.
            let mut value: u64 = 0;
            for byte in ebml.as_slice() {
                value = (value << 8) | *byte as u64;
            }
            assert_eq!(value, last | limit);
            if width < 8 {
                let mut next = EbmlBuilder::new();
                next.vint(last + 1, disallow);
                assert_eq!(next.len(), width + 1);
            }
        }
    }
}

#[test]
fn vint_of_zero_is_one_byte() {
    let mut ebml = EbmlBuilder::new();
    ebml.vint(0, false);
    assert_eq!(ebml.as_slice(), &[0x80]);
}

#[test]
fn vint_eight_bytes_exact() {
    let mut ebml = EbmlBuilder::new();
    ebml.vint(0x00FF_FFFF_FFFF_FFFE, true);
    assert_eq!(
        ebml.as_slice(),
        &[0x01, 0xFF, 0xFF, 0xFF, 0xFF, 0xFF, 0xFF, 0xFE]
    );
}

#[test]
fn u8_is_big_endian() {
    let mut ebml = EbmlBuilder::new();
    ebml.u8(0x0102_0304_0506_0708);
    assert_eq!(ebml.as_slice(), &[1, 2, 3, 4, 5, 6, 7, 8]);
}

#[test]
fn payload_multiple_sums_sizes() {
    let mut a = EbmlBuilder::new();
    a.u1(1).u1(2);
    let mut b = EbmlBuilder::new();
    b.u1(3);
    let empty = EbmlBuilder::new();
    let mut parent = EbmlBuilder::new();
    parent.u1(0xAE).payload_multiple(&[&a, &empty, &b]);
    assert_eq!(parent.as_slice(), &[0xAE, 0x83, 1, 2, 3]);

    let mut none = EbmlBuilder::new();
    none.payload_multiple(&[]);
    assert_eq!(none.as_slice(), &[0x80]);
}

#[test]
fn payload_of_127_bytes_takes_two_size_bytes() {
    let mut child = EbmlBuilder::new();
    child.bytes(&[7u8; 127]);
    let mut parent = EbmlBuilder::new();
    parent.payload(&child);
    assert_eq!(parent.len(), 129);
    assert_eq!(&parent.as_slice()[..2], &[0x40, 0x7F]);
}

#[test]
fn clear_and_reuse() {
    let mut builder = EbmlBuilder::with_capacity(8);
    assert!(builder.is_empty());
    builder.u2(0xABCD);
    assert!(!builder.is_empty());
    assert_eq!(builder.len(), 2);
    builder.clear();
    assert!(builder.is_empty());
    builder.u1(9);
    assert_eq!(builder.as_slice(), &[9]);
    let fresh = EbmlBuilder::default();
    assert_eq!(fresh.len(), 0);
}
