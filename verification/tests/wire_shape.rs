use binwire::{ByteSource, ReadExt, WireError, WriteExt};

#[test]
fn u16_exact_wire_bytes() {
    let mut sink: Vec<u8> = Vec::new();
    sink.write_ext(&2222_u16).expect("write to sink");
    assert_eq!(vec![0xAE_u8, 0x08], sink);
    let mut source = ByteSource::new(sink);
    let out: u16 = source.read_ext().expect("read from source");
    assert_eq!(2222_u16, out);
}

#[test]
fn string_exact_wire_bytes() {
    let mut sink: Vec<u8> = Vec::new();
    sink.write_ext(&String::from("TEST_VALUE")).expect("write to sink");
    let mut expected: Vec<u8> = vec![10, 0, 0, 0, 0, 0, 0, 0];
    expected.extend_from_slice(b"TEST_VALUE");
    assert_eq!(expected, sink);
    let mut source = ByteSource::new(sink);
    let out: String = source.read_ext().expect("read from source");
    assert_eq!("TEST_VALUE", &out[..]);
}

#[test]
fn length_prefix_decodes_to_element_count() {
    let values: Vec<String> = vec![String::from("TEST"), String::from("VALUE")];
    let mut sink: Vec<u8> = Vec::new();
    sink.write_ext(&values).expect("write to sink");
    let mut source = ByteSource::new(sink);
    let prefix: usize = source.read_ext().expect("read length prefix");
    assert_eq!(2, prefix);
}

#[test]
fn little_endian_byte_order() {
    let mut sink: Vec<u8> = Vec::new();
    sink.write_ext(&0x0102030405060708_u64).expect("write to sink");
    assert_eq!(vec![8, 7, 6, 5, 4, 3, 2, 1], sink);
    let mut sink32: Vec<u8> = Vec::new();
    sink32.write_ext(&0xA1B2C3D4_u32).expect("write to sink");
    assert_eq!(vec![0xD4, 0xC3, 0xB2, 0xA1], sink32);
}

#[test]
fn short_read_fails_exhausted() {
    let mut source = ByteSource::new(Vec::new());
    let out: Result<u8, WireError> = source.read_ext();
    assert_eq!(Err(WireError::Exhausted), out);

    let mut source = ByteSource::new(vec![0xAE]);
    let out: Result<u16, WireError> = source.read_ext();
    assert_eq!(Err(WireError::Exhausted), out);

    let mut source = ByteSource::new(vec![1, 2, 3, 4, 5, 6, 7]);
    let out: Result<u64, WireError> = source.read_ext();
    assert_eq!(Err(WireError::Exhausted), out);
    assert_eq!(7, source.remaining_len());
}

#[test]
fn truncated_string_fails_exhausted() {
    let mut sink: Vec<u8> = Vec::new();
    sink.write_ext(&String::from("TEST_VALUE")).expect("write to sink");
    sink.truncate(12);
    let mut source = ByteSource::new(sink);
    let out: Result<String, WireError> = source.read_ext();
    assert_eq!(Err(WireError::Exhausted), out);
}

#[test]
fn truncated_vec_fails_exhausted() {
    let values: Vec<u32> = vec![1, 2, 3];
    let mut sink: Vec<u8> = Vec::new();
    sink.write_ext(&values).expect("write to sink");
    sink.truncate(14);
    let mut source = ByteSource::new(sink);
    let out: Result<Vec<u32>, WireError> = source.read_ext();
    assert_eq!(Err(WireError::Exhausted), out);
}

#[test]
fn invalid_utf8_fails_and_consumes_declared_bytes() {
    let stream: Vec<u8> = vec![2, 0, 0, 0, 0, 0, 0, 0, 0xFF, 0xFE, 42];
    let mut source = ByteSource::new(stream);
    let out: Result<String, WireError> = source.read_ext();
    assert_eq!(Err(WireError::InvalidData), out);
    assert_eq!(1, source.remaining_len());
    let trailing: u8 = source.read_ext().expect("read byte after failed text");
    assert_eq!(42, trailing);
}

#[test]
fn nonzero_flag_reads_as_present() {
    let mut source = ByteSource::new(vec![7, 0xAE, 0x08]);
    let out: Option<u16> = source.read_ext().expect("read from source");
    assert_eq!(Some(2222_u16), out);
    let mut source = ByteSource::new(vec![9]);
    let out: bool = source.read_ext().expect("read from source");
    assert_eq!(true, out);
}
