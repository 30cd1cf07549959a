use binwire::{ByteSource, ReadExt, WireMap, WriteExt};

#[test]
fn u8_round_trip() {
    let test_value: u8 = 222_u8;
    let mut sink: Vec<u8> = Vec::new();
    sink.write_ext(&test_value).expect("write to sink");
    let mut source = ByteSource::new(sink);
    let out: u8 = source.read_ext().expect("read from source");
    assert_eq!(test_value, out);
}

#[test]
fn u16_round_trip() {
    let test_value: u16 = 2222_u16;
    let mut sink: Vec<u8> = Vec::new();
    sink.write_ext(&test_value).expect("write to sink");
    let mut source = ByteSource::new(sink);
    let out: u16 = source.read_ext().expect("read from source");
    assert_eq!(test_value, out);
}

#[test]
fn u32_round_trip() {
    let test_value: u32 = 222222_u32;
    let mut sink: Vec<u8> = Vec::new();
    sink.write_ext(&test_value).expect("write to sink");
    let mut source = ByteSource::new(sink);
    let out: u32 = source.read_ext().expect("read from source");
    assert_eq!(test_value, out);
}

#[test]
fn u64_round_trip() {
    let test_value: u64 = 22_222_222_222_u64;
    let mut sink: Vec<u8> = Vec::new();
    sink.write_ext(&test_value).expect("write to sink");
    let mut source = ByteSource::new(sink);
    let out: u64 = source.read_ext().expect("read from source");
    assert_eq!(test_value, out);
}

#[test]
fn usize_round_trip() {
    let test_value: usize = 2222_usize;
    let mut sink: Vec<u8> = Vec::new();
    sink.write_ext(&test_value).expect("write to sink");
    let mut source = ByteSource::new(sink);
    let out: usize = source.read_ext().expect("read from source");
    assert_eq!(test_value, out);
}

#[test]
fn string_round_trip() {
    let test_value: &str = "TEST_VALUE";
    let mut sink: Vec<u8> = Vec::new();
    sink.write_ext(&String::from(test_value)).expect("write to sink");
    let mut source = ByteSource::new(sink);
    let out: String = source.read_ext().expect("read from source");
    println!("Output string: {}", out);
    assert_eq!(test_value, &out[..]);
}

#[test]
fn vec_round_trip() {
    let test_value: Vec<&str> = vec!["TEST", "VALUE"];
    let mut sink: Vec<u8> = Vec::new();
    sink.write_ext(&test_value).expect("write to sink");
    let mut source = ByteSource::new(sink);
    let out: Vec<String> = source.read_ext().expect("read from source");
    assert_eq!(test_value.len(), out.len());
    for (idx, original_value) in test_value.iter().enumerate() {
        assert_eq!(original_value, &out[idx]);
    }
}

#[test]
fn hash_map_round_trip() {
    let mut test_value: WireMap<u8, &str> = WireMap::new();
    test_value.insert(22_u8, "TEST");
    test_value.insert(254_u8, "VALUE");
    let mut sink: Vec<u8> = Vec::new();
    sink.write_ext(&test_value).expect("write to sink");
    let mut source = ByteSource::new(sink);
    let out: WireMap<u8, String> = source.read_ext().expect("read from source");
    assert_eq!(test_value.len(), out.len());
    assert_eq!(Some("TEST"), out.get(&22_u8).map(|res| &res[..]));
    assert_eq!(Some("VALUE"), out.get(&254_u8).map(|res| &res[..]));
}

#[test]
fn integer_extremes_round_trip() {
    let values_u8: Vec<u8> = vec![u8::MIN, 7, u8::MAX];
    let values_u16: Vec<u16> = vec![u16::MIN, 2222, u16::MAX];
    let values_u32: Vec<u32> = vec![u32::MIN, 222222, u32::MAX];
    let values_u64: Vec<u64> = vec![u64::MIN, 22_222_222_222, u64::MAX];
    let mut sink: Vec<u8> = Vec::new();
    sink.write_ext(&values_u8).expect("write to sink");
    sink.write_ext(&values_u16).expect("write to sink");
    sink.write_ext(&values_u32).expect("write to sink");
    sink.write_ext(&values_u64).expect("write to sink");
    let mut source = ByteSource::new(sink);
    let out_u8: Vec<u8> = source.read_ext().expect("read from source");
    let out_u16: Vec<u16> = source.read_ext().expect("read from source");
    let out_u32: Vec<u32> = source.read_ext().expect("read from source");
    let out_u64: Vec<u64> = source.read_ext().expect("read from source");
    assert_eq!(values_u8, out_u8);
    assert_eq!(values_u16, out_u16);
    assert_eq!(values_u32, out_u32);
    assert_eq!(values_u64, out_u64);
    assert_eq!(0, source.remaining_len());
}

#[test]
fn empty_and_multibyte_string_round_trip() {
    let empty = String::new();
    let ascii = String::from("plain ascii");
    let multibyte = String::from("caf\u{e9} \u{3b1}\u{3b2}\u{3b3} \u{1f600}");
    let mut sink: Vec<u8> = Vec::new();
    sink.write_ext(&empty).expect("write to sink");
    sink.write_ext(&ascii).expect("write to sink");
    sink.write_ext(&multibyte).expect("write to sink");
    let mut source = ByteSource::new(sink);
    let out_empty: String = source.read_ext().expect("read from source");
    let out_ascii: String = source.read_ext().expect("read from source");
    let out_multibyte: String = source.read_ext().expect("read from source");
    assert_eq!(empty, out_empty);
    assert_eq!(ascii, out_ascii);
    assert_eq!(multibyte, out_multibyte);
}

#[test]
fn empty_containers_round_trip() {
    let empty_vec: Vec<String> = Vec::new();
    let empty_map: WireMap<u8, String> = WireMap::new();
    let mut sink: Vec<u8> = Vec::new();
    sink.write_ext(&empty_vec).expect("write to sink");
    sink.write_ext(&empty_map).expect("write to sink");
    assert_eq!(16, sink.len());
    let mut source = ByteSource::new(sink);
    let out_vec: Vec<String> = source.read_ext().expect("read from source");
    let out_map: WireMap<u8, String> = source.read_ext().expect("read from source");
    assert_eq!(0, out_vec.len());
    assert_eq!(0, out_map.len());
}

#[test]
fn bool_and_option_round_trip() {
    let mut sink: Vec<u8> = Vec::new();
    sink.write_ext(&true).expect("write to sink");
    sink.write_ext(&false).expect("write to sink");
    sink.write_ext(&Some(7_u16)).expect("write to sink");
    sink.write_ext(&None::<u16>).expect("write to sink");
    assert_eq!(vec![1, 0, 1, 7, 0, 0], sink);
    let mut source = ByteSource::new(sink);
    let out_true: bool = source.read_ext().expect("read from source");
    let out_false: bool = source.read_ext().expect("read from source");
    let out_some: Option<u16> = source.read_ext().expect("read from source");
    let out_none: Option<u16> = source.read_ext().expect("read from source");
    assert_eq!(true, out_true);
    assert_eq!(false, out_false);
    assert_eq!(Some(7_u16), out_some);
    assert_eq!(None, out_none);
}

#[test]
fn box_round_trip() {
    let boxed: Box<u32> = Box::new(222222_u32);
    let slice: Box<[u16]> = vec![1_u16, 2, 3].into_boxed_slice();
    let mut sink: Vec<u8> = Vec::new();
    sink.write_ext(&boxed).expect("write to sink");
    sink.write_ext(&slice).expect("write to sink");
    let mut source = ByteSource::new(sink);
    let out_boxed: Box<u32> = source.read_ext().expect("read from source");
    let out_slice: Box<[u16]> = source.read_ext().expect("read from source");
    assert_eq!(222222_u32, *out_boxed);
    assert_eq!(vec![1_u16, 2, 3].into_boxed_slice(), out_slice);
}

#[test]
fn duplicate_keys_resolve_last_write_wins() {
    let mut map: WireMap<u8, u16> = WireMap::new();
    map.insert(5, 100);
    map.insert(5, 200);
    assert_eq!(1, map.len());
    assert_eq!(Some(&200), map.get(&5));
    assert_eq!(&vec![(5_u8, 200_u16)], map.entries());
    let mut sink: Vec<u8> = Vec::new();
    sink.write_ext(&map).expect("write to sink");
    assert_eq!(vec![1, 0, 0, 0, 0, 0, 0, 0, 5, 200, 0], sink);
    let mut source = ByteSource::new(sink);
    let out: WireMap<u8, u16> = source.read_ext().expect("read from source");
    assert_eq!(1, out.len());
    assert_eq!(Some(&200), out.get(&5));
    assert_eq!(None, out.get(&6));
}

#[test]
fn duplicate_keys_on_the_wire_collapse() {
    let stream: Vec<u8> = vec![2, 0, 0, 0, 0, 0, 0, 0, 5, 100, 0, 5, 200, 0];
    let mut source = ByteSource::new(stream);
    let out: WireMap<u8, u16> = source.read_ext().expect("read from source");
    assert_eq!(1, out.len());
    assert_eq!(Some(&200), out.get(&5));
    assert_eq!(&vec![(5_u8, 200_u16)], out.entries());
    assert_eq!(0, source.remaining_len());
}
