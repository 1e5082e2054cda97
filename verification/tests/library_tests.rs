use std::collections::{BTreeMap, HashMap};

use smoldata::object::{ObjectValue, StructValue};
use smoldata::raw::RawValue;
use smoldata::reader::{
    Primitive, ReadError, Reader, ReaderInitError, ValueReading, ValueTypeRequirement,
};
use smoldata::str::{RefArcStr, SdString};
use smoldata::tag::{IntegerTag, Tag, TagType};
use smoldata::writer::{WriteError, Writer};
use smoldata::{
    from_raw, read_from_bytes, write_into_bytes, write_into_raw, SmolRead, SmolWrite,
    FORMAT_VERSION, MAGIC_HEADER,
};

fn headerless_reader(bytes: &[u8]) -> Reader<'_> {
    Reader::new_headerless(bytes, FORMAT_VERSION)
}

#[test]
fn test_header_bytes() {
    let bytes = write_into_bytes(&()).unwrap();
    assert_eq!(bytes.len(), 4);
    assert_eq!(&bytes[..2], &MAGIC_HEADER);
    assert_eq!(bytes[2], 0);
    assert_eq!(bytes[3], TagType::Unit.into_u8());
    assert_eq!(read_from_bytes::<()>(&bytes).unwrap(), ());
}

#[test]
fn test_stream_reads_back_what_was_written() {
    let tags: Vec<Tag<'static>> = vec![
        Tag::Unit,
        Tag::Unit,
        Tag::Unit,
        Tag::Bool(true),
        Tag::Str(RefArcStr::Str("abc")),
        Tag::Str(RefArcStr::Str("abc")),
        Tag::Integer(IntegerTag::U64(1 << 40)),
        Tag::Integer(IntegerTag::I16(-300)),
        Tag::Array { len: None },
        Tag::Char('x'),
        Tag::F64(f64::NAN.to_bits()),
    ];
    let mut writer = Writer::new_headerless();
    for t in &tags {
        writer.write_tag(t.clone()).unwrap();
    }
    writer.write_seq_end();
    writer.write_str("field").unwrap();
    writer.write_raw(&[1, 2, 3]);
    let bytes = writer.finish();

    let mut reader = headerless_reader(&bytes);
    for t in &tags {
        let got = reader.read_tag().unwrap();
        assert!(got.eq_with_nan(t));
    }
    assert!(reader.read_seq_end().unwrap());
    assert_eq!(reader.read_str().unwrap(), "field");
    assert_eq!(reader.read_raw(3).unwrap(), vec![1, 2, 3]);
    assert_eq!(reader.finish(), bytes.len());
}

#[test]
fn test_repeat_markers() {
    let mut writer = Writer::new_headerless();
    writer.write_tag(Tag::Unit).unwrap();
    writer.write_tag(Tag::Unit).unwrap();
    assert_eq!(writer.finish(), vec![TagType::Unit.into_u8(), TagType::RepeatTag.into_u8()]);

    let mut writer = Writer::new_headerless();
    for _ in 0..5 {
        writer.write_tag(Tag::Unit).unwrap();
    }
    let bytes = writer.finish();
    assert_eq!(bytes, vec![TagType::Unit.into_u8(), TagType::RepeatTagMany.into_u8(), 2]);

    let mut reader = headerless_reader(&bytes);
    for _ in 0..5 {
        assert!(reader.read_tag().unwrap().eq_with_nan(&Tag::Unit));
    }
    assert!(matches!(*reader.read_tag().unwrap_err(), ReadError::UnexpectedEof));
}

#[test]
fn test_header_errors() {
    assert!(matches!(Reader::new(&[0x73]), Err(ReaderInitError::UnexpectedEof)));
    assert!(matches!(Reader::new(b"xy\0"), Err(ReaderInitError::InvalidMagic)));
    assert!(matches!(Reader::new(&[0x73, 0x64, 0x01]), Err(ReaderInitError::UnsupportedVersion(1))));
    assert!(matches!(*read_from_bytes::<u8>(b"xy\0").unwrap_err(), ReadError::InvalidMagic));
    let reader = Reader::new(&[0x73, 0x64, 0x00]).unwrap();
    assert_eq!(reader.format_version(), FORMAT_VERSION);
}

#[test]
fn test_tag_errors() {
    let e = headerless_reader(&[0xfe]).read_tag().unwrap_err();
    assert!(matches!(*e, ReadError::InvalidTag(0xfe)));

    let e = headerless_reader(&[TagType::RepeatTag.into_u8()]).read_tag().unwrap_err();
    assert!(matches!(*e, ReadError::NothingToRepeat));

    let e = headerless_reader(&[TagType::Str.into_u8(), 0x05]).read_tag().unwrap_err();
    assert!(matches!(*e, ReadError::InvalidStringReference(5)));

    let e = headerless_reader(&[TagType::End.into_u8()]).read_tag().unwrap_err();
    assert!(matches!(*e, ReadError::UnexpectedEnd));

    let e = headerless_reader(&[TagType::U32.into_u8(), 0x01]).read_tag().unwrap_err();
    assert!(matches!(*e, ReadError::UnexpectedEof));
}

#[test]
fn test_string_contents() {
    let bytes = [TagType::StrDirect.into_u8(), 2, b'h', b'i'];
    let mut reader = headerless_reader(&bytes);
    assert_eq!(String::read(reader.read()).unwrap(), "hi");

    let bytes = [TagType::StrDirect.into_u8(), 2, 0xff, 0xfe];
    let mut reader = headerless_reader(&bytes);
    assert!(matches!(*String::read(reader.read()).unwrap_err(), ReadError::InvalidString));
}

#[test]
fn test_char_values() {
    let mut bytes = vec![TagType::Char32.into_u8()];
    bytes.extend_from_slice(&0xE9u32.to_le_bytes());
    let mut reader = headerless_reader(&bytes);
    assert_eq!(char::read(reader.read()).unwrap(), '\u{e9}');

    let mut bytes = vec![TagType::Char32.into_u8()];
    bytes.extend_from_slice(&0xD800u32.to_le_bytes());
    let mut reader = headerless_reader(&bytes);
    assert!(matches!(*char::read(reader.read()).unwrap_err(), ReadError::InvalidChar(0xD800)));
}

#[test]
fn test_wrong_type() {
    let bytes = write_into_bytes(&true).unwrap();
    let e = read_from_bytes::<u8>(&bytes).unwrap_err();
    assert!(matches!(*e, ReadError::UnexpectedValueForType(_)));
    let bytes = write_into_bytes(&(1u8, 2u8)).unwrap();
    let e = read_from_bytes::<(u8, u8, u8)>(&bytes).unwrap_err();
    assert!(matches!(*e, ReadError::UnexpectedLength { expected: 3, got: 2, .. }));
}

#[test]
fn test_integers_round_trip() {
    let values: Vec<i64> = vec![0, 1, -1, 63, -64, 300, -300, i64::MAX, i64::MIN];
    let bytes = write_into_bytes(&values).unwrap();
    assert_eq!(read_from_bytes::<Vec<i64>>(&bytes).unwrap(), values);
    let values: Vec<u128> = vec![0, 127, 128, u128::MAX];
    let bytes = write_into_bytes(&values).unwrap();
    assert_eq!(read_from_bytes::<Vec<u128>>(&bytes).unwrap(), values);
}

#[test]
fn test_raw_value_copies_whole_map() {
    let mut writer = Writer::new_headerless();
    {
        let mut tuple = writer.write().write_tuple(2).unwrap();
        let mut map = tuple.write_value().write_map(Some(2)).unwrap();
        {
            let mut pair = map.write_pair();
            1i32.write(pair.write_key()).unwrap();
            "one".to_string().write(pair.write_value()).unwrap();
        }
        {
            let mut pair = map.write_pair();
            2i32.write(pair.write_key()).unwrap();
            "two".to_string().write(pair.write_value()).unwrap();
        }
        map.finish().unwrap();
        7u8.write(tuple.write_value()).unwrap();
    }
    let bytes = writer.finish();

    let mut reader = headerless_reader(&bytes);
    let reading = reader.read().read().unwrap();
    let mut tuple = reading.take_tuple().unwrap();
    let raw = RawValue::read(tuple.read_value().unwrap()).unwrap();
    assert_eq!(u8::read(tuple.read_value().unwrap()).unwrap(), 7);
    assert_eq!(reader.finish(), bytes.len());

    let map: HashMap<i32, String> = from_raw(&raw).unwrap();
    assert_eq!(map.len(), 2);
    assert_eq!(map[&1], "one");
    assert_eq!(map[&2], "two");
}

#[test]
fn test_raw_value_bytes() {
    let values = vec![1u32, 2, 3];
    let raw = write_into_raw(&values).unwrap();
    let bytes = raw.bytes().to_vec();
    assert_eq!(bytes[0], TagType::LenArray.into_u8());
    assert_eq!(from_raw::<Vec<u32>>(&raw).unwrap(), values);
    let boxed = raw.into_bytes();
    assert_eq!(boxed.to_vec(), bytes);
    let raw = RawValue::from_bytes(boxed);
    assert_eq!(raw.bytes(), &bytes[..]);

    let mut writer = Writer::new();
    raw.write(writer.write()).unwrap();
    let out = writer.finish();
    assert_eq!(read_from_bytes::<Vec<u32>>(&out).unwrap(), values);
}

#[test]
fn test_raw_value_refused_data() {
    let unit = TagType::Unit.into_u8();
    let raw = RawValue::from_bytes(vec![unit, unit].into_boxed_slice());
    let mut writer = Writer::new();
    assert!(matches!(raw.write(writer.write()), Err(WriteError::RawValueTrailingData)));

    let raw = RawValue::from_bytes(vec![0xfe].into_boxed_slice());
    let mut writer = Writer::new();
    assert!(matches!(raw.write(writer.write()), Err(WriteError::InvalidRawValueData(_))));

    let raw = RawValue::from_bytes(Vec::new().into_boxed_slice());
    let mut writer = Writer::new();
    assert!(matches!(raw.write(writer.write()), Err(WriteError::InvalidRawValueData(_))));
}

fn sample_object() -> ObjectValue {
    ObjectValue::Struct(StructValue::Struct(vec![
        ("a".to_string(), ObjectValue::Primitive(Primitive::U8(5))),
        ("b".to_string(), ObjectValue::String(SdString::Owned("text".to_string()))),
        (
            "c".to_string(),
            ObjectValue::Array(vec![
                ObjectValue::Primitive(Primitive::I32(-7)),
                ObjectValue::Primitive(Primitive::I32(-7)),
                ObjectValue::Primitive(Primitive::Unit),
            ]),
        ),
        (
            "d".to_string(),
            ObjectValue::Mapping(vec![(
                ObjectValue::Primitive(Primitive::Char('k')),
                ObjectValue::Option(Some(Box::new(ObjectValue::Bytes(vec![9, 8, 7])))),
            )]),
        ),
        (
            "e".to_string(),
            ObjectValue::Enum(
                "Variant".to_string(),
                StructValue::Tuple(vec![
                    ObjectValue::Tuple(vec![ObjectValue::Option(None)]),
                    ObjectValue::String(SdString::Empty),
                ]),
            ),
        ),
    ]))
}

#[test]
fn test_object_value_round_trip() {
    let object = sample_object();
    let bytes = write_into_bytes(&object).unwrap();
    let read: ObjectValue = read_from_bytes(&bytes).unwrap();
    assert_eq!(write_into_bytes(&read).unwrap(), bytes);
    match read {
        ObjectValue::Struct(StructValue::Struct(fields)) => {
            let names: Vec<&str> = fields.iter().map(|f| f.0.as_str()).collect();
            assert_eq!(names, vec!["a", "b", "c", "d", "e"]);
            assert!(matches!(fields[0].1, ObjectValue::Primitive(Primitive::U8(5))));
        }
        _ => panic!("not a struct"),
    }

    let raw = object.write_into_raw().unwrap();
    let again = ObjectValue::read_from_raw(&raw).unwrap();
    assert_eq!(write_into_raw(&again).unwrap().bytes(), raw.bytes());
}

#[test]
fn test_object_value_later_field_wins() {
    let mut writer = Writer::new();
    {
        let mut st = writer.write().write_struct(3).unwrap();
        1u8.write(st.write_field(RefArcStr::Str("a")).unwrap()).unwrap();
        2u8.write(st.write_field(RefArcStr::Str("b")).unwrap()).unwrap();
        3u8.write(st.write_field(RefArcStr::Str("a")).unwrap()).unwrap();
    }
    let bytes = writer.finish();
    match read_from_bytes::<ObjectValue>(&bytes).unwrap() {
        ObjectValue::Struct(StructValue::Struct(fields)) => {
            assert_eq!(fields.len(), 2);
            assert_eq!(fields[0].0, "a");
            assert!(matches!(fields[0].1, ObjectValue::Primitive(Primitive::U8(3))));
            assert_eq!(fields[1].0, "b");
            assert!(matches!(fields[1].1, ObjectValue::Primitive(Primitive::U8(2))));
        }
        _ => panic!("not a struct"),
    }
}

#[test]
fn test_object_value_unsized_array() {
    let mut writer = Writer::new();
    {
        let mut array = writer.write().write_array(None).unwrap();
        "x".to_string().write(array.write_value()).unwrap();
        "y".to_string().write(array.write_value()).unwrap();
        array.finish().unwrap();
    }
    let bytes = writer.finish();
    match read_from_bytes::<ObjectValue>(&bytes).unwrap() {
        ObjectValue::Array(values) => {
            assert_eq!(values.len(), 2);
            assert!(matches!(&values[1], ObjectValue::String(s) if s.as_str() == "y"));
        }
        _ => panic!("not an array"),
    }
}

#[test]
fn test_object_value_truncated_fails() {
    let raw = sample_object().write_into_raw().unwrap();
    let bytes = raw.bytes().to_vec();
    assert!(ObjectValue::read_from_raw(&raw).is_ok());
    for cut in 0..bytes.len() {
        let short = RawValue::from_bytes(bytes[..cut].to_vec().into_boxed_slice());
        assert!(ObjectValue::read_from_raw(&short).is_err(), "cut at {}", cut);
    }
}

#[test]
fn test_object_value_invalid_string_fails() {
    // A string long enough to be written as its length and its bytes.
    let long: String = std::iter::repeat('a').take(300).collect();
    let mut writer = Writer::new_headerless();
    long.write(writer.write()).unwrap();
    let mut bytes = writer.finish();
    let good = RawValue::from_bytes(bytes.clone().into_boxed_slice());
    assert!(ObjectValue::read_from_raw(&good).is_ok());
    let last = bytes.len() - 1;
    bytes[last] = 0xff;
    let result = ObjectValue::read_from_raw(&RawValue::from_bytes(bytes.into_boxed_slice()));
    assert!(matches!(result.map_err(|e| *e), Err(ReadError::InvalidString)));
}

#[test]
fn test_raw_value_reads_one_object_of_a_stream() {
    let mut writer = Writer::new_headerless();
    (1u8, "two".to_string()).write(writer.write()).unwrap();
    7u16.write(writer.write()).unwrap();
    let bytes = writer.finish();
    let mut reader = headerless_reader(&bytes);
    let raw = RawValue::read(reader.read()).unwrap();
    assert_eq!(from_raw::<(u8, String)>(&raw).unwrap(), (1u8, "two".to_string()));
    assert_eq!(u16::read(reader.read()).unwrap(), 7);
    assert_eq!(reader.finish(), bytes.len());
}

#[test]
fn test_tuple_wrong_length() {
    let bytes = write_into_bytes(&(1u8, 2u8, 3u8)).unwrap();
    let err = *read_from_bytes::<(u8, u8)>(&bytes).unwrap_err();
    assert!(matches!(
        err,
        ReadError::UnexpectedLength { expected: 2, got: 3, type_label: "tuple" }
    ));
    assert_eq!(read_from_bytes::<(u8, u8, u8)>(&bytes).unwrap(), (1, 2, 3));
}

#[test]
fn test_container_of_wrong_kind() {
    let bytes = write_into_bytes(&5u8).unwrap();
    match *read_from_bytes::<Vec<u8>>(&bytes).unwrap_err() {
        ReadError::UnexpectedValueForType(e) => {
            assert!(matches!(e.expected, ValueTypeRequirement::Array));
            assert_eq!(e.type_label, "Vec");
        }
        other => panic!("unexpected error {:?}", other),
    }
    match *read_from_bytes::<HashMap<u8, u8>>(&bytes).unwrap_err() {
        ReadError::UnexpectedValueForType(e) => {
            assert!(matches!(e.expected, ValueTypeRequirement::Mapping));
            assert_eq!(e.type_label, "HashMap");
        }
        other => panic!("unexpected error {:?}", other),
    }
}

#[test]
fn test_option_values() {
    let none: Option<u16> = None;
    let bytes = write_into_bytes(&none).unwrap();
    assert_eq!(read_from_bytes::<Option<u16>>(&bytes).unwrap(), None);
    let bytes = write_into_bytes(&Some(9u16)).unwrap();
    assert_eq!(read_from_bytes::<Option<u16>>(&bytes).unwrap(), Some(9));
    let raw = write_into_raw(&vec![Some(1u8), None]).unwrap();
    assert_eq!(from_raw::<Vec<Option<u8>>>(&raw).unwrap(), vec![Some(1u8), None]);
}

#[test]
fn test_empty_containers_read() {
    let empty: Vec<i32> = Vec::new();
    let bytes = write_into_bytes(&empty).unwrap();
    assert_eq!(read_from_bytes::<Vec<i32>>(&bytes).unwrap(), Vec::<i32>::new());

    let counted = [TagType::LenArray.into_u8(), 0];
    let mut reader = headerless_reader(&counted);
    assert!(Vec::<u8>::read(reader.read()).unwrap().is_empty());

    let unsized_array = [TagType::Array.into_u8(), TagType::End.into_u8()];
    let mut reader = headerless_reader(&unsized_array);
    assert!(Vec::<u8>::read(reader.read()).unwrap().is_empty());

    let counted_map = [TagType::LenMap.into_u8(), 0];
    let mut reader = headerless_reader(&counted_map);
    assert!(HashMap::<u8, u8>::read(reader.read()).unwrap().is_empty());

    let unsized_map = [TagType::Mapping.into_u8(), TagType::End.into_u8()];
    let mut reader = headerless_reader(&unsized_map);
    assert!(BTreeMap::<u8, u8>::read(reader.read()).unwrap().is_empty());
}

#[test]
fn test_string_reader_variants() {
    let bytes = [TagType::StrDirect.into_u8(), 2, b'h', b'i'];
    let mut reader = headerless_reader(&bytes);
    match reader.read().read().unwrap() {
        ValueReading::String(s) => match s.read().unwrap() {
            SdString::Owned(x) => assert_eq!(x, "hi"),
            other => panic!("unexpected string {:?}", other),
        },
        _ => panic!("not a string"),
    }

    let bytes = [TagType::EmptyStr.into_u8()];
    let mut reader = headerless_reader(&bytes);
    match reader.read().read().unwrap() {
        ValueReading::String(s) => assert!(matches!(s.read().unwrap(), SdString::Empty)),
        _ => panic!("not a string"),
    }

    let raw = write_into_raw(&"abc".to_string()).unwrap();
    let mut reader = headerless_reader(raw.bytes());
    match reader.read().read().unwrap() {
        ValueReading::String(s) => match s.read().unwrap() {
            SdString::Arc(x) => assert_eq!(x, "abc"),
            other => panic!("unexpected string {:?}", other),
        },
        _ => panic!("not a string"),
    }
}

#[test]
fn test_vectors_read_back_as_written() {
    let data: Vec<Option<i32>> = vec![Some(3), None, None, Some(-7), Some(-7)];
    let bytes = write_into_bytes(&data).unwrap();
    assert_eq!(read_from_bytes::<Vec<Option<i32>>>(&bytes).unwrap(), data);

    let nested: Vec<Vec<u16>> = vec![vec![], vec![1, 1, 1], vec![500]];
    let bytes = write_into_bytes(&nested).unwrap();
    assert_eq!(read_from_bytes::<Vec<Vec<u16>>>(&bytes).unwrap(), nested);

    let pairs: Vec<(i32, bool)> = vec![(1, true), (1, true), (-2, false)];
    let bytes = write_into_bytes(&pairs).unwrap();
    assert_eq!(read_from_bytes::<Vec<(i32, bool)>>(&bytes).unwrap(), pairs);

    let words: Vec<String> = vec![String::new(), "ab".to_string(), "ab".to_string()];
    let bytes = write_into_bytes(&words).unwrap();
    assert_eq!(read_from_bytes::<Vec<String>>(&bytes).unwrap(), words);
}

#[test]
fn test_arrays_read() {
    let bytes = write_into_bytes(&[1u8, 2, 3]).unwrap();
    assert_eq!(read_from_bytes::<[u8; 3]>(&bytes).unwrap(), [1u8, 2, 3]);

    let bytes = write_into_bytes(&vec![1u8, 2]).unwrap();
    match *read_from_bytes::<[u8; 3]>(&bytes).unwrap_err() {
        ReadError::UnexpectedLength { expected, got, type_label } => {
            assert_eq!((expected, got, type_label), (3, 2, "array"));
        }
        other => panic!("unexpected error {:?}", other),
    }

    let too_many = [
        TagType::Array.into_u8(),
        TagType::U8.into_u8(),
        1,
        TagType::U8.into_u8(),
        2,
        TagType::End.into_u8(),
    ];
    let mut reader = headerless_reader(&too_many);
    match *<[u8; 1]>::read(reader.read()).unwrap_err() {
        ReadError::UnexpectedLength { expected, got, .. } => assert_eq!((expected, got), (1, 2)),
        other => panic!("unexpected error {:?}", other),
    }

    let too_few = [TagType::Array.into_u8(), TagType::U8.into_u8(), 1, TagType::End.into_u8()];
    let mut reader = headerless_reader(&too_few);
    match *<[u8; 2]>::read(reader.read()).unwrap_err() {
        ReadError::UnexpectedLength { expected, got, .. } => assert_eq!((expected, got), (2, 1)),
        other => panic!("unexpected error {:?}", other),
    }

    let mut reader = headerless_reader(&too_few);
    assert_eq!(<[u8; 1]>::read(reader.read()).unwrap(), [1u8]);
}

#[test]
fn test_stream_is_header_then_object() {
    let data: Vec<Option<i32>> = vec![Some(1), Some(1), None];
    let stream = write_into_bytes(&data).unwrap();
    let raw = write_into_raw(&data).unwrap();
    let mut expected = vec![0x73u8, 0x64, 0x00];
    expected.extend_from_slice(raw.bytes());
    assert_eq!(stream, expected);
}

#[test]
fn test_struct_of_equal_field_values_reads_back() {
    let mut writer = Writer::new();
    {
        let mut st = writer.write().write_struct(3).unwrap();
        1u8.write(st.write_field(RefArcStr::Str("a")).unwrap()).unwrap();
        1u8.write(st.write_field(RefArcStr::Str("b")).unwrap()).unwrap();
        1u8.write(st.write_field(RefArcStr::Str("c")).unwrap()).unwrap();
    }
    let bytes = writer.finish();
    match read_from_bytes::<ObjectValue>(&bytes).unwrap() {
        ObjectValue::Struct(StructValue::Struct(fields)) => {
            let names: Vec<&str> = fields.iter().map(|f| f.0.as_str()).collect();
            assert_eq!(names, vec!["a", "b", "c"]);
            for f in fields.iter() {
                assert!(matches!(f.1, ObjectValue::Primitive(Primitive::U8(1))));
            }
        }
        _ => panic!("not a struct"),
    }

    let object = ObjectValue::Struct(StructValue::Struct(vec![
        ("a".to_string(), ObjectValue::Primitive(Primitive::U8(1))),
        ("b".to_string(), ObjectValue::Primitive(Primitive::U8(1))),
        ("c".to_string(), ObjectValue::Primitive(Primitive::U8(1))),
    ]));
    let raw = object.write_into_raw().unwrap();
    let again = ObjectValue::read_from_raw(&raw).unwrap();
    assert_eq!(write_into_raw(&again).unwrap().bytes(), raw.bytes());
}

#[test]
fn test_maps_hold_the_pairs_read() {
    let mut writer = Writer::new();
    {
        let mut map = writer.write().write_map(Some(3)).unwrap();
        for (k, v) in [(1u8, 10u16), (2, 20), (1, 30)] {
            let mut pair = map.write_pair();
            k.write(pair.write_key()).unwrap();
            v.write(pair.write_value()).unwrap();
        }
        map.finish().unwrap();
    }
    let bytes = writer.finish();

    let hashed = read_from_bytes::<HashMap<u8, u16>>(&bytes).unwrap();
    assert_eq!(hashed.len(), 2);
    assert_eq!(hashed[&1], 30);
    assert_eq!(hashed[&2], 20);

    let ordered = read_from_bytes::<BTreeMap<u8, u16>>(&bytes).unwrap();
    assert_eq!(ordered.into_iter().collect::<Vec<_>>(), vec![(1u8, 30u16), (2, 20)]);
}

#[test]
fn test_option_write_none() {
    let mut writer = Writer::new_headerless();
    None::<u8>.write(writer.write()).unwrap();
    assert_eq!(writer.finish(), vec![TagType::Absent.into_u8()]);
}
