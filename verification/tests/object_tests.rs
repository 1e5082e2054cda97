use std::collections::HashMap;
use std::fmt;

use smoldata::reader::{ReadError, ReadResult, Reader, StructReading, ValueReader};
use smoldata::str::RefArcStr;
use smoldata::writer::{ValueWriter, WriteError, Writer};
use smoldata::raw::RawValue;
use smoldata::{SmolRead, SmolReadWrite, SmolWrite, FORMAT_VERSION};

const VECTOR_FIELD_NAME: &str = "vector";

#[derive(Debug, PartialEq, Eq)]
enum Enum {
    A(i32),
    B,
    C(String, i32, u32),
    D { v: NoLenSerialize<u32> },
}

#[derive(PartialEq, Eq, Debug)]
struct Struct {
    values: HashMap<i32, String>,
    e: Vec<Enum>,
    tup: (bool, u128),
}

#[derive(Debug)]
struct StructWithRaw {
    values: HashMap<i32, String>,
    e: RawValue,
    tup: (bool, u128),
}

#[derive(PartialEq, Eq)]
struct NoLenSerialize<V>(Vec<V>);

#[derive(Debug, Clone, PartialEq, Eq)]
struct Bytes(Vec<u8>);

fn unexpected(name: &str) -> Box<ReadError> {
    Box::new(ReadError::UnexpectedEnumVariant { name: name.to_string(), type_label: "Enum" })
}

impl SmolWrite for Enum {
    fn write(&self, writer: ValueWriter) -> Result<(), WriteError> {
        match self {
            Enum::A(v) => v.write(writer.write_newtype_variant(RefArcStr::Str("A"))?),
            Enum::B => writer.write_unit_variant(RefArcStr::Str("B")),
            Enum::C(s, a, b) => {
                let mut tup = writer.write_tuple_variant(RefArcStr::Str("See"), 3)?;
                s.write(tup.write_value())?;
                a.write(tup.write_value())?;
                b.write(tup.write_value())?;
                Ok(())
            }
            Enum::D { v } => {
                let mut st = writer.write_struct_variant(RefArcStr::Str("D"), 1)?;
                v.write(st.write_field(RefArcStr::Str(VECTOR_FIELD_NAME))?)?;
                Ok(())
            }
        }
    }
}

impl SmolRead for Enum {
    fn read(reader: ValueReader) -> ReadResult<Self> {
        let reading = reader
            .read()?
            .take_enum()
            .map_err(|e| Box::new(ReadError::UnexpectedValueForType(e.with_type_name("Enum"))))?;
        let (name, variant) = reading.read_variant()?;
        let wrong = |e: smoldata::reader::UnexpectedValueError| {
            Box::new(ReadError::UnexpectedValueForVariant(e.with_variant_name("Enum", "variant")))
        };
        match name.as_str() {
            "A" => {
                let r = variant.take_newtype_variant().map_err(wrong)?;
                Ok(Enum::A(i32::read(r)?))
            }
            "B" => {
                variant.take_unit_variant().map_err(wrong)?;
                Ok(Enum::B)
            }
            "See" => {
                let mut t = variant.take_tuple_variant().map_err(wrong)?;
                if t.remaining() != 3 {
                    return Err(Box::new(ReadError::UnexpectedLength {
                        expected: 3,
                        got: t.remaining(),
                        type_label: "Enum::C",
                    }));
                }
                let s = String::read(t.read_value().unwrap())?;
                let a = i32::read(t.read_value().unwrap())?;
                let b = u32::read(t.read_value().unwrap())?;
                Ok(Enum::C(s, a, b))
            }
            "D" => {
                let mut st = variant.take_field_variant().map_err(wrong)?;
                let mut v = None;
                while let Some((field, r)) = st.read_field()? {
                    if field == VECTOR_FIELD_NAME {
                        v = Some(NoLenSerialize::read(r)?);
                    } else {
                        return Err(Box::new(ReadError::UnexpectedStructField {
                            name: field,
                            type_label: "Enum::D",
                        }));
                    }
                }
                match v {
                    Some(v) => Ok(Enum::D { v }),
                    None => Err(Box::new(ReadError::MissingStructField {
                        name: VECTOR_FIELD_NAME,
                        type_label: "Enum::D",
                    })),
                }
            }
            other => Err(unexpected(other)),
        }
    }
}

fn write_map(map: &HashMap<i32, String>, writer: ValueWriter) -> Result<(), WriteError> {
    let mut mw = writer.write_map(Some(map.len()))?;
    for (k, v) in map {
        let mut pair = mw.write_pair();
        k.write(pair.write_key())?;
        v.write(pair.write_value())?;
    }
    mw.finish()
}

impl SmolWrite for Struct {
    fn write(&self, writer: ValueWriter) -> Result<(), WriteError> {
        let mut st = writer.write_struct(3)?;
        write_map(&self.values, st.write_field(RefArcStr::Str("values"))?)?;
        self.e.write(st.write_field(RefArcStr::Str("e"))?)?;
        self.tup.write(st.write_field(RefArcStr::Str("tup"))?)?;
        Ok(())
    }
}

impl SmolRead for Struct {
    fn read(reader: ValueReader) -> ReadResult<Self> {
        let reading = reader.read()?;
        let mut st = match reading.take_any_struct() {
            Ok(StructReading::Struct(st)) => st,
            _ => {
                return Err(Box::new(ReadError::UnexpectedLength {
                    expected: 3,
                    got: 0,
                    type_label: "Struct",
                }))
            }
        };
        let mut values = None;
        let mut e = None;
        let mut tup = None;
        while let Some((field, r)) = st.read_field()? {
            match field.as_str() {
                "values" => values = Some(HashMap::<i32, String>::read(r)?),
                "e" => e = Some(Vec::<Enum>::read(r)?),
                "tup" => tup = Some(<(bool, u128)>::read(r)?),
                _ => {
                    return Err(Box::new(ReadError::UnexpectedStructField {
                        name: field,
                        type_label: "Struct",
                    }))
                }
            }
        }
        Ok(Struct {
            values: values.unwrap(),
            e: e.unwrap(),
            tup: tup.unwrap(),
        })
    }
}

impl SmolWrite for StructWithRaw {
    fn write(&self, writer: ValueWriter) -> Result<(), WriteError> {
        let mut st = writer.write_struct(3)?;
        write_map(&self.values, st.write_field(RefArcStr::Str("values"))?)?;
        self.e.write(st.write_field(RefArcStr::Str("e"))?)?;
        self.tup.write(st.write_field(RefArcStr::Str("tup"))?)?;
        Ok(())
    }
}

impl SmolRead for StructWithRaw {
    fn read(reader: ValueReader) -> ReadResult<Self> {
        let reading = reader.read()?;
        let mut st = match reading.take_any_struct() {
            Ok(StructReading::Struct(st)) => st,
            _ => {
                return Err(Box::new(ReadError::UnexpectedLength {
                    expected: 3,
                    got: 0,
                    type_label: "StructWithRaw",
                }))
            }
        };
        let mut values = None;
        let mut e = None;
        let mut tup = None;
        while let Some((field, r)) = st.read_field()? {
            match field.as_str() {
                "values" => values = Some(HashMap::<i32, String>::read(r)?),
                "e" => e = Some(RawValue::read(r)?),
                "tup" => tup = Some(<(bool, u128)>::read(r)?),
                _ => {
                    return Err(Box::new(ReadError::UnexpectedStructField {
                        name: field,
                        type_label: "StructWithRaw",
                    }))
                }
            }
        }
        Ok(StructWithRaw {
            values: values.unwrap(),
            e: e.unwrap(),
            tup: tup.unwrap(),
        })
    }
}

impl<V: SmolWrite> SmolWrite for NoLenSerialize<V> {
    fn write(&self, writer: ValueWriter) -> Result<(), WriteError> {
        let mut writer = writer.write_array(None)?;

        for i in &self.0 {
            i.write(writer.write_value())?;
        }

        writer.finish()
    }
}

impl<V: SmolRead> SmolRead for NoLenSerialize<V> {
    fn read(reader: ValueReader) -> ReadResult<Self> {
        Vec::read(reader).map(Self)
    }
}

impl<V: fmt::Debug> fmt::Debug for NoLenSerialize<V> {
    fn fmt(&self, f: &mut fmt::Formatter<'_>) -> fmt::Result {
        self.0.fmt(f)
    }
}

impl SmolWrite for Bytes {
    fn write(&self, writer: ValueWriter) -> Result<(), WriteError> {
        writer.write_bytes(&self.0)
    }
}

impl SmolRead for Bytes {
    fn read(reader: ValueReader) -> ReadResult<Self> {
        let bytes = reader
            .read()?
            .take_bytes()
            .map_err(|e| Box::new(ReadError::UnexpectedValueForType(e.with_type_name("Bytes"))))?;
        Ok(Self(bytes.read()?))
    }
}

fn hexdump(bytes: &[u8]) {
    for row in bytes.chunks(16) {
        let mut line = String::from("  ");
        for (col, b) in row.iter().enumerate() {
            line.push_str(&format!("{:02x} ", b));
            if col % 4 == 3 {
                line.push(' ');
            }
        }
        println!("{line}");
    }
}

fn test_reserialize<T: SmolReadWrite + Eq + fmt::Debug>(data: &T) {
    println!("Data before serializing: {data:?}");

    let mut writer = Writer::new();
    data.write(writer.write()).unwrap();
    let vec = writer.finish();

    hexdump(&vec);

    let mut reader = Reader::new(&vec).unwrap();
    let re = T::read(reader.read()).unwrap();
    reader.finish();

    println!("Data after deserializing: {re:?}");

    if &re != data {
        panic!("DATA DOESN'T MATCH!");
    }
}

fn do_test_repeats<T: Eq + fmt::Debug + SmolReadWrite>(data: &[T], test_smaller: bool) {
    println!("Vector: {data:?}");

    let mut writer = Writer::new_headerless();
    data.write(writer.write()).unwrap();
    let vec = writer.finish();

    println!("Vector size: {}, serialized size: {}", data.len(), vec.len());
    hexdump(&vec);

    if test_smaller {
        assert!(vec.len() < data.len());
    }

    let mut reader = Reader::new_headerless(&vec, FORMAT_VERSION);
    let re = Vec::<T>::read(reader.read()).unwrap();
    reader.finish();

    assert_eq!(data, re);
}

#[test]
fn test_reserialize_complex() {
    let data = Struct {
        values: HashMap::from_iter([
            (0, "somelongstring".into()),
            (1, "somelongstring".into()),
            (2, "somelongstring".into()),
        ]),
        e: vec![
            Enum::D {
                v: NoLenSerialize(vec![0, 5, 10, 15]),
            },
            Enum::C("somelongstring".into(), 32, 64),
            Enum::A(11),
            Enum::B,
            Enum::A(0),
            Enum::B,
        ],
        tup: (false, 786583289812096971589793284203998369),
    };
    test_reserialize(&data);
}

#[test]
fn test_repeats() {
    let data = vec![0, 0, 0, 0, 0, 8, 8, 8, 8, 4, 4, 4, 4, 4, 4, 4, 4, 4];

    do_test_repeats(&data, true);

    let data: Vec<Option<i32>> = vec![None, None, None, None, None, None, None, None, None, None];

    do_test_repeats(&data, true);

    let data = vec![
        Enum::C("".into(), 0, 0),
        Enum::C("".into(), 0, 0),
        Enum::B,
        Enum::B,
        Enum::B,
        Enum::B,
        Enum::B,
        Enum::B,
        Enum::B,
        Enum::B,
        Enum::B,
        Enum::B,
        Enum::B,
        Enum::B,
        Enum::C("".into(), 0, 0),
    ];

    do_test_repeats(&data, false);

    let d: [u8; 3] = [0x80, 0x99, 0xff];
    let data = [
        Bytes(d.to_vec()),
        Bytes(d.to_vec()),
        Bytes(d.to_vec()),
        Bytes(d.to_vec()),
        Bytes(d.to_vec()),
    ];

    do_test_repeats(&data, false);
}

#[test]
fn test_raw() {
    let data = Struct {
        values: HashMap::from_iter([
            (0, "somelongstring".into()),
            (1, "somelongstring".into()),
            (2, "somelongstring".into()),
        ]),
        e: vec![
            Enum::D {
                v: NoLenSerialize(vec![0, 5, 10, 15]),
            },
            Enum::C("somelongstring".into(), 32, 64),
            Enum::A(11),
            Enum::B,
            Enum::A(0),
            Enum::B,
        ],
        tup: (false, 786583289812096971589793284203998369),
    };

    println!("Starting data: {data:?}\n");

    let mut writer = Writer::new();
    data.write(writer.write()).unwrap();
    let vec = writer.finish();

    println!("Serialized data:");
    hexdump(&vec);
    println!();

    let mut reader = Reader::new(&vec).unwrap();
    let with_raw = StructWithRaw::read(reader.read()).unwrap();

    println!("RawValue data:");
    hexdump(with_raw.e.bytes());
    println!();

    let mut reader = Reader::new_headerless(with_raw.e.bytes(), FORMAT_VERSION);
    let inner = Vec::<Enum>::read(reader.read()).unwrap();
    reader.finish();

    println!("Deserialized RawValue: {inner:?}\n");

    if inner != data.e {
        panic!("RAWVALUE DATA MISMATCH!");
    }

    let mut writer = Writer::new();
    with_raw.write(writer.write()).unwrap();
    let re_vec = writer.finish();

    println!("Reserialized data bytes:");
    hexdump(&re_vec);
    println!();

    let mut reader = Reader::new(&re_vec).unwrap();
    let re = Struct::read(reader.read()).unwrap();
    reader.finish();

    println!("Reserialized data: {re:?}\n");

    if re != data {
        panic!("DATA MISMATCH!");
    }

    println!("Data matches");
}
