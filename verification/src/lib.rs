use vstd::prelude::*;
use vstd::utf8::{decode_utf8, valid_utf8};


pub mod object;
mod object_shape;
pub mod raw;
pub mod reader;
pub mod readback;
pub mod roundtrip;
pub mod str;
pub mod tag;
pub mod value_roundtrip;
pub mod varint;
pub mod writer;

use crate::reader::{
    dec_header,
    string_contents,
    fresh_reader,
    ReaderInitError,
    init_error_as_read_error,
    lemma_fits_kind,
    lemma_next_tag_progress,
    lemma_seq_end_progress,
    progressed,
    tag_primitive,
    tag_value_type,
    PackedI128,
    PackedU128,
    Primitive,
    PrimitiveType,
    ReadError,
    ReadResult,
    TupleReader,
    Reader,
    ReaderModel,
    UnexpectedValueError,
    UnexpectedValueForTypeError,
    ValueReader,
    ValueReading,
    ValueType,
    ValueTypeRequirement,
};
use crate::object::{
    reads_through,
    lemma_read_all_after_peek,
    lemma_read_all_concat,
    lemma_read_one,
    lemma_read_tag_event,
    lemma_write_events_concat,
    lemma_write_string_events,
    string_decodes,
    string_events,
};
use crate::raw::{
    empty_writer,
    lemma_write_all_is_write_events,
    object_bytes,
    write_event,
    write_events,
    RawValue,
};
use crate::roundtrip::{
    events_match,
    final_bytes,
    lemma_out_is_prefix,
    lemma_stream_roundtrip,
    read_all,
    write_all,
    WriteEvent,
};
use crate::varint::{lemma_unsigned_varint_roundtrip, uvarint_bytes};
use crate::str::RefArcStr;
use crate::tag::{IntegerTag, OptionTag, TagModel, TagType};
use crate::writer::{
    flush_bytes,
    header_bytes,
    str_ref_bytes,
    tag_bytes,
    write_outcome,
    ValueWriter,
    WriteError,
    Writer,
    WriterModel,
};

verus! {

broadcast use crate::raw::lemma_write_one;

/// The magic bytes that start a stream.
pub const MAGIC_HEADER: [u8; 2] = [0x73, 0x64];

/// The version of the format written.
pub const FORMAT_VERSION: u32 = 0;

/// A type that writes itself as one value.
pub trait SmolWrite {
    /// The events that writing the value writes, in order. A type that does
    /// not say what they are writes events that nothing is known of.
    open spec fn written_events(&self) -> Seq<WriteEvent> {
        arbitrary()
    }

    /// Writes the value. Where it succeeds, the writer is the one that
    /// writing its events makes.
    fn write(&self, writer: ValueWriter) -> (r: Result<(), WriteError>)
        ensures
            r is Ok ==> write_events((*old(writer.writer))@, self.written_events()) == Some(
                (*final(writer.writer))@,
            ),
    ;
}

/// The events that writing the values `vs` writes, one value after another.
pub open spec fn all_written_events<T: SmolWrite>(vs: Seq<T>) -> Seq<WriteEvent>
    decreases vs.len(),
{
    if vs.len() == 0 {
        Seq::empty()
    } else {
        all_written_events(vs.drop_last()) + vs.last().written_events()
    }
}

/// The events of the first `i + 1` values are those of the first `i`, then
/// those of value `i`.
proof fn lemma_all_written_take<T: SmolWrite>(vs: Seq<T>, i: int)
    requires
        0 <= i < vs.len(),
    ensures
        all_written_events(vs.take(i + 1)) == all_written_events(vs.take(i)) + vs[i].written_events(),
{
    assert(vs.take(i + 1).drop_last() =~= vs.take(i));
}


/// A type that reads itself from one value; reading one reads at least its tag.
pub trait SmolRead: Sized {
    /// Whether reading the events `es`, as they are, can give the value `v`.
    /// A type that does not say which events give which values reads values
    /// that nothing is known of.
    open spec fn decoded_from(es: Seq<WriteEvent>, v: Self) -> bool {
        arbitrary()
    }

    /// Whether reading owes a value on the events `es`: a reader that reads
    /// them as they are reads a value and stops right after them. A type that
    /// does not say which events they are owes a value on none.
    open spec fn read_owed(es: Seq<WriteEvent>) -> bool {
        false
    }

    /// Reads a value. Where it succeeds, it read events that start with a tag
    /// and give the value read.
    fn read(reader: ValueReader) -> (r: ReadResult<Self>)
        ensures
            r is Ok ==> progressed((*old(reader.reader))@, (*final(reader.reader))@),
            r matches Ok(v) ==> exists|es: Seq<WriteEvent>|
                #![trigger read_all((*old(reader.reader))@, es)]
                Self::decoded_from(es, v) && es.len() > 0 && es[0] is Tag && read_all(
                    (*old(reader.reader))@,
                    es,
                ) == Some((es, (*final(reader.reader))@)),
            forall|es: Seq<WriteEvent>|
                #[trigger] Self::read_owed(es) && reads_through((*old(reader.reader))@, es) ==> r is Ok
                    && read_all((*old(reader.reader))@, es).unwrap().1 == (*final(reader.reader))@,
    ;
}

/// A type that both writes and reads itself.
pub trait SmolReadWrite: SmolRead + SmolWrite {

}

impl<T: SmolRead + SmolWrite> SmolReadWrite for T {

}

/// The bytes of a stream with a header whose root object is the events `es`,
/// written in the current format version; `None` when a write fails.
pub open spec fn stream_bytes(es: Seq<WriteEvent>) -> Option<Seq<u8>> {
    match write_events(
        WriterModel { out: header_bytes(), strings: Seq::empty(), last_tag: None, repeats: 0 },
        es,
    ) {
        Some(w) => Some(w.flushed().out),
        None => None,
    }
}

/// A stream read back: for the events `es` of a root value, where every write
/// succeeds (the bytes that `write_into_bytes` gives for a value that writes
/// `es`), the bytes
/// start with a header that a reader accepts, for the current format version,
/// and a reader from the end of the header reads back events equal to `es` as
/// the writer compares tags, up to the end of the bytes.
pub proof fn lemma_stream_bytes_read_back(es: Seq<WriteEvent>)
    requires
        write_all(
            WriterModel { out: header_bytes(), strings: Seq::empty(), last_tag: None, repeats: 0 },
            es,
        ) is Some,
        final_bytes(
            WriterModel { out: header_bytes(), strings: Seq::empty(), last_tag: None, repeats: 0 },
            es,
        ).len() <= usize::MAX,
    ensures
        ({
            let w = WriterModel {
                out: header_bytes(),
                strings: Seq::empty(),
                last_tag: None,
                repeats: 0,
            };
            let out = final_bytes(w, es);
            &&& stream_bytes(es) == Some(out)
            &&& dec_header(out) == Ok::<(u32, nat), ReaderInitError>(
                (FORMAT_VERSION, header_bytes().len()),
            )
            &&& read_all(fresh_reader(out, header_bytes().len(), FORMAT_VERSION), es) matches Some(
                (es2, r),
            ) && events_match(es, es2) && r.pos == out.len()
        }),
{
    let w = WriterModel { out: header_bytes(), strings: Seq::empty(), last_tag: None, repeats: 0 };
    let out = final_bytes(w, es);
    lemma_write_all_is_write_events(w, es);
    lemma_stream_roundtrip(header_bytes(), es, FORMAT_VERSION);
    lemma_out_is_prefix(w, es);
    let hl = header_bytes().len() as int;
    let rest = out.skip(hl);
    assert(uvarint_bytes(0) =~= seq![0u8]) by {
        assert((0u128 >> 7u32) == 0 && (0u128 & 0x7f) as u8 == 0u8) by (bit_vector);
    }
    assert(header_bytes() =~= seq![0x73u8, 0x64u8, 0u8]);
    assert(out.subrange(0, hl) == header_bytes());
    assert(out[0] == out.subrange(0, hl)[0] && out[1] == out.subrange(0, hl)[1] && out[2]
        == out.subrange(0, hl)[2]);
    assert(out.skip(2) =~= uvarint_bytes(0u32 as u128) + rest);
    lemma_unsigned_varint_roundtrip::<u32>(0u32, rest);
}

/// A writer whose output starts with `h` before what `w` wrote, in the state
/// of `w` otherwise.
pub open spec fn after_prefix(h: Seq<u8>, w: WriterModel) -> WriterModel {
    WriterModel { out: h + w.out, ..w }
}

/// Writing one event after more output writes the same bytes, after that
/// output, and leaves the writer in the same state otherwise.
proof fn lemma_write_event_after_prefix(h: Seq<u8>, w: WriterModel, e: WriteEvent)
    ensures
        write_event(after_prefix(h, w), e) == match write_event(w, e) {
            Some(w2) => Some(after_prefix(h, w2)),
            None => None,
        },
{
    let hw = after_prefix(h, w);
    assert(hw.flushed() == after_prefix(h, w.flushed())) by {
        assert(h + w.out + flush_bytes(w.repeats) =~= h + (w.out + flush_bytes(w.repeats)));
    }
    match e {
        WriteEvent::Tag(t) => {
            assert(h + w.out + flush_bytes(w.repeats) =~= h + (w.out + flush_bytes(w.repeats)));
            assert((h + w.out).push(TagType::RepeatTag.spec_code()) =~= h + w.out.push(
                TagType::RepeatTag.spec_code(),
            ));
            match tag_bytes(w.strings, t) {
                Some((b, st)) => {
                    assert(h + w.out + flush_bytes(w.repeats) + b =~= h + (w.out + flush_bytes(
                        w.repeats,
                    ) + b));
                },
                None => {},
            }
        },
        WriteEvent::Str(s) => {
            match str_ref_bytes(w.strings, s) {
                Some((b, st)) => {
                    assert(h + w.out + flush_bytes(w.repeats) + b =~= h + (w.out + flush_bytes(
                        w.repeats,
                    ) + b));
                },
                None => {},
            }
        },
        WriteEvent::End => {
            assert((h + w.out + flush_bytes(w.repeats)).push(TagType::End.spec_code()) =~= h + (
            w.out + flush_bytes(w.repeats)).push(TagType::End.spec_code()));
        },
        WriteEvent::Raw(b) => {
            assert(h + w.out + flush_bytes(w.repeats) + b =~= h + (w.out + flush_bytes(w.repeats)
                + b));
        },
    }
}

/// Writing events after more output writes the same bytes, after that output,
/// and leaves the writer in the same state otherwise.
proof fn lemma_write_events_after_prefix(h: Seq<u8>, w: WriterModel, es: Seq<WriteEvent>)
    ensures
        write_events(after_prefix(h, w), es) == match write_events(w, es) {
            Some(w2) => Some(after_prefix(h, w2)),
            None => None,
        },
    decreases es.len(),
{
    if es.len() > 0 {
        lemma_write_event_after_prefix(h, w, es[0]);
        match write_event(w, es[0]) {
            Some(w2) => {
                lemma_write_events_after_prefix(h, w2, es.drop_first());
            },
            None => {},
        }
    }
}

/// The bytes of a stream are the header, then the bytes of its root object
/// written alone: for any events, the stream fails to be written exactly when
/// the object alone does, and otherwise its bytes are the header followed by
/// the object's bytes.
pub proof fn lemma_stream_bytes_are_header_then_object(es: Seq<WriteEvent>)
    ensures
        stream_bytes(es) == match object_bytes(es) {
            Some(b) => Some(header_bytes() + b),
            None => None,
        },
        header_bytes() == seq![0x73u8, 0x64u8, 0u8],
{
    let w = empty_writer();
    let h = header_bytes();
    assert(after_prefix(h, w) == (WriterModel {
        out: header_bytes(),
        strings: Seq::empty(),
        last_tag: None,
        repeats: 0,
    })) by {
        assert(h + Seq::<u8>::empty() =~= h);
    }
    lemma_write_events_after_prefix(h, w, es);
    match write_events(w, es) {
        Some(w2) => {
            assert(h + w2.out + flush_bytes(w2.repeats) =~= h + (w2.out + flush_bytes(w2.repeats)));
        },
        None => {},
    }
    assert(uvarint_bytes(0) =~= seq![0u8]) by {
        assert((0u128 >> 7u32) == 0 && (0u128 & 0x7f) as u8 == 0u8) by (bit_vector);
    }
    assert(header_bytes() =~= seq![0x73u8, 0x64u8, 0u8]);
}

/// Writes `data` as the root object of a stream with a header.
pub fn write_into_bytes<T: SmolWrite>(data: &T) -> (r: Result<Vec<u8>, WriteError>)
    ensures
        r matches Ok(b) ==> stream_bytes(data.written_events()) == Some(b@),
{
    let mut writer = Writer::new();
    match data.write(writer.write()) {
        Ok(()) => Ok(writer.finish()),
        Err(e) => Err(e),
    }
}

/// Writes `data` as an object with no header, into a raw value.
pub fn write_into_raw<T: SmolWrite>(data: &T) -> (r: Result<RawValue, WriteError>)
    ensures
        r matches Ok(v) ==> object_bytes(data.written_events()) == Some(v@),
{
    RawValue::write_object(data)
}

/// Reads a `T` from the object of a raw value.
pub fn from_raw<T: SmolRead>(raw: &RawValue) -> (r: ReadResult<T>)
    ensures
        r matches Ok(v) ==> exists|es: Seq<WriteEvent>|
            #![trigger reads_through(fresh_reader(raw@, 0, FORMAT_VERSION), es)]
            T::decoded_from(es, v) && es.len() > 0 && es[0] is Tag && reads_through(
                fresh_reader(raw@, 0, FORMAT_VERSION),
                es,
            ),
        forall|es: Seq<WriteEvent>|
            #[trigger] T::read_owed(es) && reads_through(fresh_reader(raw@, 0, FORMAT_VERSION), es)
                ==> r is Ok,
{
    raw.read_object()
}

/// Reads the root object of a stream with a header; a stream whose header
/// is refused gives the error for it.
pub fn read_from_bytes<T: SmolRead>(bytes: &[u8]) -> (r: ReadResult<T>)
    ensures
        dec_header(bytes@) matches Err(e) ==> r matches Err(b) && *b == init_error_as_read_error(e),
        r matches Ok(v) ==> (dec_header(bytes@) matches Ok((ver, p)) && exists|es: Seq<WriteEvent>|
            #![trigger reads_through(fresh_reader(bytes@, p, ver), es)]
            T::decoded_from(es, v) && es.len() > 0 && es[0] is Tag && reads_through(
                fresh_reader(bytes@, p, ver),
                es,
            )),
        dec_header(bytes@) matches Ok((ver, p)) ==> forall|es: Seq<WriteEvent>|
            #[trigger] T::read_owed(es) && reads_through(fresh_reader(bytes@, p, ver), es) ==> r is Ok,
{
    let mut reader = match Reader::new(bytes) {
        Ok(rd) => rd,
        Err(e) => {
            return Err(Box::new(ReadError::from(e)));
        },
    };
    let ghost r0 = reader@;
    let obj = T::read(reader.read());
    proof {
        if obj is Ok {
            let es = choose|es: Seq<WriteEvent>|
                #![trigger read_all(r0, es)]
                T::decoded_from(es, obj->Ok_0) && es.len() > 0 && es[0] is Tag && read_all(r0, es)
                    == Some((es, reader@));
            assert(reads_through(r0, es));
        }
    }
    let _ = reader.finish();
    obj
}

/// The runs of events `parts`, one after another.
pub open spec fn joined_events(parts: Seq<Seq<WriteEvent>>) -> Seq<WriteEvent>
    decreases parts.len(),
{
    if parts.len() == 0 {
        Seq::empty()
    } else {
        joined_events(parts.drop_last()) + parts.last()
    }
}

/// One more run joined after the others.
pub(crate) proof fn lemma_joined_push(parts: Seq<Seq<WriteEvent>>, e: Seq<WriteEvent>)
    ensures
        joined_events(parts.push(e)) == joined_events(parts) + e,
{
    assert(parts.push(e).drop_last() =~= parts);
}

/// One more run of events read after the runs `parts`, read from `m0` up to
/// `s`: all of them are read from `m0` up to where the new one ends.
proof fn lemma_part_read(
    m0: ReaderModel,
    parts: Seq<Seq<WriteEvent>>,
    s: ReaderModel,
    e: Seq<WriteEvent>,
    new: ReaderModel,
)
    requires
        read_all(m0, joined_events(parts)) == Some((joined_events(parts), s)),
        read_all(s, e) == Some((e, new)),
    ensures
        read_all(m0, joined_events(parts.push(e))) == Some((joined_events(parts.push(e)), new)),
{
    lemma_read_all_concat(m0, joined_events(parts), s, e, new);
    lemma_joined_push(parts, e);
}

/// The runs of events of the 2 fields of a tuple, each giving its field.
proof fn lemma_tuple_parts_2<T1: SmolRead, T2: SmolRead>(
    parts: Seq<Seq<WriteEvent>>,
    e0: Seq<WriteEvent>, e1: Seq<WriteEvent>,
    v0: T1, v1: T2,
)
    requires
        parts == seq![e0, e1],
        T1::decoded_from(e0, v0),
        T2::decoded_from(e1, v1),
    ensures
        parts.len() == 2,
        T1::decoded_from(parts[0], v0),
        T2::decoded_from(parts[1], v1),
{
}

/// The runs of events of the 3 fields of a tuple, each giving its field.
proof fn lemma_tuple_parts_3<T1: SmolRead, T2: SmolRead, T3: SmolRead>(
    parts: Seq<Seq<WriteEvent>>,
    e0: Seq<WriteEvent>, e1: Seq<WriteEvent>, e2: Seq<WriteEvent>,
    v0: T1, v1: T2, v2: T3,
)
    requires
        parts == seq![e0, e1, e2],
        T1::decoded_from(e0, v0),
        T2::decoded_from(e1, v1),
        T3::decoded_from(e2, v2),
    ensures
        parts.len() == 3,
        T1::decoded_from(parts[0], v0),
        T2::decoded_from(parts[1], v1),
        T3::decoded_from(parts[2], v2),
{
}

/// The runs of events of the 4 fields of a tuple, each giving its field.
proof fn lemma_tuple_parts_4<T1: SmolRead, T2: SmolRead, T3: SmolRead, T4: SmolRead>(
    parts: Seq<Seq<WriteEvent>>,
    e0: Seq<WriteEvent>, e1: Seq<WriteEvent>, e2: Seq<WriteEvent>, e3: Seq<WriteEvent>,
    v0: T1, v1: T2, v2: T3, v3: T4,
)
    requires
        parts == seq![e0, e1, e2, e3],
        T1::decoded_from(e0, v0),
        T2::decoded_from(e1, v1),
        T3::decoded_from(e2, v2),
        T4::decoded_from(e3, v3),
    ensures
        parts.len() == 4,
        T1::decoded_from(parts[0], v0),
        T2::decoded_from(parts[1], v1),
        T3::decoded_from(parts[2], v2),
        T4::decoded_from(parts[3], v3),
{
}

/// The runs of events of the 5 fields of a tuple, each giving its field.
proof fn lemma_tuple_parts_5<T1: SmolRead, T2: SmolRead, T3: SmolRead, T4: SmolRead, T5: SmolRead>(
    parts: Seq<Seq<WriteEvent>>,
    e0: Seq<WriteEvent>, e1: Seq<WriteEvent>, e2: Seq<WriteEvent>, e3: Seq<WriteEvent>, e4: Seq<WriteEvent>,
    v0: T1, v1: T2, v2: T3, v3: T4, v4: T5,
)
    requires
        parts == seq![e0, e1, e2, e3, e4],
        T1::decoded_from(e0, v0),
        T2::decoded_from(e1, v1),
        T3::decoded_from(e2, v2),
        T4::decoded_from(e3, v3),
        T5::decoded_from(e4, v4),
    ensures
        parts.len() == 5,
        T1::decoded_from(parts[0], v0),
        T2::decoded_from(parts[1], v1),
        T3::decoded_from(parts[2], v2),
        T4::decoded_from(parts[3], v3),
        T5::decoded_from(parts[4], v4),
{
}

/// The runs of events of the 6 fields of a tuple, each giving its field.
proof fn lemma_tuple_parts_6<T1: SmolRead, T2: SmolRead, T3: SmolRead, T4: SmolRead, T5: SmolRead, T6: SmolRead>(
    parts: Seq<Seq<WriteEvent>>,
    e0: Seq<WriteEvent>, e1: Seq<WriteEvent>, e2: Seq<WriteEvent>, e3: Seq<WriteEvent>, e4: Seq<WriteEvent>, e5: Seq<WriteEvent>,
    v0: T1, v1: T2, v2: T3, v3: T4, v4: T5, v5: T6,
)
    requires
        parts == seq![e0, e1, e2, e3, e4, e5],
        T1::decoded_from(e0, v0),
        T2::decoded_from(e1, v1),
        T3::decoded_from(e2, v2),
        T4::decoded_from(e3, v3),
        T5::decoded_from(e4, v4),
        T6::decoded_from(e5, v5),
    ensures
        parts.len() == 6,
        T1::decoded_from(parts[0], v0),
        T2::decoded_from(parts[1], v1),
        T3::decoded_from(parts[2], v2),
        T4::decoded_from(parts[3], v3),
        T5::decoded_from(parts[4], v4),
        T6::decoded_from(parts[5], v5),
{
}

/// The runs of events of the 7 fields of a tuple, each giving its field.
proof fn lemma_tuple_parts_7<T1: SmolRead, T2: SmolRead, T3: SmolRead, T4: SmolRead, T5: SmolRead, T6: SmolRead, T7: SmolRead>(
    parts: Seq<Seq<WriteEvent>>,
    e0: Seq<WriteEvent>, e1: Seq<WriteEvent>, e2: Seq<WriteEvent>, e3: Seq<WriteEvent>, e4: Seq<WriteEvent>, e5: Seq<WriteEvent>, e6: Seq<WriteEvent>,
    v0: T1, v1: T2, v2: T3, v3: T4, v4: T5, v5: T6, v6: T7,
)
    requires
        parts == seq![e0, e1, e2, e3, e4, e5, e6],
        T1::decoded_from(e0, v0),
        T2::decoded_from(e1, v1),
        T3::decoded_from(e2, v2),
        T4::decoded_from(e3, v3),
        T5::decoded_from(e4, v4),
        T6::decoded_from(e5, v5),
        T7::decoded_from(e6, v6),
    ensures
        parts.len() == 7,
        T1::decoded_from(parts[0], v0),
        T2::decoded_from(parts[1], v1),
        T3::decoded_from(parts[2], v2),
        T4::decoded_from(parts[3], v3),
        T5::decoded_from(parts[4], v4),
        T6::decoded_from(parts[5], v5),
        T7::decoded_from(parts[6], v6),
{
}

/// The runs of events of the 8 fields of a tuple, each giving its field.
proof fn lemma_tuple_parts_8<T1: SmolRead, T2: SmolRead, T3: SmolRead, T4: SmolRead, T5: SmolRead, T6: SmolRead, T7: SmolRead, T8: SmolRead>(
    parts: Seq<Seq<WriteEvent>>,
    e0: Seq<WriteEvent>, e1: Seq<WriteEvent>, e2: Seq<WriteEvent>, e3: Seq<WriteEvent>, e4: Seq<WriteEvent>, e5: Seq<WriteEvent>, e6: Seq<WriteEvent>, e7: Seq<WriteEvent>,
    v0: T1, v1: T2, v2: T3, v3: T4, v4: T5, v5: T6, v6: T7, v7: T8,
)
    requires
        parts == seq![e0, e1, e2, e3, e4, e5, e6, e7],
        T1::decoded_from(e0, v0),
        T2::decoded_from(e1, v1),
        T3::decoded_from(e2, v2),
        T4::decoded_from(e3, v3),
        T5::decoded_from(e4, v4),
        T6::decoded_from(e5, v5),
        T7::decoded_from(e6, v6),
        T8::decoded_from(e7, v7),
    ensures
        parts.len() == 8,
        T1::decoded_from(parts[0], v0),
        T2::decoded_from(parts[1], v1),
        T3::decoded_from(parts[2], v2),
        T4::decoded_from(parts[3], v3),
        T5::decoded_from(parts[4], v4),
        T6::decoded_from(parts[5], v5),
        T7::decoded_from(parts[6], v6),
        T8::decoded_from(parts[7], v7),
{
}

/// The runs of events of the 9 fields of a tuple, each giving its field.
proof fn lemma_tuple_parts_9<T1: SmolRead, T2: SmolRead, T3: SmolRead, T4: SmolRead, T5: SmolRead, T6: SmolRead, T7: SmolRead, T8: SmolRead, T9: SmolRead>(
    parts: Seq<Seq<WriteEvent>>,
    e0: Seq<WriteEvent>, e1: Seq<WriteEvent>, e2: Seq<WriteEvent>, e3: Seq<WriteEvent>, e4: Seq<WriteEvent>, e5: Seq<WriteEvent>, e6: Seq<WriteEvent>, e7: Seq<WriteEvent>, e8: Seq<WriteEvent>,
    v0: T1, v1: T2, v2: T3, v3: T4, v4: T5, v5: T6, v6: T7, v7: T8, v8: T9,
)
    requires
        parts == seq![e0, e1, e2, e3, e4, e5, e6, e7, e8],
        T1::decoded_from(e0, v0),
        T2::decoded_from(e1, v1),
        T3::decoded_from(e2, v2),
        T4::decoded_from(e3, v3),
        T5::decoded_from(e4, v4),
        T6::decoded_from(e5, v5),
        T7::decoded_from(e6, v6),
        T8::decoded_from(e7, v7),
        T9::decoded_from(e8, v8),
    ensures
        parts.len() == 9,
        T1::decoded_from(parts[0], v0),
        T2::decoded_from(parts[1], v1),
        T3::decoded_from(parts[2], v2),
        T4::decoded_from(parts[3], v3),
        T5::decoded_from(parts[4], v4),
        T6::decoded_from(parts[5], v5),
        T7::decoded_from(parts[6], v6),
        T8::decoded_from(parts[7], v7),
        T9::decoded_from(parts[8], v8),
{
}

/// The runs of events of the 10 fields of a tuple, each giving its field.
proof fn lemma_tuple_parts_10<T1: SmolRead, T2: SmolRead, T3: SmolRead, T4: SmolRead, T5: SmolRead, T6: SmolRead, T7: SmolRead, T8: SmolRead, T9: SmolRead, T10: SmolRead>(
    parts: Seq<Seq<WriteEvent>>,
    e0: Seq<WriteEvent>, e1: Seq<WriteEvent>, e2: Seq<WriteEvent>, e3: Seq<WriteEvent>, e4: Seq<WriteEvent>, e5: Seq<WriteEvent>, e6: Seq<WriteEvent>, e7: Seq<WriteEvent>, e8: Seq<WriteEvent>, e9: Seq<WriteEvent>,
    v0: T1, v1: T2, v2: T3, v3: T4, v4: T5, v5: T6, v6: T7, v7: T8, v8: T9, v9: T10,
)
    requires
        parts == seq![e0, e1, e2, e3, e4, e5, e6, e7, e8, e9],
        T1::decoded_from(e0, v0),
        T2::decoded_from(e1, v1),
        T3::decoded_from(e2, v2),
        T4::decoded_from(e3, v3),
        T5::decoded_from(e4, v4),
        T6::decoded_from(e5, v5),
        T7::decoded_from(e6, v6),
        T8::decoded_from(e7, v7),
        T9::decoded_from(e8, v8),
        T10::decoded_from(e9, v9),
    ensures
        parts.len() == 10,
        T1::decoded_from(parts[0], v0),
        T2::decoded_from(parts[1], v1),
        T3::decoded_from(parts[2], v2),
        T4::decoded_from(parts[3], v3),
        T5::decoded_from(parts[4], v4),
        T6::decoded_from(parts[5], v5),
        T7::decoded_from(parts[6], v6),
        T8::decoded_from(parts[7], v7),
        T9::decoded_from(parts[8], v8),
        T10::decoded_from(parts[9], v9),
{
}

/// The runs of events of the 11 fields of a tuple, each giving its field.
proof fn lemma_tuple_parts_11<T1: SmolRead, T2: SmolRead, T3: SmolRead, T4: SmolRead, T5: SmolRead, T6: SmolRead, T7: SmolRead, T8: SmolRead, T9: SmolRead, T10: SmolRead, T11: SmolRead>(
    parts: Seq<Seq<WriteEvent>>,
    e0: Seq<WriteEvent>, e1: Seq<WriteEvent>, e2: Seq<WriteEvent>, e3: Seq<WriteEvent>, e4: Seq<WriteEvent>, e5: Seq<WriteEvent>, e6: Seq<WriteEvent>, e7: Seq<WriteEvent>, e8: Seq<WriteEvent>, e9: Seq<WriteEvent>, e10: Seq<WriteEvent>,
    v0: T1, v1: T2, v2: T3, v3: T4, v4: T5, v5: T6, v6: T7, v7: T8, v8: T9, v9: T10, v10: T11,
)
    requires
        parts == seq![e0, e1, e2, e3, e4, e5, e6, e7, e8, e9, e10],
        T1::decoded_from(e0, v0),
        T2::decoded_from(e1, v1),
        T3::decoded_from(e2, v2),
        T4::decoded_from(e3, v3),
        T5::decoded_from(e4, v4),
        T6::decoded_from(e5, v5),
        T7::decoded_from(e6, v6),
        T8::decoded_from(e7, v7),
        T9::decoded_from(e8, v8),
        T10::decoded_from(e9, v9),
        T11::decoded_from(e10, v10),
    ensures
        parts.len() == 11,
        T1::decoded_from(parts[0], v0),
        T2::decoded_from(parts[1], v1),
        T3::decoded_from(parts[2], v2),
        T4::decoded_from(parts[3], v3),
        T5::decoded_from(parts[4], v4),
        T6::decoded_from(parts[5], v5),
        T7::decoded_from(parts[6], v6),
        T8::decoded_from(parts[7], v7),
        T9::decoded_from(parts[8], v8),
        T10::decoded_from(parts[9], v9),
        T11::decoded_from(parts[10], v10),
{
}

/// The runs of events of the 12 fields of a tuple, each giving its field.
proof fn lemma_tuple_parts_12<T1: SmolRead, T2: SmolRead, T3: SmolRead, T4: SmolRead, T5: SmolRead, T6: SmolRead, T7: SmolRead, T8: SmolRead, T9: SmolRead, T10: SmolRead, T11: SmolRead, T12: SmolRead>(
    parts: Seq<Seq<WriteEvent>>,
    e0: Seq<WriteEvent>, e1: Seq<WriteEvent>, e2: Seq<WriteEvent>, e3: Seq<WriteEvent>, e4: Seq<WriteEvent>, e5: Seq<WriteEvent>, e6: Seq<WriteEvent>, e7: Seq<WriteEvent>, e8: Seq<WriteEvent>, e9: Seq<WriteEvent>, e10: Seq<WriteEvent>, e11: Seq<WriteEvent>,
    v0: T1, v1: T2, v2: T3, v3: T4, v4: T5, v5: T6, v6: T7, v7: T8, v8: T9, v9: T10, v10: T11, v11: T12,
)
    requires
        parts == seq![e0, e1, e2, e3, e4, e5, e6, e7, e8, e9, e10, e11],
        T1::decoded_from(e0, v0),
        T2::decoded_from(e1, v1),
        T3::decoded_from(e2, v2),
        T4::decoded_from(e3, v3),
        T5::decoded_from(e4, v4),
        T6::decoded_from(e5, v5),
        T7::decoded_from(e6, v6),
        T8::decoded_from(e7, v7),
        T9::decoded_from(e8, v8),
        T10::decoded_from(e9, v9),
        T11::decoded_from(e10, v10),
        T12::decoded_from(e11, v11),
    ensures
        parts.len() == 12,
        T1::decoded_from(parts[0], v0),
        T2::decoded_from(parts[1], v1),
        T3::decoded_from(parts[2], v2),
        T4::decoded_from(parts[3], v3),
        T5::decoded_from(parts[4], v4),
        T6::decoded_from(parts[5], v5),
        T7::decoded_from(parts[6], v6),
        T8::decoded_from(parts[7], v7),
        T9::decoded_from(parts[8], v8),
        T10::decoded_from(parts[9], v9),
        T11::decoded_from(parts[10], v10),
        T12::decoded_from(parts[11], v11),
{
}

/// The runs of events of the 13 fields of a tuple, each giving its field.
proof fn lemma_tuple_parts_13<T1: SmolRead, T2: SmolRead, T3: SmolRead, T4: SmolRead, T5: SmolRead, T6: SmolRead, T7: SmolRead, T8: SmolRead, T9: SmolRead, T10: SmolRead, T11: SmolRead, T12: SmolRead, T13: SmolRead>(
    parts: Seq<Seq<WriteEvent>>,
    e0: Seq<WriteEvent>, e1: Seq<WriteEvent>, e2: Seq<WriteEvent>, e3: Seq<WriteEvent>, e4: Seq<WriteEvent>, e5: Seq<WriteEvent>, e6: Seq<WriteEvent>, e7: Seq<WriteEvent>, e8: Seq<WriteEvent>, e9: Seq<WriteEvent>, e10: Seq<WriteEvent>, e11: Seq<WriteEvent>, e12: Seq<WriteEvent>,
    v0: T1, v1: T2, v2: T3, v3: T4, v4: T5, v5: T6, v6: T7, v7: T8, v8: T9, v9: T10, v10: T11, v11: T12, v12: T13,
)
    requires
        parts == seq![e0, e1, e2, e3, e4, e5, e6, e7, e8, e9, e10, e11, e12],
        T1::decoded_from(e0, v0),
        T2::decoded_from(e1, v1),
        T3::decoded_from(e2, v2),
        T4::decoded_from(e3, v3),
        T5::decoded_from(e4, v4),
        T6::decoded_from(e5, v5),
        T7::decoded_from(e6, v6),
        T8::decoded_from(e7, v7),
        T9::decoded_from(e8, v8),
        T10::decoded_from(e9, v9),
        T11::decoded_from(e10, v10),
        T12::decoded_from(e11, v11),
        T13::decoded_from(e12, v12),
    ensures
        parts.len() == 13,
        T1::decoded_from(parts[0], v0),
        T2::decoded_from(parts[1], v1),
        T3::decoded_from(parts[2], v2),
        T4::decoded_from(parts[3], v3),
        T5::decoded_from(parts[4], v4),
        T6::decoded_from(parts[5], v5),
        T7::decoded_from(parts[6], v6),
        T8::decoded_from(parts[7], v7),
        T9::decoded_from(parts[8], v8),
        T10::decoded_from(parts[9], v9),
        T11::decoded_from(parts[10], v10),
        T12::decoded_from(parts[11], v11),
        T13::decoded_from(parts[12], v12),
{
}

/// The runs of events of the 14 fields of a tuple, each giving its field.
proof fn lemma_tuple_parts_14<T1: SmolRead, T2: SmolRead, T3: SmolRead, T4: SmolRead, T5: SmolRead, T6: SmolRead, T7: SmolRead, T8: SmolRead, T9: SmolRead, T10: SmolRead, T11: SmolRead, T12: SmolRead, T13: SmolRead, T14: SmolRead>(
    parts: Seq<Seq<WriteEvent>>,
    e0: Seq<WriteEvent>, e1: Seq<WriteEvent>, e2: Seq<WriteEvent>, e3: Seq<WriteEvent>, e4: Seq<WriteEvent>, e5: Seq<WriteEvent>, e6: Seq<WriteEvent>, e7: Seq<WriteEvent>, e8: Seq<WriteEvent>, e9: Seq<WriteEvent>, e10: Seq<WriteEvent>, e11: Seq<WriteEvent>, e12: Seq<WriteEvent>, e13: Seq<WriteEvent>,
    v0: T1, v1: T2, v2: T3, v3: T4, v4: T5, v5: T6, v6: T7, v7: T8, v8: T9, v9: T10, v10: T11, v11: T12, v12: T13, v13: T14,
)
    requires
        parts == seq![e0, e1, e2, e3, e4, e5, e6, e7, e8, e9, e10, e11, e12, e13],
        T1::decoded_from(e0, v0),
        T2::decoded_from(e1, v1),
        T3::decoded_from(e2, v2),
        T4::decoded_from(e3, v3),
        T5::decoded_from(e4, v4),
        T6::decoded_from(e5, v5),
        T7::decoded_from(e6, v6),
        T8::decoded_from(e7, v7),
        T9::decoded_from(e8, v8),
        T10::decoded_from(e9, v9),
        T11::decoded_from(e10, v10),
        T12::decoded_from(e11, v11),
        T13::decoded_from(e12, v12),
        T14::decoded_from(e13, v13),
    ensures
        parts.len() == 14,
        T1::decoded_from(parts[0], v0),
        T2::decoded_from(parts[1], v1),
        T3::decoded_from(parts[2], v2),
        T4::decoded_from(parts[3], v3),
        T5::decoded_from(parts[4], v4),
        T6::decoded_from(parts[5], v5),
        T7::decoded_from(parts[6], v6),
        T8::decoded_from(parts[7], v7),
        T9::decoded_from(parts[8], v8),
        T10::decoded_from(parts[9], v9),
        T11::decoded_from(parts[10], v10),
        T12::decoded_from(parts[11], v11),
        T13::decoded_from(parts[12], v12),
        T14::decoded_from(parts[13], v13),
{
}

/// The runs of events of the 15 fields of a tuple, each giving its field.
proof fn lemma_tuple_parts_15<T1: SmolRead, T2: SmolRead, T3: SmolRead, T4: SmolRead, T5: SmolRead, T6: SmolRead, T7: SmolRead, T8: SmolRead, T9: SmolRead, T10: SmolRead, T11: SmolRead, T12: SmolRead, T13: SmolRead, T14: SmolRead, T15: SmolRead>(
    parts: Seq<Seq<WriteEvent>>,
    e0: Seq<WriteEvent>, e1: Seq<WriteEvent>, e2: Seq<WriteEvent>, e3: Seq<WriteEvent>, e4: Seq<WriteEvent>, e5: Seq<WriteEvent>, e6: Seq<WriteEvent>, e7: Seq<WriteEvent>, e8: Seq<WriteEvent>, e9: Seq<WriteEvent>, e10: Seq<WriteEvent>, e11: Seq<WriteEvent>, e12: Seq<WriteEvent>, e13: Seq<WriteEvent>, e14: Seq<WriteEvent>,
    v0: T1, v1: T2, v2: T3, v3: T4, v4: T5, v5: T6, v6: T7, v7: T8, v8: T9, v9: T10, v10: T11, v11: T12, v12: T13, v13: T14, v14: T15,
)
    requires
        parts == seq![e0, e1, e2, e3, e4, e5, e6, e7, e8, e9, e10, e11, e12, e13, e14],
        T1::decoded_from(e0, v0),
        T2::decoded_from(e1, v1),
        T3::decoded_from(e2, v2),
        T4::decoded_from(e3, v3),
        T5::decoded_from(e4, v4),
        T6::decoded_from(e5, v5),
        T7::decoded_from(e6, v6),
        T8::decoded_from(e7, v7),
        T9::decoded_from(e8, v8),
        T10::decoded_from(e9, v9),
        T11::decoded_from(e10, v10),
        T12::decoded_from(e11, v11),
        T13::decoded_from(e12, v12),
        T14::decoded_from(e13, v13),
        T15::decoded_from(e14, v14),
    ensures
        parts.len() == 15,
        T1::decoded_from(parts[0], v0),
        T2::decoded_from(parts[1], v1),
        T3::decoded_from(parts[2], v2),
        T4::decoded_from(parts[3], v3),
        T5::decoded_from(parts[4], v4),
        T6::decoded_from(parts[5], v5),
        T7::decoded_from(parts[6], v6),
        T8::decoded_from(parts[7], v7),
        T9::decoded_from(parts[8], v8),
        T10::decoded_from(parts[9], v9),
        T11::decoded_from(parts[10], v10),
        T12::decoded_from(parts[11], v11),
        T13::decoded_from(parts[12], v12),
        T14::decoded_from(parts[13], v13),
        T15::decoded_from(parts[14], v14),
{
}

/// The runs of events of the 16 fields of a tuple, each giving its field.
proof fn lemma_tuple_parts_16<T1: SmolRead, T2: SmolRead, T3: SmolRead, T4: SmolRead, T5: SmolRead, T6: SmolRead, T7: SmolRead, T8: SmolRead, T9: SmolRead, T10: SmolRead, T11: SmolRead, T12: SmolRead, T13: SmolRead, T14: SmolRead, T15: SmolRead, T16: SmolRead>(
    parts: Seq<Seq<WriteEvent>>,
    e0: Seq<WriteEvent>, e1: Seq<WriteEvent>, e2: Seq<WriteEvent>, e3: Seq<WriteEvent>, e4: Seq<WriteEvent>, e5: Seq<WriteEvent>, e6: Seq<WriteEvent>, e7: Seq<WriteEvent>, e8: Seq<WriteEvent>, e9: Seq<WriteEvent>, e10: Seq<WriteEvent>, e11: Seq<WriteEvent>, e12: Seq<WriteEvent>, e13: Seq<WriteEvent>, e14: Seq<WriteEvent>, e15: Seq<WriteEvent>,
    v0: T1, v1: T2, v2: T3, v3: T4, v4: T5, v5: T6, v6: T7, v7: T8, v8: T9, v9: T10, v10: T11, v11: T12, v12: T13, v13: T14, v14: T15, v15: T16,
)
    requires
        parts == seq![e0, e1, e2, e3, e4, e5, e6, e7, e8, e9, e10, e11, e12, e13, e14, e15],
        T1::decoded_from(e0, v0),
        T2::decoded_from(e1, v1),
        T3::decoded_from(e2, v2),
        T4::decoded_from(e3, v3),
        T5::decoded_from(e4, v4),
        T6::decoded_from(e5, v5),
        T7::decoded_from(e6, v6),
        T8::decoded_from(e7, v7),
        T9::decoded_from(e8, v8),
        T10::decoded_from(e9, v9),
        T11::decoded_from(e10, v10),
        T12::decoded_from(e11, v11),
        T13::decoded_from(e12, v12),
        T14::decoded_from(e13, v13),
        T15::decoded_from(e14, v14),
        T16::decoded_from(e15, v15),
    ensures
        parts.len() == 16,
        T1::decoded_from(parts[0], v0),
        T2::decoded_from(parts[1], v1),
        T3::decoded_from(parts[2], v2),
        T4::decoded_from(parts[3], v3),
        T5::decoded_from(parts[4], v4),
        T6::decoded_from(parts[5], v5),
        T7::decoded_from(parts[6], v6),
        T8::decoded_from(parts[7], v7),
        T9::decoded_from(parts[8], v8),
        T10::decoded_from(parts[9], v9),
        T11::decoded_from(parts[10], v10),
        T12::decoded_from(parts[11], v11),
        T13::decoded_from(parts[12], v12),
        T14::decoded_from(parts[13], v13),
        T15::decoded_from(parts[14], v14),
        T16::decoded_from(parts[15], v15),
{
}

/// The events of a field read after the runs `parts`, from `s` to `new`: all
/// of them are read from `m0` up to where the field ends.
proof fn lemma_field_read<T: SmolRead>(
    m0: ReaderModel,
    parts: Seq<Seq<WriteEvent>>,
    s: ReaderModel,
    new: ReaderModel,
    v: T,
) -> (e: Seq<WriteEvent>)
    requires
        read_all(m0, joined_events(parts)) == Some((joined_events(parts), s)),
        exists|e: Seq<WriteEvent>|
            #![trigger read_all(s, e)]
            T::decoded_from(e, v) && e.len() > 0 && e[0] is Tag && read_all(s, e) == Some((e, new)),
    ensures
        T::decoded_from(e, v),
        read_all(m0, joined_events(parts.push(e))) == Some((joined_events(parts.push(e)), new)),
{
    let e = choose|e: Seq<WriteEvent>|
        #![trigger read_all(s, e)]
        T::decoded_from(e, v) && e.len() > 0 && e[0] is Tag && read_all(s, e) == Some((e, new));
    lemma_part_read(m0, parts, s, e, new);
    e
}

/// Reads the next field of a tuple of `n` fields that holds `length` values,
/// where the runs of events `parts` of the fields before it were read from
/// `m0`: the value, and the run of events it was read from.
fn read_tuple_field<T: SmolRead>(
    tuple: &mut TupleReader,
    n: usize,
    length: usize,
    Ghost(m0): Ghost<ReaderModel>,
    Ghost(parts): Ghost<Seq<Seq<WriteEvent>>>,
) -> (r: ReadResult<(T, Ghost<Seq<WriteEvent>>)>)
    requires
        read_all(m0, joined_events(parts)) == Some((joined_events(parts), (*old(tuple).reader)@)),
    ensures
        *final(final(tuple).reader) == *final(old(tuple).reader),
        old(tuple).remaining == 0 ==> (r matches Err(b) && *b == (ReadError::UnexpectedLength {
            expected: n,
            got: length,
            type_label: "tuple",
        })),
        old(tuple).remaining > 0 ==> final(tuple).remaining == old(tuple).remaining - 1,
        r matches Ok((v, e)) ==> {
            &&& T::decoded_from(e@, v)
            &&& read_all(m0, joined_events(parts.push(e@))) == Some(
                (joined_events(parts.push(e@)), (*final(tuple).reader)@),
            )
            &&& progressed((*old(tuple).reader)@, (*final(tuple).reader)@)
        },
        forall|a: Seq<WriteEvent>|
            #[trigger] T::read_owed(a) && reads_through((*old(tuple).reader)@, a)
                && old(tuple).remaining > 0 ==> r is Ok && read_all((*old(tuple).reader)@, a).unwrap().1
                == (*final(tuple).reader)@,
{
    let ghost s = (*tuple.reader)@;
    match tuple.read_value() {
        Some(vr) => match T::read(vr) {
            Ok(v) => {
                let ghost e = lemma_field_read::<T>(m0, parts, s, (*tuple.reader)@, v);
                Ok((v, Ghost(e)))
            },
            Err(e) => Err(e),
        },
        None => Err(
            Box::new(ReadError::UnexpectedLength { expected: n, got: length, type_label: "tuple" }),
        ),
    }
}

/// The map that inserting the keys `ks` with the values `vs`, in order, makes
/// from an empty map: a key given twice keeps its later value.
pub open spec fn map_of_pairs<K, V>(ks: Seq<K>, vs: Seq<V>) -> Map<K, V>
    decreases ks.len(),
{
    if ks.len() == 0 {
        Map::empty()
    } else {
        map_of_pairs(ks.drop_last(), vs.drop_last()).insert(ks.last(), vs.last())
    }
}

/// The keys' order is the total order that `BTreeMap` keeps its keys by.
pub open spec fn keys_ordered<K: Ord>() -> bool {
    vstd::laws_cmp::obeys_cmp::<K>()
}

/// The events `es` give the pairs of keys `ks` and values `vs`, one after
/// another, each key before its value.
pub open spec fn pairs_from<K: SmolRead, V: SmolRead>(es: Seq<WriteEvent>, ks: Seq<K>, vs: Seq<V>) -> bool
    decreases ks.len(),
{
    ks.len() == vs.len() && if ks.len() == 0 {
        es.len() == 0
    } else {
        exists|k: int, j: int|
            #![trigger es.take(k), es.subrange(k, j), es.skip(j)]
            0 <= k <= j <= es.len() && pairs_from(es.take(k), ks.drop_last(), vs.drop_last())
                && K::decoded_from(es.subrange(k, j), ks.last()) && V::decoded_from(
                es.skip(j),
                vs.last(),
            )
    }
}

/// The events `es` give the pairs of a map of length `len`: that many pairs,
/// or, with no length, pairs up to an end marker.
pub open spec fn counted_pairs_from<K: SmolRead, V: SmolRead>(
    es: Seq<WriteEvent>,
    len: Option<usize>,
    ks: Seq<K>,
    vs: Seq<V>,
) -> bool {
    match len {
        Some(n) => n == ks.len() && pairs_from(es, ks, vs),
        None => es.len() > 0 && es.last() == WriteEvent::End && pairs_from(es.drop_last(), ks, vs),
    }
}

/// One more pair read after the pairs `ks`, `vs`, from where the reader stood,
/// or from where it looked for an end marker and found a tag: the events read
/// give the pairs and the new one.
proof fn lemma_pair_read<K: SmolRead, V: SmolRead>(
    m0: ReaderModel,
    done: Seq<WriteEvent>,
    ks: Seq<K>,
    vs: Seq<V>,
    s0: ReaderModel,
    mid: ReaderModel,
    after_key: ReaderModel,
    new: ReaderModel,
    k: K,
    v: V,
) -> (d2: Seq<WriteEvent>)
    requires
        read_all(m0, done) == Some((done, s0)),
        pairs_from(done, ks, vs),
        exists|e: Seq<WriteEvent>|
            #![trigger read_all(mid, e)]
            K::decoded_from(e, k) && e.len() > 0 && e[0] is Tag && read_all(mid, e) == Some(
                (e, after_key),
            ),
        exists|e: Seq<WriteEvent>|
            #![trigger read_all(after_key, e)]
            V::decoded_from(e, v) && e.len() > 0 && e[0] is Tag && read_all(after_key, e) == Some(
                (e, new),
            ),
        mid == s0 || (s0.wf() && s0.next_seq_end() == Ok::<(bool, ReaderModel), ReadError>(
            (false, mid),
        )),
    ensures
        read_all(m0, d2) == Some((d2, new)),
        pairs_from(d2, ks.push(k), vs.push(v)),
{
    let ek = choose|e: Seq<WriteEvent>|
        #![trigger read_all(mid, e)]
        K::decoded_from(e, k) && e.len() > 0 && e[0] is Tag && read_all(mid, e) == Some(
            (e, after_key),
        );
    let ev = choose|e: Seq<WriteEvent>|
        #![trigger read_all(after_key, e)]
        V::decoded_from(e, v) && e.len() > 0 && e[0] is Tag && read_all(after_key, e) == Some(
            (e, new),
        );
    if mid != s0 {
        lemma_read_all_after_peek(s0, mid, ek);
    }
    lemma_read_all_concat(m0, done, s0, ek, after_key);
    lemma_read_all_concat(m0, done + ek, after_key, ev, new);
    let d2 = done + ek + ev;
    let a = done.len() as int;
    let b = (done.len() + ek.len()) as int;
    assert(d2.take(a) =~= done);
    assert(d2.subrange(a, b) =~= ek);
    assert(d2.skip(b) =~= ev);
    assert(ks.push(k).drop_last() =~= ks);
    assert(vs.push(v).drop_last() =~= vs);
    assert(pairs_from(d2.take(a), ks.push(k).drop_last(), vs.push(v).drop_last()) && K::decoded_from(
        d2.subrange(a, b),
        ks.push(k).last(),
    ) && V::decoded_from(d2.skip(b), vs.push(v).last()));
    d2
}

/// The events `es` give the values `vs`, one after another.
pub open spec fn items_from<T: SmolRead>(es: Seq<WriteEvent>, vs: Seq<T>) -> bool
    decreases vs.len(),
{
    if vs.len() == 0 {
        es.len() == 0
    } else {
        exists|k: int|
            #![trigger es.take(k), es.skip(k)]
            0 <= k <= es.len() && items_from(es.take(k), vs.drop_last()) && T::decoded_from(
                es.skip(k),
                vs.last(),
            )
    }
}

/// The events `es` give the values `vs` of an array of length `len`: that many
/// values, or, with no length, values up to an end marker.
pub open spec fn counted_items_from<T: SmolRead>(
    es: Seq<WriteEvent>,
    len: Option<usize>,
    vs: Seq<T>,
) -> bool {
    match len {
        Some(n) => n == vs.len() && items_from(es, vs),
        None => es.len() > 0 && es.last() == WriteEvent::End && items_from(es.drop_last(), vs),
    }
}

/// The error for a value whose tag `t` starts another kind of value than the
/// kind `expected` that the type named `label` reads.
pub open spec fn wrong_kind(t: TagModel, expected: ValueTypeRequirement, label: &'static str) -> ReadError {
    ReadError::UnexpectedValueForType(
        UnexpectedValueForTypeError { expected, found: tag_value_type(t), type_label: label },
    )
}

/// Reading a container of the kind `expected`, that the tags `is_kind` start,
/// as the type named `label`, from the reader `before`: a tag that cannot be
/// read gives its error, and a tag of another kind the error for it.
pub open spec fn container_tag_read<T>(
    before: ReaderModel,
    r: ReadResult<T>,
    is_kind: spec_fn(TagModel) -> bool,
    expected: ValueTypeRequirement,
    label: &'static str,
) -> bool {
    match before.next_tag() {
        Err(e) => r matches Err(b) && *b == e,
        Ok((t, _)) => !is_kind(t) ==> (r matches Err(b) && *b == wrong_kind(t, expected, label)),
    }
}

/// One tag that holds a primitive of type `ty`: the events on which reading a
/// value of that type owes it.
pub open spec fn primitive_owed(es: Seq<WriteEvent>, ty: PrimitiveType) -> bool {
    &&& es.len() == 1
    &&& es[0] matches WriteEvent::Tag(t) && (tag_primitive(t) matches Some(p) && p.spec_ty()
        == ty)
}

/// Reading one tag as it is: the reader's next tag is that tag, and reading
/// ends after it.
proof fn lemma_one_tag_read(r: ReaderModel, es: Seq<WriteEvent>)
    requires
        es.len() == 1,
        es[0] is Tag,
        reads_through(r, es),
    ensures
        r.next_tag() == Ok::<(TagModel, ReaderModel), ReadError>(
            (es[0]->Tag_0, read_all(r, es).unwrap().1),
        ),
{
    let r2 = crate::readback::lemma_reads_through_first(r, es);
    assert(es.drop_first().len() == 0);
}

/// The outcome of reading a value of primitive type `expected`, named `label`,
/// with reader `before`: the value of that type, or the error for any other.
pub open spec fn primitive_read<T>(
    before: ReaderModel,
    after: ReaderModel,
    r: ReadResult<T>,
    expected: PrimitiveType,
    label: &'static str,
    as_primitive: spec_fn(T) -> Primitive,
) -> bool {
    match before.next_tag() {
        Err(e) => r matches Err(b) && *b == e && before.failed_to(after),
        Ok((t, m)) => after == m && match tag_primitive(t) {
            Some(p) => if p.spec_ty() == expected {
                r matches Ok(x) && as_primitive(x) == p
            } else {
                r matches Err(b) && *b == ReadError::UnexpectedValueForType(
                    UnexpectedValueForTypeError {
                        expected: ValueTypeRequirement::Primitive(Some(expected)),
                        found: ValueType::Primitive(p.spec_ty()),
                        type_label: label,
                    },
                )
            },
            None => r matches Err(b) && *b == ReadError::UnexpectedValue(
                UnexpectedValueError {
                    expected: ValueTypeRequirement::Primitive(None),
                    found: tag_value_type(t),
                },
            ),
        },
    }
}

impl SmolWrite for () {
    open spec fn written_events(&self) -> Seq<WriteEvent> {
        seq![WriteEvent::Tag(crate::writer::WritePrimitive::spec_tag(*self))]
    }

    fn write(&self, writer: ValueWriter) -> (r: Result<(), WriteError>)
        ensures
            write_outcome(
                (*old(writer.writer))@,
                (*old(writer.writer))@.write_tag(crate::writer::WritePrimitive::spec_tag(*self)),
                r,
                (*final(writer.writer))@,
            ),
    {
        writer.write_primitive(*self)
    }
}

impl SmolRead for () {
    open spec fn decoded_from(es: Seq<WriteEvent>, v: Self) -> bool {
        es == seq![WriteEvent::Tag(crate::writer::WritePrimitive::spec_tag(v))]
    }

    open spec fn read_owed(es: Seq<WriteEvent>) -> bool {
        primitive_owed(es, PrimitiveType::Unit)
    }

    fn read(reader: ValueReader) -> (r: ReadResult<Self>)
        ensures
            primitive_read(
                (*old(reader.reader))@,
                (*final(reader.reader))@,
                r,
                PrimitiveType::Unit,
                "unit",
                |x: ()| Primitive::Unit,
            ),
    {
        let ghost before = (*reader.reader)@;
        proof {
            assert forall|es: Seq<WriteEvent>|
                #[trigger] Self::read_owed(es) && reads_through(before, es) implies before.next_tag()
                == Ok::<(TagModel, ReaderModel), ReadError>(
                (es[0]->Tag_0, read_all(before, es).unwrap().1),
            ) by {
                lemma_one_tag_read(before, es);
            }
        }
        let reading = match reader.read() {
            Ok(x) => x,
            Err(e) => {
                return Err(e);
            },
        };
        proof {
            let t = before.next_tag().unwrap().0;
            lemma_fits_kind(&reading, t);
            lemma_next_tag_progress(before);
        }
        let found = reading.ty();
        let pri = match reading {
            ValueReading::Primitive(p) => p,
            _ => {
                return Err(
                    Box::new(
                        ReadError::UnexpectedValue(
                            UnexpectedValueError {
                                expected: ValueTypeRequirement::Primitive(None),
                                found,
                            },
                        ),
                    ),
                );
            },
        };
        match <() as TryFrom<Primitive>>::try_from(pri) {
            Ok(v) => {
                proof {
                    lemma_read_tag_event(before);
                    let es = seq![WriteEvent::Tag(before.next_tag().unwrap().0)];
                    assert(<() as SmolRead>::decoded_from(es, v) && es.len() > 0 && es[0] is Tag);
                    assert(read_all(before, es) == Some((es, (*final(reader.reader))@)));
                }
                Ok(v)
            },
            Err(e) => Err(Box::new(ReadError::UnexpectedValueForType(e.with_type_name("unit")))),
        }
    }
}

impl SmolWrite for bool {
    open spec fn written_events(&self) -> Seq<WriteEvent> {
        seq![WriteEvent::Tag(crate::writer::WritePrimitive::spec_tag(*self))]
    }

    fn write(&self, writer: ValueWriter) -> (r: Result<(), WriteError>)
        ensures
            write_outcome(
                (*old(writer.writer))@,
                (*old(writer.writer))@.write_tag(crate::writer::WritePrimitive::spec_tag(*self)),
                r,
                (*final(writer.writer))@,
            ),
    {
        writer.write_primitive(*self)
    }
}

impl SmolRead for bool {
    open spec fn decoded_from(es: Seq<WriteEvent>, v: Self) -> bool {
        es == seq![WriteEvent::Tag(crate::writer::WritePrimitive::spec_tag(v))]
    }

    open spec fn read_owed(es: Seq<WriteEvent>) -> bool {
        primitive_owed(es, PrimitiveType::Bool)
    }

    fn read(reader: ValueReader) -> (r: ReadResult<Self>)
        ensures
            primitive_read(
                (*old(reader.reader))@,
                (*final(reader.reader))@,
                r,
                PrimitiveType::Bool,
                "bool",
                |x: bool| Primitive::Bool(x),
            ),
    {
        let ghost before = (*reader.reader)@;
        proof {
            assert forall|es: Seq<WriteEvent>|
                #[trigger] Self::read_owed(es) && reads_through(before, es) implies before.next_tag()
                == Ok::<(TagModel, ReaderModel), ReadError>(
                (es[0]->Tag_0, read_all(before, es).unwrap().1),
            ) by {
                lemma_one_tag_read(before, es);
            }
        }
        let reading = match reader.read() {
            Ok(x) => x,
            Err(e) => {
                return Err(e);
            },
        };
        proof {
            let t = before.next_tag().unwrap().0;
            lemma_fits_kind(&reading, t);
            lemma_next_tag_progress(before);
        }
        let found = reading.ty();
        let pri = match reading {
            ValueReading::Primitive(p) => p,
            _ => {
                return Err(
                    Box::new(
                        ReadError::UnexpectedValue(
                            UnexpectedValueError {
                                expected: ValueTypeRequirement::Primitive(None),
                                found,
                            },
                        ),
                    ),
                );
            },
        };
        match <bool as TryFrom<Primitive>>::try_from(pri) {
            Ok(v) => {
                proof {
                    lemma_read_tag_event(before);
                    let es = seq![WriteEvent::Tag(before.next_tag().unwrap().0)];
                    assert(<bool as SmolRead>::decoded_from(es, v) && es.len() > 0 && es[0] is Tag);
                    assert(read_all(before, es) == Some((es, (*final(reader.reader))@)));
                }
                Ok(v)
            },
            Err(e) => Err(Box::new(ReadError::UnexpectedValueForType(e.with_type_name("bool")))),
        }
    }
}

impl SmolWrite for char {
    open spec fn written_events(&self) -> Seq<WriteEvent> {
        seq![WriteEvent::Tag(crate::writer::WritePrimitive::spec_tag(*self))]
    }

    fn write(&self, writer: ValueWriter) -> (r: Result<(), WriteError>)
        ensures
            write_outcome(
                (*old(writer.writer))@,
                (*old(writer.writer))@.write_tag(crate::writer::WritePrimitive::spec_tag(*self)),
                r,
                (*final(writer.writer))@,
            ),
    {
        writer.write_primitive(*self)
    }
}

impl SmolRead for char {
    open spec fn decoded_from(es: Seq<WriteEvent>, v: Self) -> bool {
        es == seq![WriteEvent::Tag(crate::writer::WritePrimitive::spec_tag(v))]
    }

    open spec fn read_owed(es: Seq<WriteEvent>) -> bool {
        primitive_owed(es, PrimitiveType::Char)
    }

    fn read(reader: ValueReader) -> (r: ReadResult<Self>)
        ensures
            primitive_read(
                (*old(reader.reader))@,
                (*final(reader.reader))@,
                r,
                PrimitiveType::Char,
                "char",
                |x: char| Primitive::Char(x),
            ),
    {
        let ghost before = (*reader.reader)@;
        proof {
            assert forall|es: Seq<WriteEvent>|
                #[trigger] Self::read_owed(es) && reads_through(before, es) implies before.next_tag()
                == Ok::<(TagModel, ReaderModel), ReadError>(
                (es[0]->Tag_0, read_all(before, es).unwrap().1),
            ) by {
                lemma_one_tag_read(before, es);
            }
        }
        let reading = match reader.read() {
            Ok(x) => x,
            Err(e) => {
                return Err(e);
            },
        };
        proof {
            let t = before.next_tag().unwrap().0;
            lemma_fits_kind(&reading, t);
            lemma_next_tag_progress(before);
        }
        let found = reading.ty();
        let pri = match reading {
            ValueReading::Primitive(p) => p,
            _ => {
                return Err(
                    Box::new(
                        ReadError::UnexpectedValue(
                            UnexpectedValueError {
                                expected: ValueTypeRequirement::Primitive(None),
                                found,
                            },
                        ),
                    ),
                );
            },
        };
        match <char as TryFrom<Primitive>>::try_from(pri) {
            Ok(v) => {
                proof {
                    lemma_read_tag_event(before);
                    let es = seq![WriteEvent::Tag(before.next_tag().unwrap().0)];
                    assert(<char as SmolRead>::decoded_from(es, v) && es.len() > 0 && es[0] is Tag);
                    assert(read_all(before, es) == Some((es, (*final(reader.reader))@)));
                }
                Ok(v)
            },
            Err(e) => Err(Box::new(ReadError::UnexpectedValueForType(e.with_type_name("char")))),
        }
    }
}

impl SmolWrite for i8 {
    open spec fn written_events(&self) -> Seq<WriteEvent> {
        seq![WriteEvent::Tag(crate::writer::WritePrimitive::spec_tag(*self))]
    }

    fn write(&self, writer: ValueWriter) -> (r: Result<(), WriteError>)
        ensures
            write_outcome(
                (*old(writer.writer))@,
                (*old(writer.writer))@.write_tag(crate::writer::WritePrimitive::spec_tag(*self)),
                r,
                (*final(writer.writer))@,
            ),
    {
        writer.write_primitive(*self)
    }
}

impl SmolRead for i8 {
    open spec fn decoded_from(es: Seq<WriteEvent>, v: Self) -> bool {
        es == seq![WriteEvent::Tag(crate::writer::WritePrimitive::spec_tag(v))]
    }

    open spec fn read_owed(es: Seq<WriteEvent>) -> bool {
        primitive_owed(es, PrimitiveType::I8)
    }

    fn read(reader: ValueReader) -> (r: ReadResult<Self>)
        ensures
            primitive_read(
                (*old(reader.reader))@,
                (*final(reader.reader))@,
                r,
                PrimitiveType::I8,
                "i8",
                |x: i8| Primitive::I8(x),
            ),
    {
        let ghost before = (*reader.reader)@;
        proof {
            assert forall|es: Seq<WriteEvent>|
                #[trigger] Self::read_owed(es) && reads_through(before, es) implies before.next_tag()
                == Ok::<(TagModel, ReaderModel), ReadError>(
                (es[0]->Tag_0, read_all(before, es).unwrap().1),
            ) by {
                lemma_one_tag_read(before, es);
            }
        }
        let reading = match reader.read() {
            Ok(x) => x,
            Err(e) => {
                return Err(e);
            },
        };
        proof {
            let t = before.next_tag().unwrap().0;
            lemma_fits_kind(&reading, t);
            lemma_next_tag_progress(before);
        }
        let found = reading.ty();
        let pri = match reading {
            ValueReading::Primitive(p) => p,
            _ => {
                return Err(
                    Box::new(
                        ReadError::UnexpectedValue(
                            UnexpectedValueError {
                                expected: ValueTypeRequirement::Primitive(None),
                                found,
                            },
                        ),
                    ),
                );
            },
        };
        match <i8 as TryFrom<Primitive>>::try_from(pri) {
            Ok(v) => {
                proof {
                    lemma_read_tag_event(before);
                    let es = seq![WriteEvent::Tag(before.next_tag().unwrap().0)];
                    assert(<i8 as SmolRead>::decoded_from(es, v) && es.len() > 0 && es[0] is Tag);
                    assert(read_all(before, es) == Some((es, (*final(reader.reader))@)));
                }
                Ok(v)
            },
            Err(e) => Err(Box::new(ReadError::UnexpectedValueForType(e.with_type_name("i8")))),
        }
    }
}

impl SmolWrite for u8 {
    open spec fn written_events(&self) -> Seq<WriteEvent> {
        seq![WriteEvent::Tag(crate::writer::WritePrimitive::spec_tag(*self))]
    }

    fn write(&self, writer: ValueWriter) -> (r: Result<(), WriteError>)
        ensures
            write_outcome(
                (*old(writer.writer))@,
                (*old(writer.writer))@.write_tag(crate::writer::WritePrimitive::spec_tag(*self)),
                r,
                (*final(writer.writer))@,
            ),
    {
        writer.write_primitive(*self)
    }
}

impl SmolRead for u8 {
    open spec fn decoded_from(es: Seq<WriteEvent>, v: Self) -> bool {
        es == seq![WriteEvent::Tag(crate::writer::WritePrimitive::spec_tag(v))]
    }

    open spec fn read_owed(es: Seq<WriteEvent>) -> bool {
        primitive_owed(es, PrimitiveType::U8)
    }

    fn read(reader: ValueReader) -> (r: ReadResult<Self>)
        ensures
            primitive_read(
                (*old(reader.reader))@,
                (*final(reader.reader))@,
                r,
                PrimitiveType::U8,
                "u8",
                |x: u8| Primitive::U8(x),
            ),
    {
        let ghost before = (*reader.reader)@;
        proof {
            assert forall|es: Seq<WriteEvent>|
                #[trigger] Self::read_owed(es) && reads_through(before, es) implies before.next_tag()
                == Ok::<(TagModel, ReaderModel), ReadError>(
                (es[0]->Tag_0, read_all(before, es).unwrap().1),
            ) by {
                lemma_one_tag_read(before, es);
            }
        }
        let reading = match reader.read() {
            Ok(x) => x,
            Err(e) => {
                return Err(e);
            },
        };
        proof {
            let t = before.next_tag().unwrap().0;
            lemma_fits_kind(&reading, t);
            lemma_next_tag_progress(before);
        }
        let found = reading.ty();
        let pri = match reading {
            ValueReading::Primitive(p) => p,
            _ => {
                return Err(
                    Box::new(
                        ReadError::UnexpectedValue(
                            UnexpectedValueError {
                                expected: ValueTypeRequirement::Primitive(None),
                                found,
                            },
                        ),
                    ),
                );
            },
        };
        match <u8 as TryFrom<Primitive>>::try_from(pri) {
            Ok(v) => {
                proof {
                    lemma_read_tag_event(before);
                    let es = seq![WriteEvent::Tag(before.next_tag().unwrap().0)];
                    assert(<u8 as SmolRead>::decoded_from(es, v) && es.len() > 0 && es[0] is Tag);
                    assert(read_all(before, es) == Some((es, (*final(reader.reader))@)));
                }
                Ok(v)
            },
            Err(e) => Err(Box::new(ReadError::UnexpectedValueForType(e.with_type_name("u8")))),
        }
    }
}

impl SmolWrite for i16 {
    open spec fn written_events(&self) -> Seq<WriteEvent> {
        seq![WriteEvent::Tag(crate::writer::WritePrimitive::spec_tag(*self))]
    }

    fn write(&self, writer: ValueWriter) -> (r: Result<(), WriteError>)
        ensures
            write_outcome(
                (*old(writer.writer))@,
                (*old(writer.writer))@.write_tag(crate::writer::WritePrimitive::spec_tag(*self)),
                r,
                (*final(writer.writer))@,
            ),
    {
        writer.write_primitive(*self)
    }
}

impl SmolRead for i16 {
    open spec fn decoded_from(es: Seq<WriteEvent>, v: Self) -> bool {
        es == seq![WriteEvent::Tag(crate::writer::WritePrimitive::spec_tag(v))]
    }

    open spec fn read_owed(es: Seq<WriteEvent>) -> bool {
        primitive_owed(es, PrimitiveType::I16)
    }

    fn read(reader: ValueReader) -> (r: ReadResult<Self>)
        ensures
            primitive_read(
                (*old(reader.reader))@,
                (*final(reader.reader))@,
                r,
                PrimitiveType::I16,
                "i16",
                |x: i16| Primitive::I16(x),
            ),
    {
        let ghost before = (*reader.reader)@;
        proof {
            assert forall|es: Seq<WriteEvent>|
                #[trigger] Self::read_owed(es) && reads_through(before, es) implies before.next_tag()
                == Ok::<(TagModel, ReaderModel), ReadError>(
                (es[0]->Tag_0, read_all(before, es).unwrap().1),
            ) by {
                lemma_one_tag_read(before, es);
            }
        }
        let reading = match reader.read() {
            Ok(x) => x,
            Err(e) => {
                return Err(e);
            },
        };
        proof {
            let t = before.next_tag().unwrap().0;
            lemma_fits_kind(&reading, t);
            lemma_next_tag_progress(before);
        }
        let found = reading.ty();
        let pri = match reading {
            ValueReading::Primitive(p) => p,
            _ => {
                return Err(
                    Box::new(
                        ReadError::UnexpectedValue(
                            UnexpectedValueError {
                                expected: ValueTypeRequirement::Primitive(None),
                                found,
                            },
                        ),
                    ),
                );
            },
        };
        match <i16 as TryFrom<Primitive>>::try_from(pri) {
            Ok(v) => {
                proof {
                    lemma_read_tag_event(before);
                    let es = seq![WriteEvent::Tag(before.next_tag().unwrap().0)];
                    assert(<i16 as SmolRead>::decoded_from(es, v) && es.len() > 0 && es[0] is Tag);
                    assert(read_all(before, es) == Some((es, (*final(reader.reader))@)));
                }
                Ok(v)
            },
            Err(e) => Err(Box::new(ReadError::UnexpectedValueForType(e.with_type_name("i16")))),
        }
    }
}

impl SmolWrite for u16 {
    open spec fn written_events(&self) -> Seq<WriteEvent> {
        seq![WriteEvent::Tag(crate::writer::WritePrimitive::spec_tag(*self))]
    }

    fn write(&self, writer: ValueWriter) -> (r: Result<(), WriteError>)
        ensures
            write_outcome(
                (*old(writer.writer))@,
                (*old(writer.writer))@.write_tag(crate::writer::WritePrimitive::spec_tag(*self)),
                r,
                (*final(writer.writer))@,
            ),
    {
        writer.write_primitive(*self)
    }
}

impl SmolRead for u16 {
    open spec fn decoded_from(es: Seq<WriteEvent>, v: Self) -> bool {
        es == seq![WriteEvent::Tag(crate::writer::WritePrimitive::spec_tag(v))]
    }

    open spec fn read_owed(es: Seq<WriteEvent>) -> bool {
        primitive_owed(es, PrimitiveType::U16)
    }

    fn read(reader: ValueReader) -> (r: ReadResult<Self>)
        ensures
            primitive_read(
                (*old(reader.reader))@,
                (*final(reader.reader))@,
                r,
                PrimitiveType::U16,
                "u16",
                |x: u16| Primitive::U16(x),
            ),
    {
        let ghost before = (*reader.reader)@;
        proof {
            assert forall|es: Seq<WriteEvent>|
                #[trigger] Self::read_owed(es) && reads_through(before, es) implies before.next_tag()
                == Ok::<(TagModel, ReaderModel), ReadError>(
                (es[0]->Tag_0, read_all(before, es).unwrap().1),
            ) by {
                lemma_one_tag_read(before, es);
            }
        }
        let reading = match reader.read() {
            Ok(x) => x,
            Err(e) => {
                return Err(e);
            },
        };
        proof {
            let t = before.next_tag().unwrap().0;
            lemma_fits_kind(&reading, t);
            lemma_next_tag_progress(before);
        }
        let found = reading.ty();
        let pri = match reading {
            ValueReading::Primitive(p) => p,
            _ => {
                return Err(
                    Box::new(
                        ReadError::UnexpectedValue(
                            UnexpectedValueError {
                                expected: ValueTypeRequirement::Primitive(None),
                                found,
                            },
                        ),
                    ),
                );
            },
        };
        match <u16 as TryFrom<Primitive>>::try_from(pri) {
            Ok(v) => {
                proof {
                    lemma_read_tag_event(before);
                    let es = seq![WriteEvent::Tag(before.next_tag().unwrap().0)];
                    assert(<u16 as SmolRead>::decoded_from(es, v) && es.len() > 0 && es[0] is Tag);
                    assert(read_all(before, es) == Some((es, (*final(reader.reader))@)));
                }
                Ok(v)
            },
            Err(e) => Err(Box::new(ReadError::UnexpectedValueForType(e.with_type_name("u16")))),
        }
    }
}

impl SmolWrite for i32 {
    open spec fn written_events(&self) -> Seq<WriteEvent> {
        seq![WriteEvent::Tag(crate::writer::WritePrimitive::spec_tag(*self))]
    }

    fn write(&self, writer: ValueWriter) -> (r: Result<(), WriteError>)
        ensures
            write_outcome(
                (*old(writer.writer))@,
                (*old(writer.writer))@.write_tag(crate::writer::WritePrimitive::spec_tag(*self)),
                r,
                (*final(writer.writer))@,
            ),
    {
        writer.write_primitive(*self)
    }
}

impl SmolRead for i32 {
    open spec fn decoded_from(es: Seq<WriteEvent>, v: Self) -> bool {
        es == seq![WriteEvent::Tag(crate::writer::WritePrimitive::spec_tag(v))]
    }

    open spec fn read_owed(es: Seq<WriteEvent>) -> bool {
        primitive_owed(es, PrimitiveType::I32)
    }

    fn read(reader: ValueReader) -> (r: ReadResult<Self>)
        ensures
            primitive_read(
                (*old(reader.reader))@,
                (*final(reader.reader))@,
                r,
                PrimitiveType::I32,
                "i32",
                |x: i32| Primitive::I32(x),
            ),
    {
        let ghost before = (*reader.reader)@;
        proof {
            assert forall|es: Seq<WriteEvent>|
                #[trigger] Self::read_owed(es) && reads_through(before, es) implies before.next_tag()
                == Ok::<(TagModel, ReaderModel), ReadError>(
                (es[0]->Tag_0, read_all(before, es).unwrap().1),
            ) by {
                lemma_one_tag_read(before, es);
            }
        }
        let reading = match reader.read() {
            Ok(x) => x,
            Err(e) => {
                return Err(e);
            },
        };
        proof {
            let t = before.next_tag().unwrap().0;
            lemma_fits_kind(&reading, t);
            lemma_next_tag_progress(before);
        }
        let found = reading.ty();
        let pri = match reading {
            ValueReading::Primitive(p) => p,
            _ => {
                return Err(
                    Box::new(
                        ReadError::UnexpectedValue(
                            UnexpectedValueError {
                                expected: ValueTypeRequirement::Primitive(None),
                                found,
                            },
                        ),
                    ),
                );
            },
        };
        match <i32 as TryFrom<Primitive>>::try_from(pri) {
            Ok(v) => {
                proof {
                    lemma_read_tag_event(before);
                    let es = seq![WriteEvent::Tag(before.next_tag().unwrap().0)];
                    assert(<i32 as SmolRead>::decoded_from(es, v) && es.len() > 0 && es[0] is Tag);
                    assert(read_all(before, es) == Some((es, (*final(reader.reader))@)));
                }
                Ok(v)
            },
            Err(e) => Err(Box::new(ReadError::UnexpectedValueForType(e.with_type_name("i32")))),
        }
    }
}

impl SmolWrite for u32 {
    open spec fn written_events(&self) -> Seq<WriteEvent> {
        seq![WriteEvent::Tag(crate::writer::WritePrimitive::spec_tag(*self))]
    }

    fn write(&self, writer: ValueWriter) -> (r: Result<(), WriteError>)
        ensures
            write_outcome(
                (*old(writer.writer))@,
                (*old(writer.writer))@.write_tag(crate::writer::WritePrimitive::spec_tag(*self)),
                r,
                (*final(writer.writer))@,
            ),
    {
        writer.write_primitive(*self)
    }
}

impl SmolRead for u32 {
    open spec fn decoded_from(es: Seq<WriteEvent>, v: Self) -> bool {
        es == seq![WriteEvent::Tag(crate::writer::WritePrimitive::spec_tag(v))]
    }

    open spec fn read_owed(es: Seq<WriteEvent>) -> bool {
        primitive_owed(es, PrimitiveType::U32)
    }

    fn read(reader: ValueReader) -> (r: ReadResult<Self>)
        ensures
            primitive_read(
                (*old(reader.reader))@,
                (*final(reader.reader))@,
                r,
                PrimitiveType::U32,
                "u32",
                |x: u32| Primitive::U32(x),
            ),
    {
        let ghost before = (*reader.reader)@;
        proof {
            assert forall|es: Seq<WriteEvent>|
                #[trigger] Self::read_owed(es) && reads_through(before, es) implies before.next_tag()
                == Ok::<(TagModel, ReaderModel), ReadError>(
                (es[0]->Tag_0, read_all(before, es).unwrap().1),
            ) by {
                lemma_one_tag_read(before, es);
            }
        }
        let reading = match reader.read() {
            Ok(x) => x,
            Err(e) => {
                return Err(e);
            },
        };
        proof {
            let t = before.next_tag().unwrap().0;
            lemma_fits_kind(&reading, t);
            lemma_next_tag_progress(before);
        }
        let found = reading.ty();
        let pri = match reading {
            ValueReading::Primitive(p) => p,
            _ => {
                return Err(
                    Box::new(
                        ReadError::UnexpectedValue(
                            UnexpectedValueError {
                                expected: ValueTypeRequirement::Primitive(None),
                                found,
                            },
                        ),
                    ),
                );
            },
        };
        match <u32 as TryFrom<Primitive>>::try_from(pri) {
            Ok(v) => {
                proof {
                    lemma_read_tag_event(before);
                    let es = seq![WriteEvent::Tag(before.next_tag().unwrap().0)];
                    assert(<u32 as SmolRead>::decoded_from(es, v) && es.len() > 0 && es[0] is Tag);
                    assert(read_all(before, es) == Some((es, (*final(reader.reader))@)));
                }
                Ok(v)
            },
            Err(e) => Err(Box::new(ReadError::UnexpectedValueForType(e.with_type_name("u32")))),
        }
    }
}

impl SmolWrite for i64 {
    open spec fn written_events(&self) -> Seq<WriteEvent> {
        seq![WriteEvent::Tag(crate::writer::WritePrimitive::spec_tag(*self))]
    }

    fn write(&self, writer: ValueWriter) -> (r: Result<(), WriteError>)
        ensures
            write_outcome(
                (*old(writer.writer))@,
                (*old(writer.writer))@.write_tag(crate::writer::WritePrimitive::spec_tag(*self)),
                r,
                (*final(writer.writer))@,
            ),
    {
        writer.write_primitive(*self)
    }
}

impl SmolRead for i64 {
    open spec fn decoded_from(es: Seq<WriteEvent>, v: Self) -> bool {
        es == seq![WriteEvent::Tag(crate::writer::WritePrimitive::spec_tag(v))]
    }

    open spec fn read_owed(es: Seq<WriteEvent>) -> bool {
        primitive_owed(es, PrimitiveType::I64)
    }

    fn read(reader: ValueReader) -> (r: ReadResult<Self>)
        ensures
            primitive_read(
                (*old(reader.reader))@,
                (*final(reader.reader))@,
                r,
                PrimitiveType::I64,
                "i64",
                |x: i64| Primitive::I64(x),
            ),
    {
        let ghost before = (*reader.reader)@;
        proof {
            assert forall|es: Seq<WriteEvent>|
                #[trigger] Self::read_owed(es) && reads_through(before, es) implies before.next_tag()
                == Ok::<(TagModel, ReaderModel), ReadError>(
                (es[0]->Tag_0, read_all(before, es).unwrap().1),
            ) by {
                lemma_one_tag_read(before, es);
            }
        }
        let reading = match reader.read() {
            Ok(x) => x,
            Err(e) => {
                return Err(e);
            },
        };
        proof {
            let t = before.next_tag().unwrap().0;
            lemma_fits_kind(&reading, t);
            lemma_next_tag_progress(before);
        }
        let found = reading.ty();
        let pri = match reading {
            ValueReading::Primitive(p) => p,
            _ => {
                return Err(
                    Box::new(
                        ReadError::UnexpectedValue(
                            UnexpectedValueError {
                                expected: ValueTypeRequirement::Primitive(None),
                                found,
                            },
                        ),
                    ),
                );
            },
        };
        match <i64 as TryFrom<Primitive>>::try_from(pri) {
            Ok(v) => {
                proof {
                    lemma_read_tag_event(before);
                    let es = seq![WriteEvent::Tag(before.next_tag().unwrap().0)];
                    assert(<i64 as SmolRead>::decoded_from(es, v) && es.len() > 0 && es[0] is Tag);
                    assert(read_all(before, es) == Some((es, (*final(reader.reader))@)));
                }
                Ok(v)
            },
            Err(e) => Err(Box::new(ReadError::UnexpectedValueForType(e.with_type_name("i64")))),
        }
    }
}

impl SmolWrite for u64 {
    open spec fn written_events(&self) -> Seq<WriteEvent> {
        seq![WriteEvent::Tag(crate::writer::WritePrimitive::spec_tag(*self))]
    }

    fn write(&self, writer: ValueWriter) -> (r: Result<(), WriteError>)
        ensures
            write_outcome(
                (*old(writer.writer))@,
                (*old(writer.writer))@.write_tag(crate::writer::WritePrimitive::spec_tag(*self)),
                r,
                (*final(writer.writer))@,
            ),
    {
        writer.write_primitive(*self)
    }
}

impl SmolRead for u64 {
    open spec fn decoded_from(es: Seq<WriteEvent>, v: Self) -> bool {
        es == seq![WriteEvent::Tag(crate::writer::WritePrimitive::spec_tag(v))]
    }

    open spec fn read_owed(es: Seq<WriteEvent>) -> bool {
        primitive_owed(es, PrimitiveType::U64)
    }

    fn read(reader: ValueReader) -> (r: ReadResult<Self>)
        ensures
            primitive_read(
                (*old(reader.reader))@,
                (*final(reader.reader))@,
                r,
                PrimitiveType::U64,
                "u64",
                |x: u64| Primitive::U64(x),
            ),
    {
        let ghost before = (*reader.reader)@;
        proof {
            assert forall|es: Seq<WriteEvent>|
                #[trigger] Self::read_owed(es) && reads_through(before, es) implies before.next_tag()
                == Ok::<(TagModel, ReaderModel), ReadError>(
                (es[0]->Tag_0, read_all(before, es).unwrap().1),
            ) by {
                lemma_one_tag_read(before, es);
            }
        }
        let reading = match reader.read() {
            Ok(x) => x,
            Err(e) => {
                return Err(e);
            },
        };
        proof {
            let t = before.next_tag().unwrap().0;
            lemma_fits_kind(&reading, t);
            lemma_next_tag_progress(before);
        }
        let found = reading.ty();
        let pri = match reading {
            ValueReading::Primitive(p) => p,
            _ => {
                return Err(
                    Box::new(
                        ReadError::UnexpectedValue(
                            UnexpectedValueError {
                                expected: ValueTypeRequirement::Primitive(None),
                                found,
                            },
                        ),
                    ),
                );
            },
        };
        match <u64 as TryFrom<Primitive>>::try_from(pri) {
            Ok(v) => {
                proof {
                    lemma_read_tag_event(before);
                    let es = seq![WriteEvent::Tag(before.next_tag().unwrap().0)];
                    assert(<u64 as SmolRead>::decoded_from(es, v) && es.len() > 0 && es[0] is Tag);
                    assert(read_all(before, es) == Some((es, (*final(reader.reader))@)));
                }
                Ok(v)
            },
            Err(e) => Err(Box::new(ReadError::UnexpectedValueForType(e.with_type_name("u64")))),
        }
    }
}

impl SmolWrite for i128 {
    open spec fn written_events(&self) -> Seq<WriteEvent> {
        seq![WriteEvent::Tag(crate::writer::WritePrimitive::spec_tag(*self))]
    }

    fn write(&self, writer: ValueWriter) -> (r: Result<(), WriteError>)
        ensures
            write_outcome(
                (*old(writer.writer))@,
                (*old(writer.writer))@.write_tag(crate::writer::WritePrimitive::spec_tag(*self)),
                r,
                (*final(writer.writer))@,
            ),
    {
        writer.write_primitive(*self)
    }
}

impl SmolRead for i128 {
    open spec fn decoded_from(es: Seq<WriteEvent>, v: Self) -> bool {
        es == seq![WriteEvent::Tag(crate::writer::WritePrimitive::spec_tag(v))]
    }

    open spec fn read_owed(es: Seq<WriteEvent>) -> bool {
        primitive_owed(es, PrimitiveType::I128)
    }

    fn read(reader: ValueReader) -> (r: ReadResult<Self>)
        ensures
            primitive_read(
                (*old(reader.reader))@,
                (*final(reader.reader))@,
                r,
                PrimitiveType::I128,
                "i128",
                |x: i128| Primitive::I128(PackedI128(x)),
            ),
    {
        let ghost before = (*reader.reader)@;
        proof {
            assert forall|es: Seq<WriteEvent>|
                #[trigger] Self::read_owed(es) && reads_through(before, es) implies before.next_tag()
                == Ok::<(TagModel, ReaderModel), ReadError>(
                (es[0]->Tag_0, read_all(before, es).unwrap().1),
            ) by {
                lemma_one_tag_read(before, es);
            }
        }
        let reading = match reader.read() {
            Ok(x) => x,
            Err(e) => {
                return Err(e);
            },
        };
        proof {
            let t = before.next_tag().unwrap().0;
            lemma_fits_kind(&reading, t);
            lemma_next_tag_progress(before);
        }
        let found = reading.ty();
        let pri = match reading {
            ValueReading::Primitive(p) => p,
            _ => {
                return Err(
                    Box::new(
                        ReadError::UnexpectedValue(
                            UnexpectedValueError {
                                expected: ValueTypeRequirement::Primitive(None),
                                found,
                            },
                        ),
                    ),
                );
            },
        };
        match <i128 as TryFrom<Primitive>>::try_from(pri) {
            Ok(v) => {
                proof {
                    lemma_read_tag_event(before);
                    let es = seq![WriteEvent::Tag(before.next_tag().unwrap().0)];
                    assert(<i128 as SmolRead>::decoded_from(es, v) && es.len() > 0 && es[0] is Tag);
                    assert(read_all(before, es) == Some((es, (*final(reader.reader))@)));
                }
                Ok(v)
            },
            Err(e) => Err(Box::new(ReadError::UnexpectedValueForType(e.with_type_name("i128")))),
        }
    }
}

impl SmolWrite for u128 {
    open spec fn written_events(&self) -> Seq<WriteEvent> {
        seq![WriteEvent::Tag(crate::writer::WritePrimitive::spec_tag(*self))]
    }

    fn write(&self, writer: ValueWriter) -> (r: Result<(), WriteError>)
        ensures
            write_outcome(
                (*old(writer.writer))@,
                (*old(writer.writer))@.write_tag(crate::writer::WritePrimitive::spec_tag(*self)),
                r,
                (*final(writer.writer))@,
            ),
    {
        writer.write_primitive(*self)
    }
}

impl SmolRead for u128 {
    open spec fn decoded_from(es: Seq<WriteEvent>, v: Self) -> bool {
        es == seq![WriteEvent::Tag(crate::writer::WritePrimitive::spec_tag(v))]
    }

    open spec fn read_owed(es: Seq<WriteEvent>) -> bool {
        primitive_owed(es, PrimitiveType::U128)
    }

    fn read(reader: ValueReader) -> (r: ReadResult<Self>)
        ensures
            primitive_read(
                (*old(reader.reader))@,
                (*final(reader.reader))@,
                r,
                PrimitiveType::U128,
                "u128",
                |x: u128| Primitive::U128(PackedU128(x)),
            ),
    {
        let ghost before = (*reader.reader)@;
        proof {
            assert forall|es: Seq<WriteEvent>|
                #[trigger] Self::read_owed(es) && reads_through(before, es) implies before.next_tag()
                == Ok::<(TagModel, ReaderModel), ReadError>(
                (es[0]->Tag_0, read_all(before, es).unwrap().1),
            ) by {
                lemma_one_tag_read(before, es);
            }
        }
        let reading = match reader.read() {
            Ok(x) => x,
            Err(e) => {
                return Err(e);
            },
        };
        proof {
            let t = before.next_tag().unwrap().0;
            lemma_fits_kind(&reading, t);
            lemma_next_tag_progress(before);
        }
        let found = reading.ty();
        let pri = match reading {
            ValueReading::Primitive(p) => p,
            _ => {
                return Err(
                    Box::new(
                        ReadError::UnexpectedValue(
                            UnexpectedValueError {
                                expected: ValueTypeRequirement::Primitive(None),
                                found,
                            },
                        ),
                    ),
                );
            },
        };
        match <u128 as TryFrom<Primitive>>::try_from(pri) {
            Ok(v) => {
                proof {
                    lemma_read_tag_event(before);
                    let es = seq![WriteEvent::Tag(before.next_tag().unwrap().0)];
                    assert(<u128 as SmolRead>::decoded_from(es, v) && es.len() > 0 && es[0] is Tag);
                    assert(read_all(before, es) == Some((es, (*final(reader.reader))@)));
                }
                Ok(v)
            },
            Err(e) => Err(Box::new(ReadError::UnexpectedValueForType(e.with_type_name("u128")))),
        }
    }
}

/// The string that a string value starting with tag `t` holds, read with
/// reader `m` after the tag, and the reader after it; `None` where `t` starts
/// no string.
pub open spec fn string_read(t: TagModel, m: ReaderModel) -> Option<
    Result<(Seq<char>, ReaderModel), ReadError>,
> {
    match t {
        TagModel::Str(s) => Some(Ok((s, m))),
        TagModel::EmptyStr => Some(Ok((Seq::empty(), m))),
        TagModel::StrDirect(n) => Some(
            match m.next_raw(n as nat) {
                Ok((bytes, m2)) => if valid_utf8(bytes) {
                    Ok((decode_utf8(bytes), m2))
                } else {
                    Err(ReadError::InvalidString)
                },
                Err(e) => Err(e),
            },
        ),
        _ => None,
    }
}

/// The reader is further on after both steps.
pub proof fn lemma_progress_trans(a: ReaderModel, b: ReaderModel, c: ReaderModel)
    requires
        progressed(a, b),
        progressed(b, c),
    ensures
        progressed(a, c),
{
}

impl SmolWrite for String {
    open spec fn written_events(&self) -> Seq<WriteEvent> {
        string_events(self@)
    }

    fn write(&self, writer: ValueWriter) -> (r: Result<(), WriteError>)
        ensures
            write_outcome(
                (*old(writer.writer))@,
                (*old(writer.writer))@.write_string(self@),
                r,
                (*final(writer.writer))@,
            ),
    {
        proof {
            lemma_write_string_events((*writer.writer)@, self@);
        }
        writer.write_string(RefArcStr::Str(self.as_str()))
    }
}

/// A string read from its tag and what follows it is read from events that
/// are that string.
proof fn lemma_string_decoded(before: ReaderModel, s: Seq<char>, after: ReaderModel) -> (es: Seq<WriteEvent>)
    requires
        before.next_tag() matches Ok((t, m)) && string_read(t, m) == Some(
            Ok::<(Seq<char>, ReaderModel), ReadError>((s, after)),
        ),
    ensures
        string_decodes(es, s),
        es.len() > 0,
        es[0] is Tag,
        read_all(before, es) == Some((es, after)),
{
    let (t, m) = before.next_tag().unwrap();
    lemma_read_tag_event(before);
    let head = seq![WriteEvent::Tag(t)];
    match t {
        TagModel::StrDirect(n) => {
            let (bytes, m2) = m.next_raw(n as nat).unwrap();
            lemma_read_one(m, WriteEvent::Raw(bytes), m2);
            lemma_read_all_concat(before, head, m, seq![WriteEvent::Raw(bytes)], m2);
            let es = head + seq![WriteEvent::Raw(bytes)];
            assert(es[0] == WriteEvent::Tag(t) && es[1] == WriteEvent::Raw(bytes));
            assert(string_decodes(es, s));
            es
        },
        _ => {
            assert(string_decodes(head, s));
            head
        },
    }
}

impl SmolRead for String {
    open spec fn decoded_from(es: Seq<WriteEvent>, v: Self) -> bool {
        string_decodes(es, v@)
    }

    fn read(reader: ValueReader) -> (r: ReadResult<Self>)
        ensures
            match (*old(reader.reader))@.next_tag() {
                Err(e) => r matches Err(b) && *b == e,
                Ok((t, m)) => match string_read(t, m) {
                    Some(Ok((s, m2))) => r matches Ok(x) && x@ == s && (*final(reader.reader))@ == m2,
                    Some(Err(e)) => r matches Err(b) && *b == e,
                    None => r matches Err(b) && *b == ReadError::UnexpectedValueForType(
                        UnexpectedValueForTypeError {
                            expected: ValueTypeRequirement::String,
                            found: tag_value_type(t),
                            type_label: "String",
                        },
                    ) && (*final(reader.reader))@ == m,
                },
            },
    {
        let ghost before = (*reader.reader)@;
        let reading = match reader.read() {
            Ok(x) => x,
            Err(e) => {
                return Err(e);
            },
        };
        proof {
            let t = before.next_tag().unwrap().0;
            lemma_fits_kind(&reading, t);
            lemma_next_tag_progress(before);
        }
        let found = reading.ty();
        let sr = match reading {
            ValueReading::String(sr) => sr,
            _ => {
                return Err(
                    Box::new(
                        ReadError::UnexpectedValueForType(
                            UnexpectedValueForTypeError {
                                expected: ValueTypeRequirement::String,
                                found,
                                type_label: "String",
                            },
                        ),
                    ),
                );
            },
        };
        let ghost mid = (*sr.reader)@;
        let ghost ty = sr.ty;
        match sr.read() {
            Ok(s) => {
                let x = s.into_string();
                proof {
                    if !progressed(before, (*reader.reader)@) {
                        assert(progressed(before, mid));
                    }
                    let after = string_contents(ty, mid).unwrap().1;
                    assert(string_read(before.next_tag().unwrap().0, mid) == Some(
                        Ok::<(Seq<char>, ReaderModel), ReadError>((s@, after)),
                    ));
                    let es = lemma_string_decoded(before, s@, after);
                    assert(<String as SmolRead>::decoded_from(es, x));
                }
                Ok(x)
            },
            Err(e) => Err(e),
        }
    }
}

impl<T: SmolWrite> SmolWrite for Vec<T> {
    open spec fn written_events(&self) -> Seq<WriteEvent> {
        seq![WriteEvent::Tag(TagModel::Array(Some(self@.len() as usize)))] + all_written_events(self@)
    }

    fn write(&self, writer: ValueWriter) -> (r: Result<(), WriteError>)
        ensures
            self@.len() == 0 ==> r is Ok,
    {
        let ghost w0 = (*writer.writer)@;
        let ghost head = seq![WriteEvent::Tag(TagModel::Array(Some(self@.len() as usize)))];
        let mut seq = match writer.write_array(Some(self.len())) {
            Ok(s) => s,
            Err(e) => {
                return Err(e);
            },
        };
        let mut i: usize = 0;
        assert(head + all_written_events(self@.take(0)) =~= head);
        while i < self.len()
            invariant
                i <= self.len(),
                seq.remaining == Some((self.len() - i) as usize),
                write_events(w0, head + all_written_events(self@.take(i as int))) == Some(
                    (*seq.writer)@,
                ),
                *final(seq.writer) == *final(writer.writer),
                w0 == (*old(writer.writer))@,
            decreases self.len() - i,
        {
            proof {
                lemma_all_written_take(self@, i as int);
                lemma_write_events_concat(
                    w0,
                    head + all_written_events(self@.take(i as int)),
                    self@[i as int].written_events(),
                );
                assert(head + all_written_events(self@.take(i + 1)) =~= (head + all_written_events(
                    self@.take(i as int),
                )) + self@[i as int].written_events());
            }
            match self[i].write(seq.write_value()) {
                Ok(()) => {},
                Err(e) => {
                    return Err(e);
                },
            }
            i = i + 1;
        }
        assert(self@.take(i as int) =~= self@);
        seq.finish()
    }
}

/// One more value read after the values `vs`, from where the reader stood,
/// or from where it looked for an end marker and found a tag: the events read
/// give the values and the new one.
proof fn lemma_item_read<T: SmolRead>(
    m0: ReaderModel,
    done: Seq<WriteEvent>,
    vs: Seq<T>,
    s0: ReaderModel,
    mid: ReaderModel,
    new: ReaderModel,
    v: T,
) -> (d2: Seq<WriteEvent>)
    requires
        read_all(m0, done) == Some((done, s0)),
        items_from(done, vs),
        exists|es: Seq<WriteEvent>|
            #[trigger] T::decoded_from(es, v) && es.len() > 0 && es[0] is Tag && read_all(mid, es)
                == Some((es, new)),
        mid == s0 || (s0.wf() && s0.next_seq_end() == Ok::<(bool, ReaderModel), ReadError>(
            (false, mid),
        )),
    ensures
        read_all(m0, d2) == Some((d2, new)),
        items_from(d2, vs.push(v)),
{
    let es = choose|es: Seq<WriteEvent>|
        #[trigger] T::decoded_from(es, v) && es.len() > 0 && es[0] is Tag && read_all(mid, es)
            == Some((es, new));
    if mid != s0 {
        lemma_read_all_after_peek(s0, mid, es);
    }
    lemma_read_all_concat(m0, done, s0, es, new);
    let d2 = done + es;
    assert(d2.take(done.len() as int) =~= done);
    assert(d2.skip(done.len() as int) =~= es);
    assert(vs.push(v).drop_last() =~= vs);
    assert(items_from(d2.take(done.len() as int), vs.push(v).drop_last()) && T::decoded_from(
        d2.skip(done.len() as int),
        vs.push(v).last(),
    ));
    d2
}

/// The events `es` are, one after another, `n` runs on each of which reading a
/// `T` owes a value.
pub open spec fn owed_items<T: SmolRead>(es: Seq<WriteEvent>, n: nat) -> bool
    decreases n,
{
    if n == 0 {
        es.len() == 0
    } else {
        exists|k: int|
            #![trigger es.take(k)]
            0 <= k <= es.len() && T::read_owed(es.take(k)) && owed_items::<T>(
                es.skip(k),
                (n - 1) as nat,
            )
    }
}

/// From reader `r`, events on which reading `n` values of `T` is owed are read
/// as they are, and reading them ends at `end`.
pub open spec fn owed_from<T: SmolRead>(r: ReaderModel, n: nat, end: ReaderModel) -> bool {
    exists|rem: Seq<WriteEvent>|
        #[trigger] owed_items::<T>(rem, n) && read_all(r, rem) == Some((rem, end))
}

/// From reader `r`, a run on which reading an `A` is owed is read as it is,
/// then one on which reading a `B` is, and reading them ends at `end`.
pub open spec fn pair_owed_from<A: SmolRead, B: SmolRead>(r: ReaderModel, end: ReaderModel) -> bool {
    exists|a: Seq<WriteEvent>|
        #[trigger] A::read_owed(a) && reads_through(r, a) && owed_from::<B>(
            read_all(r, a).unwrap().1,
            1,
            end,
        )
}

/// The next of `n` owed values: a run on which reading a `T` is owed, read as
/// it is, after which `n - 1` are owed.
proof fn lemma_owed_next<T: SmolRead>(r: ReaderModel, n: nat, end: ReaderModel) -> (a: Seq<WriteEvent>)
    requires
        n > 0,
        owed_from::<T>(r, n, end),
    ensures
        T::read_owed(a),
        reads_through(r, a),
        owed_from::<T>(read_all(r, a).unwrap().1, (n - 1) as nat, end),
{
    let rem = choose|rem: Seq<WriteEvent>|
        #[trigger] owed_items::<T>(rem, n) && read_all(r, rem) == Some((rem, end));
    let k = choose|k: int|
        #![trigger rem.take(k)]
        0 <= k <= rem.len() && T::read_owed(rem.take(k)) && owed_items::<T>(
            rem.skip(k),
            (n - 1) as nat,
        );
    let a = rem.take(k);
    let b = rem.skip(k);
    assert(a + b =~= rem);
    let mid = crate::object_shape::lemma_read_all_split(r, a, b);
    assert(owed_items::<T>(b, (n - 1) as nat) && read_all(mid, b) == Some((b, end)));
    a
}

/// No value is owed from a reader once nothing more is owed but where it is.
proof fn lemma_owed_none<T: SmolRead>(r: ReaderModel, end: ReaderModel)
    requires
        owed_from::<T>(r, 0, end),
    ensures
        r == end,
{
    let rem = choose|rem: Seq<WriteEvent>|
        #[trigger] owed_items::<T>(rem, 0) && read_all(r, rem) == Some((rem, end));
    assert(rem.len() == 0);
}

impl<T: SmolRead> SmolRead for Vec<T> {
    open spec fn decoded_from(es: Seq<WriteEvent>, v: Self) -> bool {
        es.len() > 0 && match es[0] {
            WriteEvent::Tag(TagModel::Array(len)) => counted_items_from(es.drop_first(), len, v@),
            _ => false,
        }
    }

    open spec fn read_owed(es: Seq<WriteEvent>) -> bool {
        es.len() > 0 && match es[0] {
            WriteEvent::Tag(TagModel::Array(Some(n))) => owed_items::<T>(es.drop_first(), n as nat),
            _ => false,
        }
    }

    fn read(reader: ValueReader) -> (r: ReadResult<Self>)
        ensures
            container_tag_read(
                (*old(reader.reader))@,
                r,
                |t: TagModel| t is Array,
                ValueTypeRequirement::Array,
                "Vec",
            ),
            (*old(reader.reader))@.next_tag() matches Ok((t, m)) ==> {
                &&& t == TagModel::Array(Some(0usize)) ==> (r matches Ok(v) && v@.len() == 0
                    && (*final(reader.reader))@ == m)
                &&& t == TagModel::Array(None) ==> (m.next_seq_end() matches Ok((true, m2)) ==> (
                r matches Ok(v) && v@.len() == 0 && (*final(reader.reader))@ == m2))
            },
    {
        let ghost before = (*reader.reader)@;
        proof {
            assert forall|es: Seq<WriteEvent>|
                #[trigger] Self::read_owed(es) && reads_through(before, es) implies (before.next_tag()
                matches Ok((t1, m1)) && (es[0] == WriteEvent::Tag(t1) && (t1 matches TagModel::Array(
                Some(n),
            ) && owed_from::<T>(m1, n as nat, read_all(before, es).unwrap().1)))) by {
                let r2 = crate::readback::lemma_reads_through_first(before, es);
                let n = es[0]->Tag_0->Array_0.unwrap();
                assert(owed_items::<T>(es.drop_first(), n as nat) && read_all(r2, es.drop_first())
                    == Some((es.drop_first(), read_all(before, es).unwrap().1)));
            }
        }
        let reading = match reader.read() {
            Ok(x) => x,
            Err(e) => {
                return Err(e);
            },
        };
        proof {
            let t = before.next_tag().unwrap().0;
            lemma_fits_kind(&reading, t);
            lemma_next_tag_progress(before);
        }
        let found = reading.ty();
        let mut array = match reading {
            ValueReading::Array(a) => a,
            _ => {
                return Err(
                    Box::new(
                        ReadError::UnexpectedValueForType(
                            UnexpectedValueForTypeError {
                                expected: ValueTypeRequirement::Array,
                                found,
                                type_label: "Vec",
                            },
                        ),
                    ),
                );
            },
        };
        let ghost t = before.next_tag().unwrap().0;
        let ghost m0 = (*array.reader)@;
        let ghost len = array.remaining;
        let mut vec: Vec<T> = Vec::new();
        let ghost mut done: Seq<WriteEvent> = Seq::empty();
        proof {
            assert(read_all(m0, done) == Some((done, m0)));
            assert(vec@ =~= Seq::<T>::empty());
        }
        loop
            invariant_except_break
                match len {
                    Some(n) => array.remaining == Some((n - vec.len()) as usize) && vec.len() <= n,
                    None => array.remaining is None,
                },
                read_all(m0, done) == Some((done, (*array.reader)@)),
                items_from(done, vec@),
                vec@.len() == 0 ==> (*array.reader)@ == m0,
                (len is None && (m0.next_seq_end() matches Ok((true, _)))) ==> vec@.len() == 0,
                forall|es: Seq<WriteEvent>|
                    #[trigger] Self::read_owed(es) && reads_through(before, es) ==> len is Some
                        && owed_from::<T>(
                        (*array.reader)@,
                        (len.unwrap() - vec@.len()) as nat,
                        read_all(before, es).unwrap().1,
                    ),
            invariant
                progressed(before, (*array.reader)@),
                *final(array.reader) == *final(reader.reader),
                before == (*old(reader.reader))@,
                before.next_tag() == Ok::<(TagModel, ReaderModel), ReadError>((t, m0)),
                t == TagModel::Array(len),
            ensures
                exists|es: Seq<WriteEvent>|
                    #[trigger] counted_items_from(es, len, vec@) && read_all(m0, es) == Some(
                        (es, (*array.reader)@),
                    ),
                len == Some(0usize) ==> vec@.len() == 0 && (*array.reader)@ == m0,
                len is None ==> (m0.next_seq_end() matches Ok((true, m2)) ==> vec@.len() == 0
                    && (*array.reader)@ == m2),
                forall|es: Seq<WriteEvent>|
                    #[trigger] Self::read_owed(es) && reads_through(before, es) ==> (*array.reader)@
                        == read_all(before, es).unwrap().1,
            decreases
                usize::MAX - (*array.reader)@.pos,
                (*array.reader)@.repeat,
                if (*array.reader)@.peeked { 1int } else { 0int },
        {
            array.reader.well_formed();
            let ghost s0 = (*array.reader)@;
            match array.read_value() {
                Ok(Some(vr)) => {
                    let ghost mid = (*vr.reader)@;
                    let v = match T::read(vr) {
                        Ok(v) => v,
                        Err(e) => {
                            proof {
                                assert forall|es: Seq<WriteEvent>|
                                    #[trigger] Self::read_owed(es) && reads_through(
                                        before,
                                        es,
                                    ) implies false by {
                                    let a = lemma_owed_next::<T>(
                                        s0,
                                        (len.unwrap() - vec@.len()) as nat,
                                        read_all(before, es).unwrap().1,
                                    );
                                }
                            }
                            return Err(e);
                        },
                    };
                    array.reader.well_formed();
                    let ghost new = (*array.reader)@;
                    proof {
                        assert forall|es: Seq<WriteEvent>|
                            #[trigger] Self::read_owed(es) && reads_through(before, es) implies len is Some
                            && owed_from::<T>(
                            new,
                            (len.unwrap() - vec@.len() - 1) as nat,
                            read_all(before, es).unwrap().1,
                        ) by {
                            let a = lemma_owed_next::<T>(
                                s0,
                                (len.unwrap() - vec@.len()) as nat,
                                read_all(before, es).unwrap().1,
                            );
                        }
                        lemma_seq_end_progress(s0);
                        if mid != s0 {
                            lemma_progress_trans(s0, mid, new);
                        }
                        lemma_progress_trans(before, s0, new);
                        done = lemma_item_read(m0, done, vec@, s0, mid, new, v);
                    }
                    vec.push(v);
                },
                Ok(None) => {
                    proof {
                        assert forall|es: Seq<WriteEvent>|
                            #[trigger] Self::read_owed(es) && reads_through(before, es) implies (*array.reader)@
                            == read_all(before, es).unwrap().1 by {
                            lemma_owed_none::<T>(s0, read_all(before, es).unwrap().1);
                        }
                        match len {
                            Some(n) => {
                                assert(counted_items_from(done, len, vec@));
                            },
                            None => {
                                let new = (*array.reader)@;
                                lemma_read_one(s0, WriteEvent::End, new);
                                lemma_read_all_concat(m0, done, s0, seq![WriteEvent::End], new);
                                let d2 = done + seq![WriteEvent::End];
                                assert(d2.drop_last() =~= done);
                                assert(counted_items_from(d2, len, vec@));
                            },
                        }
                    }
                    break;
                },
                Err(e) => {
                    return Err(e);
                },
            }
        }
        proof {
            let es = choose|es: Seq<WriteEvent>|
                #[trigger] counted_items_from(es, len, vec@) && read_all(m0, es) == Some(
                    (es, (*array.reader)@),
                );
            let head = seq![WriteEvent::Tag(t)];
            lemma_read_tag_event(before);
            lemma_read_all_concat(before, head, m0, es, (*array.reader)@);
            assert((head + es).drop_first() =~= es);
            assert((head + es)[0] == WriteEvent::Tag(t));
            assert(<Vec<T> as SmolRead>::decoded_from(head + es, vec));
        }
        Ok(vec)
    }
}

impl<T: SmolRead, const N: usize> SmolRead for [T; N] {
    open spec fn decoded_from(es: Seq<WriteEvent>, v: Self) -> bool {
        es.len() > 0 && match es[0] {
            WriteEvent::Tag(TagModel::Array(len)) => counted_items_from(es.drop_first(), len, v@),
            _ => false,
        }
    }

    open spec fn read_owed(es: Seq<WriteEvent>) -> bool {
        es.len() > 0 && es[0] == WriteEvent::Tag(TagModel::Array(Some(N))) && owed_items::<T>(
            es.drop_first(),
            N as nat,
        )
    }

    fn read(reader: ValueReader) -> (r: ReadResult<Self>)
        ensures
            container_tag_read(
                (*old(reader.reader))@,
                r,
                |t: TagModel| t is Array,
                ValueTypeRequirement::Array,
                "array",
            ),
            (*old(reader.reader))@.next_tag() matches Ok((TagModel::Array(Some(n)), _)) ==> (n
                != N ==> (r matches Err(b) && *b == ReadError::UnexpectedLength {
                expected: N,
                got: n,
                type_label: "array",
            })),
    {
        let ghost before = (*reader.reader)@;
        proof {
            assert forall|es: Seq<WriteEvent>|
                #[trigger] Self::read_owed(es) && reads_through(before, es) implies (before.next_tag()
                matches Ok((t1, m1)) && (t1 == TagModel::Array(Some(N)) && owed_from::<T>(
                m1,
                N as nat,
                read_all(before, es).unwrap().1,
            ))) by {
                let r2 = crate::readback::lemma_reads_through_first(before, es);
                assert(owed_items::<T>(es.drop_first(), N as nat) && read_all(r2, es.drop_first())
                    == Some((es.drop_first(), read_all(before, es).unwrap().1)));
            }
        }
        let reading = match reader.read() {
            Ok(x) => x,
            Err(e) => {
                return Err(e);
            },
        };
        proof {
            let t = before.next_tag().unwrap().0;
            lemma_fits_kind(&reading, t);
            lemma_next_tag_progress(before);
        }
        let found = reading.ty();
        let mut array = match reading {
            ValueReading::Array(a) => a,
            _ => {
                return Err(
                    Box::new(
                        ReadError::UnexpectedValueForType(
                            UnexpectedValueForTypeError {
                                expected: ValueTypeRequirement::Array,
                                found,
                                type_label: "array",
                            },
                        ),
                    ),
                );
            },
        };
        let ghost t = before.next_tag().unwrap().0;
        let ghost m0 = (*array.reader)@;
        let ghost len = array.remaining;
        match array.remaining() {
            Some(rem) => {
                if rem != N {
                    return Err(
                        Box::new(
                            ReadError::UnexpectedLength { expected: N, got: rem, type_label: "array" },
                        ),
                    );
                }
            },
            None => {},
        }
        let mut vec: Vec<T> = Vec::new();
        let ghost mut done: Seq<WriteEvent> = Seq::empty();
        proof {
            assert(read_all(m0, done) == Some((done, m0)));
            assert(vec@ =~= Seq::<T>::empty());
        }
        loop
            invariant_except_break
                match len {
                    Some(n) => array.remaining == Some((n - vec.len()) as usize) && vec.len() <= n,
                    None => array.remaining is None,
                },
                read_all(m0, done) == Some((done, (*array.reader)@)),
                items_from(done, vec@),
                vec@.len() <= N,
                forall|es: Seq<WriteEvent>|
                    #[trigger] Self::read_owed(es) && reads_through(before, es) ==> len == Some(N)
                        && owed_from::<T>(
                        (*array.reader)@,
                        (N - vec@.len()) as nat,
                        read_all(before, es).unwrap().1,
                    ),
            invariant
                progressed(before, (*array.reader)@),
                *final(array.reader) == *final(reader.reader),
                before == (*old(reader.reader))@,
                before.next_tag() == Ok::<(TagModel, ReaderModel), ReadError>((t, m0)),
                t == TagModel::Array(len),
                len is Some ==> len == Some(N),
            ensures
                exists|es: Seq<WriteEvent>|
                    #[trigger] counted_items_from(es, len, vec@) && read_all(m0, es) == Some(
                        (es, (*array.reader)@),
                    ),
                vec@.len() <= N,
                len is Some ==> len == Some(N),
                forall|es: Seq<WriteEvent>|
                    #[trigger] Self::read_owed(es) && reads_through(before, es) ==> (*array.reader)@
                        == read_all(before, es).unwrap().1 && vec@.len() == N,
            decreases
                usize::MAX - (*array.reader)@.pos,
                (*array.reader)@.repeat,
                if (*array.reader)@.peeked { 1int } else { 0int },
        {
            array.reader.well_formed();
            let ghost s0 = (*array.reader)@;
            match array.read_value() {
                Ok(Some(vr)) => {
                    if vec.len() >= N {
                        return Err(
                            Box::new(
                                ReadError::UnexpectedLength {
                                    expected: N,
                                    got: vec.len().wrapping_add(1),
                                    type_label: "array",
                                },
                            ),
                        );
                    }
                    let ghost mid = (*vr.reader)@;
                    let v = match T::read(vr) {
                        Ok(v) => v,
                        Err(e) => {
                            proof {
                                assert forall|es: Seq<WriteEvent>|
                                    #[trigger] Self::read_owed(es) && reads_through(
                                        before,
                                        es,
                                    ) implies false by {
                                    let a = lemma_owed_next::<T>(
                                        s0,
                                        (N - vec@.len()) as nat,
                                        read_all(before, es).unwrap().1,
                                    );
                                }
                            }
                            return Err(e);
                        },
                    };
                    array.reader.well_formed();
                    let ghost new = (*array.reader)@;
                    proof {
                        assert forall|es: Seq<WriteEvent>|
                            #[trigger] Self::read_owed(es) && reads_through(before, es) implies len == Some(N)
                            && owed_from::<T>(
                            new,
                            (N - vec@.len() - 1) as nat,
                            read_all(before, es).unwrap().1,
                        ) by {
                            let a = lemma_owed_next::<T>(
                                s0,
                                (N - vec@.len()) as nat,
                                read_all(before, es).unwrap().1,
                            );
                        }
                        lemma_seq_end_progress(s0);
                        if mid != s0 {
                            lemma_progress_trans(s0, mid, new);
                        }
                        lemma_progress_trans(before, s0, new);
                        done = lemma_item_read(m0, done, vec@, s0, mid, new, v);
                    }
                    vec.push(v);
                },
                Ok(None) => {
                    proof {
                        assert forall|es: Seq<WriteEvent>|
                            #[trigger] Self::read_owed(es) && reads_through(before, es) implies (*array.reader)@
                            == read_all(before, es).unwrap().1 && vec@.len() == N by {
                            lemma_owed_none::<T>(s0, read_all(before, es).unwrap().1);
                        }
                        match len {
                            Some(n) => {
                                assert(counted_items_from(done, len, vec@));
                            },
                            None => {
                                let new = (*array.reader)@;
                                lemma_read_one(s0, WriteEvent::End, new);
                                lemma_read_all_concat(m0, done, s0, seq![WriteEvent::End], new);
                                let d2 = done + seq![WriteEvent::End];
                                assert(d2.drop_last() =~= done);
                                assert(counted_items_from(d2, len, vec@));
                            },
                        }
                    }
                    break;
                },
                Err(e) => {
                    return Err(e);
                },
            }
        }
        if vec.len() != N {
            return Err(
                Box::new(
                    ReadError::UnexpectedLength { expected: N, got: vec.len(), type_label: "array" },
                ),
            );
        }
        let ghost items = vec@;
        match vec_into_array::<T, N>(vec) {
            Some(arr) => {
                proof {
                    let es = choose|es: Seq<WriteEvent>|
                        #[trigger] counted_items_from(es, len, items) && read_all(m0, es) == Some(
                            (es, (*array.reader)@),
                        );
                    let head = seq![WriteEvent::Tag(t)];
                    lemma_read_tag_event(before);
                    lemma_read_all_concat(before, head, m0, es, (*array.reader)@);
                    assert((head + es).drop_first() =~= es);
                    assert((head + es)[0] == WriteEvent::Tag(t));
                    assert(<[T; N] as SmolRead>::decoded_from(head + es, arr));
                }
                Ok(arr)
            },
            None => vstd::pervasive::unreached(),
        }
    }
}

/// An array of `N` items of `T`.
pub type ArrayOf<T, const N: usize> = [T; N];

/// `<[T; N] as TryFrom<Vec<T>>>::try_from`: the items of a vector of exactly
/// `N` items, in order, as an array; no array for a vector of another length.
#[verifier::external_body]
fn vec_into_array<T, const N: usize>(v: Vec<T>) -> (r: Option<ArrayOf<T, N>>)
    ensures
        r is Some <==> v@.len() == N,
        r matches Some(a) ==> a@ == v@,
{
    match <[T; N]>::try_from(v) {
        Ok(a) => Some(a),
        Err(_) => None,
    }
}

impl<T1: SmolWrite, T2: SmolWrite> SmolWrite for (T1, T2) {
    open spec fn written_events(&self) -> Seq<WriteEvent> {
        seq![WriteEvent::Tag(TagModel::Tuple(2))] + self.0.written_events() + self.1.written_events()
    }

    fn write(&self, writer: ValueWriter) -> (r: Result<(), WriteError>) {
        let ghost w0 = (*writer.writer)@;
        let mut tup = match writer.write_tuple(2) {
            Ok(t) => t,
            Err(e) => {
                return Err(e);
            },
        };
        let ghost mut done = seq![WriteEvent::Tag(TagModel::Tuple(2))];
        match self.0.write(tup.write_value()) {
            Ok(()) => {},
            Err(e) => {
                return Err(e);
            },
        }
        proof {
            lemma_write_events_concat(w0, done, self.0.written_events());
            done = done + self.0.written_events();
        }
        match self.1.write(tup.write_value()) {
            Ok(()) => {},
            Err(e) => {
                return Err(e);
            },
        }
        proof {
            lemma_write_events_concat(w0, done, self.1.written_events());
            done = done + self.1.written_events();
        }
        Ok(())
    }
}

impl<T1: SmolRead, T2: SmolRead> SmolRead for (T1, T2) {
    open spec fn decoded_from(es: Seq<WriteEvent>, v: Self) -> bool {
        es.len() > 0 && es[0] == WriteEvent::Tag(TagModel::Tuple(2)) && exists|parts: Seq<Seq<WriteEvent>>|
            #![trigger joined_events(parts)]
            parts.len() == 2 && es.drop_first() == joined_events(parts) && T1::decoded_from(parts[0], v.0) && T2::decoded_from(parts[1], v.1)
    }

    open spec fn read_owed(es: Seq<WriteEvent>) -> bool {
        es.len() > 0 && es[0] == WriteEvent::Tag(TagModel::Tuple(2)) && exists|k: int|
            #![trigger es.drop_first().take(k)]
            0 <= k <= es.len() - 1 && T1::read_owed(es.drop_first().take(k)) && owed_items::<T2>(
                es.drop_first().skip(k),
                1,
            )
    }

    fn read(reader: ValueReader) -> (r: ReadResult<Self>)
        ensures
            container_tag_read(
                (*old(reader.reader))@,
                r,
                |t: TagModel| t is Tuple,
                ValueTypeRequirement::Tuple,
                "tuple",
            ),
            (*old(reader.reader))@.next_tag() matches Ok((TagModel::Tuple(n), _)) ==> (n != 2 ==> (r matches Err(b)
                && *b == (ReadError::UnexpectedLength { expected: 2, got: n, type_label: "tuple" }))),
    {
        let ghost before = (*reader.reader)@;
        proof {
            assert forall|es: Seq<WriteEvent>|
                #[trigger] Self::read_owed(es) && reads_through(before, es) implies (before.next_tag()
                matches Ok((t1, m1)) && (t1 == TagModel::Tuple(2) && pair_owed_from::<T1, T2>(
                m1,
                read_all(before, es).unwrap().1,
            ))) by {
                let m1 = crate::readback::lemma_reads_through_first(before, es);
                let d = es.drop_first();
                let k = choose|k: int|
                    #![trigger d.take(k)]
                    0 <= k <= es.len() - 1 && T1::read_owed(d.take(k)) && owed_items::<T2>(
                        d.skip(k),
                        1,
                    );
                assert(d.take(k) + d.skip(k) =~= d);
                let mid = crate::object_shape::lemma_read_all_split(m1, d.take(k), d.skip(k));
                assert(owed_items::<T2>(d.skip(k), 1) && read_all(mid, d.skip(k)) == Some(
                    (d.skip(k), read_all(before, es).unwrap().1),
                ));
                assert(T1::read_owed(d.take(k)) && reads_through(m1, d.take(k)) && owed_from::<T2>(
                    read_all(m1, d.take(k)).unwrap().1,
                    1,
                    read_all(before, es).unwrap().1,
                ));
            }
        }
        let reading = match reader.read() {
            Ok(x) => x,
            Err(e) => {
                return Err(e);
            },
        };
        proof {
            let t = before.next_tag().unwrap().0;
            lemma_fits_kind(&reading, t);
            lemma_next_tag_progress(before);
        }
        let found = reading.ty();
        let mut tuple = match reading {
            ValueReading::Tuple(t) => t,
            _ => {
                return Err(
                    Box::new(
                        ReadError::UnexpectedValueForType(
                            UnexpectedValueForTypeError {
                                expected: ValueTypeRequirement::Tuple,
                                found,
                                type_label: "tuple",
                            },
                        ),
                    ),
                );
            },
        };
        let length = tuple.remaining();
        if length != 2 {
            return Err(
                Box::new(ReadError::UnexpectedLength { expected: 2, got: length, type_label: "tuple" }),
            );
        }
        let ghost m0 = (*tuple.reader)@;
        let ghost mut parts: Seq<Seq<WriteEvent>> = Seq::empty();
        proof {
            assert(joined_events(parts) =~= Seq::<WriteEvent>::empty());
            assert(read_all(m0, joined_events(parts)) == Some((joined_events(parts), m0)));
            assert(progressed(before, m0));
        }
        let ghost s0 = (*tuple.reader)@;
        let (v0, g0) = match read_tuple_field::<T1>(&mut tuple, 2, length, Ghost(m0), Ghost(parts)) {
            Ok(x) => x,
            Err(e) => {
                proof {
                    assert forall|es: Seq<WriteEvent>|
                        #[trigger] Self::read_owed(es) && reads_through(before, es) implies false by {
                        let a = choose|a: Seq<WriteEvent>|
                            #[trigger] T1::read_owed(a) && reads_through(s0, a) && owed_from::<T2>(
                                read_all(s0, a).unwrap().1,
                                1,
                                read_all(before, es).unwrap().1,
                            );
                    }
                }
                return Err(e);
            },
        };
        proof {
            assert forall|es: Seq<WriteEvent>|
                #[trigger] Self::read_owed(es) && reads_through(before, es) implies owed_from::<T2>(
                (*tuple.reader)@,
                1,
                read_all(before, es).unwrap().1,
            ) by {
                let a = choose|a: Seq<WriteEvent>|
                    #[trigger] T1::read_owed(a) && reads_through(s0, a) && owed_from::<T2>(
                        read_all(s0, a).unwrap().1,
                        1,
                        read_all(before, es).unwrap().1,
                    );
            }
        }
        proof {
            lemma_progress_trans(before, s0, (*tuple.reader)@);
            parts = parts.push(g0@);
        }
        let ghost s1 = (*tuple.reader)@;
        let (v1, g1) = match read_tuple_field::<T2>(&mut tuple, 2, length, Ghost(m0), Ghost(parts)) {
            Ok(x) => x,
            Err(e) => {
                proof {
                    assert forall|es: Seq<WriteEvent>|
                        #[trigger] Self::read_owed(es) && reads_through(before, es) implies false by {
                        let a = lemma_owed_next::<T2>(s1, 1, read_all(before, es).unwrap().1);
                    }
                }
                return Err(e);
            },
        };
        proof {
            assert forall|es: Seq<WriteEvent>|
                #[trigger] Self::read_owed(es) && reads_through(before, es) implies (*tuple.reader)@
                == read_all(before, es).unwrap().1 by {
                let a = lemma_owed_next::<T2>(s1, 1, read_all(before, es).unwrap().1);
                lemma_owed_none::<T2>((*tuple.reader)@, read_all(before, es).unwrap().1);
            }
        }
        proof {
            lemma_progress_trans(before, s1, (*tuple.reader)@);
            parts = parts.push(g1@);
        }
        proof {
            let t = before.next_tag().unwrap().0;
            let head = seq![WriteEvent::Tag(t)];
            lemma_read_tag_event(before);
            let done = joined_events(parts);
            lemma_read_all_concat(before, head, m0, done, (*tuple.reader)@);
            assert((head + done).drop_first() =~= done);
            assert((head + done)[0] == WriteEvent::Tag(t));
            assert(parts == seq![g0@, g1@]);
            lemma_tuple_parts_2(parts, g0@, g1@, v0, v1);
            assert(<(T1, T2) as SmolRead>::decoded_from(head + done, (v0, v1)));
        }
        Ok((v0, v1))
    }
}

impl<T1: SmolWrite, T2: SmolWrite, T3: SmolWrite> SmolWrite for (T1, T2, T3) {
    open spec fn written_events(&self) -> Seq<WriteEvent> {
        seq![WriteEvent::Tag(TagModel::Tuple(3))] + self.0.written_events() + self.1.written_events() + self.2.written_events()
    }

    fn write(&self, writer: ValueWriter) -> (r: Result<(), WriteError>) {
        let ghost w0 = (*writer.writer)@;
        let mut tup = match writer.write_tuple(3) {
            Ok(t) => t,
            Err(e) => {
                return Err(e);
            },
        };
        let ghost mut done = seq![WriteEvent::Tag(TagModel::Tuple(3))];
        match self.0.write(tup.write_value()) {
            Ok(()) => {},
            Err(e) => {
                return Err(e);
            },
        }
        proof {
            lemma_write_events_concat(w0, done, self.0.written_events());
            done = done + self.0.written_events();
        }
        match self.1.write(tup.write_value()) {
            Ok(()) => {},
            Err(e) => {
                return Err(e);
            },
        }
        proof {
            lemma_write_events_concat(w0, done, self.1.written_events());
            done = done + self.1.written_events();
        }
        match self.2.write(tup.write_value()) {
            Ok(()) => {},
            Err(e) => {
                return Err(e);
            },
        }
        proof {
            lemma_write_events_concat(w0, done, self.2.written_events());
            done = done + self.2.written_events();
        }
        Ok(())
    }
}

impl<T1: SmolRead, T2: SmolRead, T3: SmolRead> SmolRead for (T1, T2, T3) {
    open spec fn decoded_from(es: Seq<WriteEvent>, v: Self) -> bool {
        es.len() > 0 && es[0] == WriteEvent::Tag(TagModel::Tuple(3)) && exists|parts: Seq<Seq<WriteEvent>>|
            #![trigger joined_events(parts)]
            parts.len() == 3 && es.drop_first() == joined_events(parts) && T1::decoded_from(parts[0], v.0) && T2::decoded_from(parts[1], v.1) && T3::decoded_from(parts[2], v.2)
    }

    fn read(reader: ValueReader) -> (r: ReadResult<Self>)
        ensures
            container_tag_read(
                (*old(reader.reader))@,
                r,
                |t: TagModel| t is Tuple,
                ValueTypeRequirement::Tuple,
                "tuple",
            ),
            (*old(reader.reader))@.next_tag() matches Ok((TagModel::Tuple(n), _)) ==> (n != 3 ==> (r matches Err(b)
                && *b == (ReadError::UnexpectedLength { expected: 3, got: n, type_label: "tuple" }))),
    {
        let ghost before = (*reader.reader)@;
        let reading = match reader.read() {
            Ok(x) => x,
            Err(e) => {
                return Err(e);
            },
        };
        proof {
            let t = before.next_tag().unwrap().0;
            lemma_fits_kind(&reading, t);
            lemma_next_tag_progress(before);
        }
        let found = reading.ty();
        let mut tuple = match reading {
            ValueReading::Tuple(t) => t,
            _ => {
                return Err(
                    Box::new(
                        ReadError::UnexpectedValueForType(
                            UnexpectedValueForTypeError {
                                expected: ValueTypeRequirement::Tuple,
                                found,
                                type_label: "tuple",
                            },
                        ),
                    ),
                );
            },
        };
        let length = tuple.remaining();
        if length != 3 {
            return Err(
                Box::new(ReadError::UnexpectedLength { expected: 3, got: length, type_label: "tuple" }),
            );
        }
        let ghost m0 = (*tuple.reader)@;
        let ghost mut parts: Seq<Seq<WriteEvent>> = Seq::empty();
        proof {
            assert(joined_events(parts) =~= Seq::<WriteEvent>::empty());
            assert(read_all(m0, joined_events(parts)) == Some((joined_events(parts), m0)));
            assert(progressed(before, m0));
        }
        let ghost s0 = (*tuple.reader)@;
        let (v0, g0) = match read_tuple_field::<T1>(&mut tuple, 3, length, Ghost(m0), Ghost(parts)) {
            Ok(x) => x,
            Err(e) => {
                return Err(e);
            },
        };
        proof {
            lemma_progress_trans(before, s0, (*tuple.reader)@);
            parts = parts.push(g0@);
        }
        let ghost s1 = (*tuple.reader)@;
        let (v1, g1) = match read_tuple_field::<T2>(&mut tuple, 3, length, Ghost(m0), Ghost(parts)) {
            Ok(x) => x,
            Err(e) => {
                return Err(e);
            },
        };
        proof {
            lemma_progress_trans(before, s1, (*tuple.reader)@);
            parts = parts.push(g1@);
        }
        let ghost s2 = (*tuple.reader)@;
        let (v2, g2) = match read_tuple_field::<T3>(&mut tuple, 3, length, Ghost(m0), Ghost(parts)) {
            Ok(x) => x,
            Err(e) => {
                return Err(e);
            },
        };
        proof {
            lemma_progress_trans(before, s2, (*tuple.reader)@);
            parts = parts.push(g2@);
        }
        proof {
            let t = before.next_tag().unwrap().0;
            let head = seq![WriteEvent::Tag(t)];
            lemma_read_tag_event(before);
            let done = joined_events(parts);
            lemma_read_all_concat(before, head, m0, done, (*tuple.reader)@);
            assert((head + done).drop_first() =~= done);
            assert((head + done)[0] == WriteEvent::Tag(t));
            assert(parts == seq![g0@, g1@, g2@]);
            lemma_tuple_parts_3(parts, g0@, g1@, g2@, v0, v1, v2);
            assert(<(T1, T2, T3) as SmolRead>::decoded_from(head + done, (v0, v1, v2)));
        }
        Ok((v0, v1, v2))
    }
}

impl<T1: SmolWrite, T2: SmolWrite, T3: SmolWrite, T4: SmolWrite> SmolWrite for (T1, T2, T3, T4) {
    open spec fn written_events(&self) -> Seq<WriteEvent> {
        seq![WriteEvent::Tag(TagModel::Tuple(4))] + self.0.written_events() + self.1.written_events() + self.2.written_events() + self.3.written_events()
    }

    fn write(&self, writer: ValueWriter) -> (r: Result<(), WriteError>) {
        let ghost w0 = (*writer.writer)@;
        let mut tup = match writer.write_tuple(4) {
            Ok(t) => t,
            Err(e) => {
                return Err(e);
            },
        };
        let ghost mut done = seq![WriteEvent::Tag(TagModel::Tuple(4))];
        match self.0.write(tup.write_value()) {
            Ok(()) => {},
            Err(e) => {
                return Err(e);
            },
        }
        proof {
            lemma_write_events_concat(w0, done, self.0.written_events());
            done = done + self.0.written_events();
        }
        match self.1.write(tup.write_value()) {
            Ok(()) => {},
            Err(e) => {
                return Err(e);
            },
        }
        proof {
            lemma_write_events_concat(w0, done, self.1.written_events());
            done = done + self.1.written_events();
        }
        match self.2.write(tup.write_value()) {
            Ok(()) => {},
            Err(e) => {
                return Err(e);
            },
        }
        proof {
            lemma_write_events_concat(w0, done, self.2.written_events());
            done = done + self.2.written_events();
        }
        match self.3.write(tup.write_value()) {
            Ok(()) => {},
            Err(e) => {
                return Err(e);
            },
        }
        proof {
            lemma_write_events_concat(w0, done, self.3.written_events());
            done = done + self.3.written_events();
        }
        Ok(())
    }
}

impl<T1: SmolRead, T2: SmolRead, T3: SmolRead, T4: SmolRead> SmolRead for (T1, T2, T3, T4) {
    open spec fn decoded_from(es: Seq<WriteEvent>, v: Self) -> bool {
        es.len() > 0 && es[0] == WriteEvent::Tag(TagModel::Tuple(4)) && exists|parts: Seq<Seq<WriteEvent>>|
            #![trigger joined_events(parts)]
            parts.len() == 4 && es.drop_first() == joined_events(parts) && T1::decoded_from(parts[0], v.0) && T2::decoded_from(parts[1], v.1) && T3::decoded_from(parts[2], v.2) && T4::decoded_from(parts[3], v.3)
    }

    fn read(reader: ValueReader) -> (r: ReadResult<Self>)
        ensures
            container_tag_read(
                (*old(reader.reader))@,
                r,
                |t: TagModel| t is Tuple,
                ValueTypeRequirement::Tuple,
                "tuple",
            ),
            (*old(reader.reader))@.next_tag() matches Ok((TagModel::Tuple(n), _)) ==> (n != 4 ==> (r matches Err(b)
                && *b == (ReadError::UnexpectedLength { expected: 4, got: n, type_label: "tuple" }))),
    {
        let ghost before = (*reader.reader)@;
        let reading = match reader.read() {
            Ok(x) => x,
            Err(e) => {
                return Err(e);
            },
        };
        proof {
            let t = before.next_tag().unwrap().0;
            lemma_fits_kind(&reading, t);
            lemma_next_tag_progress(before);
        }
        let found = reading.ty();
        let mut tuple = match reading {
            ValueReading::Tuple(t) => t,
            _ => {
                return Err(
                    Box::new(
                        ReadError::UnexpectedValueForType(
                            UnexpectedValueForTypeError {
                                expected: ValueTypeRequirement::Tuple,
                                found,
                                type_label: "tuple",
                            },
                        ),
                    ),
                );
            },
        };
        let length = tuple.remaining();
        if length != 4 {
            return Err(
                Box::new(ReadError::UnexpectedLength { expected: 4, got: length, type_label: "tuple" }),
            );
        }
        let ghost m0 = (*tuple.reader)@;
        let ghost mut parts: Seq<Seq<WriteEvent>> = Seq::empty();
        proof {
            assert(joined_events(parts) =~= Seq::<WriteEvent>::empty());
            assert(read_all(m0, joined_events(parts)) == Some((joined_events(parts), m0)));
            assert(progressed(before, m0));
        }
        let ghost s0 = (*tuple.reader)@;
        let (v0, g0) = match read_tuple_field::<T1>(&mut tuple, 4, length, Ghost(m0), Ghost(parts)) {
            Ok(x) => x,
            Err(e) => {
                return Err(e);
            },
        };
        proof {
            lemma_progress_trans(before, s0, (*tuple.reader)@);
            parts = parts.push(g0@);
        }
        let ghost s1 = (*tuple.reader)@;
        let (v1, g1) = match read_tuple_field::<T2>(&mut tuple, 4, length, Ghost(m0), Ghost(parts)) {
            Ok(x) => x,
            Err(e) => {
                return Err(e);
            },
        };
        proof {
            lemma_progress_trans(before, s1, (*tuple.reader)@);
            parts = parts.push(g1@);
        }
        let ghost s2 = (*tuple.reader)@;
        let (v2, g2) = match read_tuple_field::<T3>(&mut tuple, 4, length, Ghost(m0), Ghost(parts)) {
            Ok(x) => x,
            Err(e) => {
                return Err(e);
            },
        };
        proof {
            lemma_progress_trans(before, s2, (*tuple.reader)@);
            parts = parts.push(g2@);
        }
        let ghost s3 = (*tuple.reader)@;
        let (v3, g3) = match read_tuple_field::<T4>(&mut tuple, 4, length, Ghost(m0), Ghost(parts)) {
            Ok(x) => x,
            Err(e) => {
                return Err(e);
            },
        };
        proof {
            lemma_progress_trans(before, s3, (*tuple.reader)@);
            parts = parts.push(g3@);
        }
        proof {
            let t = before.next_tag().unwrap().0;
            let head = seq![WriteEvent::Tag(t)];
            lemma_read_tag_event(before);
            let done = joined_events(parts);
            lemma_read_all_concat(before, head, m0, done, (*tuple.reader)@);
            assert((head + done).drop_first() =~= done);
            assert((head + done)[0] == WriteEvent::Tag(t));
            assert(parts == seq![g0@, g1@, g2@, g3@]);
            lemma_tuple_parts_4(parts, g0@, g1@, g2@, g3@, v0, v1, v2, v3);
            assert(<(T1, T2, T3, T4) as SmolRead>::decoded_from(head + done, (v0, v1, v2, v3)));
        }
        Ok((v0, v1, v2, v3))
    }
}

impl<T1: SmolWrite, T2: SmolWrite, T3: SmolWrite, T4: SmolWrite, T5: SmolWrite> SmolWrite for (T1, T2, T3, T4, T5) {
    open spec fn written_events(&self) -> Seq<WriteEvent> {
        seq![WriteEvent::Tag(TagModel::Tuple(5))] + self.0.written_events() + self.1.written_events() + self.2.written_events() + self.3.written_events() + self.4.written_events()
    }

    fn write(&self, writer: ValueWriter) -> (r: Result<(), WriteError>) {
        let ghost w0 = (*writer.writer)@;
        let mut tup = match writer.write_tuple(5) {
            Ok(t) => t,
            Err(e) => {
                return Err(e);
            },
        };
        let ghost mut done = seq![WriteEvent::Tag(TagModel::Tuple(5))];
        match self.0.write(tup.write_value()) {
            Ok(()) => {},
            Err(e) => {
                return Err(e);
            },
        }
        proof {
            lemma_write_events_concat(w0, done, self.0.written_events());
            done = done + self.0.written_events();
        }
        match self.1.write(tup.write_value()) {
            Ok(()) => {},
            Err(e) => {
                return Err(e);
            },
        }
        proof {
            lemma_write_events_concat(w0, done, self.1.written_events());
            done = done + self.1.written_events();
        }
        match self.2.write(tup.write_value()) {
            Ok(()) => {},
            Err(e) => {
                return Err(e);
            },
        }
        proof {
            lemma_write_events_concat(w0, done, self.2.written_events());
            done = done + self.2.written_events();
        }
        match self.3.write(tup.write_value()) {
            Ok(()) => {},
            Err(e) => {
                return Err(e);
            },
        }
        proof {
            lemma_write_events_concat(w0, done, self.3.written_events());
            done = done + self.3.written_events();
        }
        match self.4.write(tup.write_value()) {
            Ok(()) => {},
            Err(e) => {
                return Err(e);
            },
        }
        proof {
            lemma_write_events_concat(w0, done, self.4.written_events());
            done = done + self.4.written_events();
        }
        Ok(())
    }
}

impl<T1: SmolRead, T2: SmolRead, T3: SmolRead, T4: SmolRead, T5: SmolRead> SmolRead for (T1, T2, T3, T4, T5) {
    open spec fn decoded_from(es: Seq<WriteEvent>, v: Self) -> bool {
        es.len() > 0 && es[0] == WriteEvent::Tag(TagModel::Tuple(5)) && exists|parts: Seq<Seq<WriteEvent>>|
            #![trigger joined_events(parts)]
            parts.len() == 5 && es.drop_first() == joined_events(parts) && T1::decoded_from(parts[0], v.0) && T2::decoded_from(parts[1], v.1) && T3::decoded_from(parts[2], v.2) && T4::decoded_from(parts[3], v.3) && T5::decoded_from(parts[4], v.4)
    }

    fn read(reader: ValueReader) -> (r: ReadResult<Self>)
        ensures
            container_tag_read(
                (*old(reader.reader))@,
                r,
                |t: TagModel| t is Tuple,
                ValueTypeRequirement::Tuple,
                "tuple",
            ),
            (*old(reader.reader))@.next_tag() matches Ok((TagModel::Tuple(n), _)) ==> (n != 5 ==> (r matches Err(b)
                && *b == (ReadError::UnexpectedLength { expected: 5, got: n, type_label: "tuple" }))),
    {
        let ghost before = (*reader.reader)@;
        let reading = match reader.read() {
            Ok(x) => x,
            Err(e) => {
                return Err(e);
            },
        };
        proof {
            let t = before.next_tag().unwrap().0;
            lemma_fits_kind(&reading, t);
            lemma_next_tag_progress(before);
        }
        let found = reading.ty();
        let mut tuple = match reading {
            ValueReading::Tuple(t) => t,
            _ => {
                return Err(
                    Box::new(
                        ReadError::UnexpectedValueForType(
                            UnexpectedValueForTypeError {
                                expected: ValueTypeRequirement::Tuple,
                                found,
                                type_label: "tuple",
                            },
                        ),
                    ),
                );
            },
        };
        let length = tuple.remaining();
        if length != 5 {
            return Err(
                Box::new(ReadError::UnexpectedLength { expected: 5, got: length, type_label: "tuple" }),
            );
        }
        let ghost m0 = (*tuple.reader)@;
        let ghost mut parts: Seq<Seq<WriteEvent>> = Seq::empty();
        proof {
            assert(joined_events(parts) =~= Seq::<WriteEvent>::empty());
            assert(read_all(m0, joined_events(parts)) == Some((joined_events(parts), m0)));
            assert(progressed(before, m0));
        }
        let ghost s0 = (*tuple.reader)@;
        let (v0, g0) = match read_tuple_field::<T1>(&mut tuple, 5, length, Ghost(m0), Ghost(parts)) {
            Ok(x) => x,
            Err(e) => {
                return Err(e);
            },
        };
        proof {
            lemma_progress_trans(before, s0, (*tuple.reader)@);
            parts = parts.push(g0@);
        }
        let ghost s1 = (*tuple.reader)@;
        let (v1, g1) = match read_tuple_field::<T2>(&mut tuple, 5, length, Ghost(m0), Ghost(parts)) {
            Ok(x) => x,
            Err(e) => {
                return Err(e);
            },
        };
        proof {
            lemma_progress_trans(before, s1, (*tuple.reader)@);
            parts = parts.push(g1@);
        }
        let ghost s2 = (*tuple.reader)@;
        let (v2, g2) = match read_tuple_field::<T3>(&mut tuple, 5, length, Ghost(m0), Ghost(parts)) {
            Ok(x) => x,
            Err(e) => {
                return Err(e);
            },
        };
        proof {
            lemma_progress_trans(before, s2, (*tuple.reader)@);
            parts = parts.push(g2@);
        }
        let ghost s3 = (*tuple.reader)@;
        let (v3, g3) = match read_tuple_field::<T4>(&mut tuple, 5, length, Ghost(m0), Ghost(parts)) {
            Ok(x) => x,
            Err(e) => {
                return Err(e);
            },
        };
        proof {
            lemma_progress_trans(before, s3, (*tuple.reader)@);
            parts = parts.push(g3@);
        }
        let ghost s4 = (*tuple.reader)@;
        let (v4, g4) = match read_tuple_field::<T5>(&mut tuple, 5, length, Ghost(m0), Ghost(parts)) {
            Ok(x) => x,
            Err(e) => {
                return Err(e);
            },
        };
        proof {
            lemma_progress_trans(before, s4, (*tuple.reader)@);
            parts = parts.push(g4@);
        }
        proof {
            let t = before.next_tag().unwrap().0;
            let head = seq![WriteEvent::Tag(t)];
            lemma_read_tag_event(before);
            let done = joined_events(parts);
            lemma_read_all_concat(before, head, m0, done, (*tuple.reader)@);
            assert((head + done).drop_first() =~= done);
            assert((head + done)[0] == WriteEvent::Tag(t));
            assert(parts == seq![g0@, g1@, g2@, g3@, g4@]);
            lemma_tuple_parts_5(parts, g0@, g1@, g2@, g3@, g4@, v0, v1, v2, v3, v4);
            assert(<(T1, T2, T3, T4, T5) as SmolRead>::decoded_from(head + done, (v0, v1, v2, v3, v4)));
        }
        Ok((v0, v1, v2, v3, v4))
    }
}

impl<T1: SmolWrite, T2: SmolWrite, T3: SmolWrite, T4: SmolWrite, T5: SmolWrite, T6: SmolWrite> SmolWrite for (T1, T2, T3, T4, T5, T6) {
    open spec fn written_events(&self) -> Seq<WriteEvent> {
        seq![WriteEvent::Tag(TagModel::Tuple(6))] + self.0.written_events() + self.1.written_events() + self.2.written_events() + self.3.written_events() + self.4.written_events() + self.5.written_events()
    }

    fn write(&self, writer: ValueWriter) -> (r: Result<(), WriteError>) {
        let ghost w0 = (*writer.writer)@;
        let mut tup = match writer.write_tuple(6) {
            Ok(t) => t,
            Err(e) => {
                return Err(e);
            },
        };
        let ghost mut done = seq![WriteEvent::Tag(TagModel::Tuple(6))];
        match self.0.write(tup.write_value()) {
            Ok(()) => {},
            Err(e) => {
                return Err(e);
            },
        }
        proof {
            lemma_write_events_concat(w0, done, self.0.written_events());
            done = done + self.0.written_events();
        }
        match self.1.write(tup.write_value()) {
            Ok(()) => {},
            Err(e) => {
                return Err(e);
            },
        }
        proof {
            lemma_write_events_concat(w0, done, self.1.written_events());
            done = done + self.1.written_events();
        }
        match self.2.write(tup.write_value()) {
            Ok(()) => {},
            Err(e) => {
                return Err(e);
            },
        }
        proof {
            lemma_write_events_concat(w0, done, self.2.written_events());
            done = done + self.2.written_events();
        }
        match self.3.write(tup.write_value()) {
            Ok(()) => {},
            Err(e) => {
                return Err(e);
            },
        }
        proof {
            lemma_write_events_concat(w0, done, self.3.written_events());
            done = done + self.3.written_events();
        }
        match self.4.write(tup.write_value()) {
            Ok(()) => {},
            Err(e) => {
                return Err(e);
            },
        }
        proof {
            lemma_write_events_concat(w0, done, self.4.written_events());
            done = done + self.4.written_events();
        }
        match self.5.write(tup.write_value()) {
            Ok(()) => {},
            Err(e) => {
                return Err(e);
            },
        }
        proof {
            lemma_write_events_concat(w0, done, self.5.written_events());
            done = done + self.5.written_events();
        }
        Ok(())
    }
}

impl<T1: SmolRead, T2: SmolRead, T3: SmolRead, T4: SmolRead, T5: SmolRead, T6: SmolRead> SmolRead for (T1, T2, T3, T4, T5, T6) {
    open spec fn decoded_from(es: Seq<WriteEvent>, v: Self) -> bool {
        es.len() > 0 && es[0] == WriteEvent::Tag(TagModel::Tuple(6)) && exists|parts: Seq<Seq<WriteEvent>>|
            #![trigger joined_events(parts)]
            parts.len() == 6 && es.drop_first() == joined_events(parts) && T1::decoded_from(parts[0], v.0) && T2::decoded_from(parts[1], v.1) && T3::decoded_from(parts[2], v.2) && T4::decoded_from(parts[3], v.3) && T5::decoded_from(parts[4], v.4) && T6::decoded_from(parts[5], v.5)
    }

    fn read(reader: ValueReader) -> (r: ReadResult<Self>)
        ensures
            container_tag_read(
                (*old(reader.reader))@,
                r,
                |t: TagModel| t is Tuple,
                ValueTypeRequirement::Tuple,
                "tuple",
            ),
            (*old(reader.reader))@.next_tag() matches Ok((TagModel::Tuple(n), _)) ==> (n != 6 ==> (r matches Err(b)
                && *b == (ReadError::UnexpectedLength { expected: 6, got: n, type_label: "tuple" }))),
    {
        let ghost before = (*reader.reader)@;
        let reading = match reader.read() {
            Ok(x) => x,
            Err(e) => {
                return Err(e);
            },
        };
        proof {
            let t = before.next_tag().unwrap().0;
            lemma_fits_kind(&reading, t);
            lemma_next_tag_progress(before);
        }
        let found = reading.ty();
        let mut tuple = match reading {
            ValueReading::Tuple(t) => t,
            _ => {
                return Err(
                    Box::new(
                        ReadError::UnexpectedValueForType(
                            UnexpectedValueForTypeError {
                                expected: ValueTypeRequirement::Tuple,
                                found,
                                type_label: "tuple",
                            },
                        ),
                    ),
                );
            },
        };
        let length = tuple.remaining();
        if length != 6 {
            return Err(
                Box::new(ReadError::UnexpectedLength { expected: 6, got: length, type_label: "tuple" }),
            );
        }
        let ghost m0 = (*tuple.reader)@;
        let ghost mut parts: Seq<Seq<WriteEvent>> = Seq::empty();
        proof {
            assert(joined_events(parts) =~= Seq::<WriteEvent>::empty());
            assert(read_all(m0, joined_events(parts)) == Some((joined_events(parts), m0)));
            assert(progressed(before, m0));
        }
        let ghost s0 = (*tuple.reader)@;
        let (v0, g0) = match read_tuple_field::<T1>(&mut tuple, 6, length, Ghost(m0), Ghost(parts)) {
            Ok(x) => x,
            Err(e) => {
                return Err(e);
            },
        };
        proof {
            lemma_progress_trans(before, s0, (*tuple.reader)@);
            parts = parts.push(g0@);
        }
        let ghost s1 = (*tuple.reader)@;
        let (v1, g1) = match read_tuple_field::<T2>(&mut tuple, 6, length, Ghost(m0), Ghost(parts)) {
            Ok(x) => x,
            Err(e) => {
                return Err(e);
            },
        };
        proof {
            lemma_progress_trans(before, s1, (*tuple.reader)@);
            parts = parts.push(g1@);
        }
        let ghost s2 = (*tuple.reader)@;
        let (v2, g2) = match read_tuple_field::<T3>(&mut tuple, 6, length, Ghost(m0), Ghost(parts)) {
            Ok(x) => x,
            Err(e) => {
                return Err(e);
            },
        };
        proof {
            lemma_progress_trans(before, s2, (*tuple.reader)@);
            parts = parts.push(g2@);
        }
        let ghost s3 = (*tuple.reader)@;
        let (v3, g3) = match read_tuple_field::<T4>(&mut tuple, 6, length, Ghost(m0), Ghost(parts)) {
            Ok(x) => x,
            Err(e) => {
                return Err(e);
            },
        };
        proof {
            lemma_progress_trans(before, s3, (*tuple.reader)@);
            parts = parts.push(g3@);
        }
        let ghost s4 = (*tuple.reader)@;
        let (v4, g4) = match read_tuple_field::<T5>(&mut tuple, 6, length, Ghost(m0), Ghost(parts)) {
            Ok(x) => x,
            Err(e) => {
                return Err(e);
            },
        };
        proof {
            lemma_progress_trans(before, s4, (*tuple.reader)@);
            parts = parts.push(g4@);
        }
        let ghost s5 = (*tuple.reader)@;
        let (v5, g5) = match read_tuple_field::<T6>(&mut tuple, 6, length, Ghost(m0), Ghost(parts)) {
            Ok(x) => x,
            Err(e) => {
                return Err(e);
            },
        };
        proof {
            lemma_progress_trans(before, s5, (*tuple.reader)@);
            parts = parts.push(g5@);
        }
        proof {
            let t = before.next_tag().unwrap().0;
            let head = seq![WriteEvent::Tag(t)];
            lemma_read_tag_event(before);
            let done = joined_events(parts);
            lemma_read_all_concat(before, head, m0, done, (*tuple.reader)@);
            assert((head + done).drop_first() =~= done);
            assert((head + done)[0] == WriteEvent::Tag(t));
            assert(parts == seq![g0@, g1@, g2@, g3@, g4@, g5@]);
            lemma_tuple_parts_6(parts, g0@, g1@, g2@, g3@, g4@, g5@, v0, v1, v2, v3, v4, v5);
            assert(<(T1, T2, T3, T4, T5, T6) as SmolRead>::decoded_from(head + done, (v0, v1, v2, v3, v4, v5)));
        }
        Ok((v0, v1, v2, v3, v4, v5))
    }
}

impl<T1: SmolWrite, T2: SmolWrite, T3: SmolWrite, T4: SmolWrite, T5: SmolWrite, T6: SmolWrite, T7: SmolWrite> SmolWrite for (T1, T2, T3, T4, T5, T6, T7) {
    open spec fn written_events(&self) -> Seq<WriteEvent> {
        seq![WriteEvent::Tag(TagModel::Tuple(7))] + self.0.written_events() + self.1.written_events() + self.2.written_events() + self.3.written_events() + self.4.written_events() + self.5.written_events() + self.6.written_events()
    }

    fn write(&self, writer: ValueWriter) -> (r: Result<(), WriteError>) {
        let ghost w0 = (*writer.writer)@;
        let mut tup = match writer.write_tuple(7) {
            Ok(t) => t,
            Err(e) => {
                return Err(e);
            },
        };
        let ghost mut done = seq![WriteEvent::Tag(TagModel::Tuple(7))];
        match self.0.write(tup.write_value()) {
            Ok(()) => {},
            Err(e) => {
                return Err(e);
            },
        }
        proof {
            lemma_write_events_concat(w0, done, self.0.written_events());
            done = done + self.0.written_events();
        }
        match self.1.write(tup.write_value()) {
            Ok(()) => {},
            Err(e) => {
                return Err(e);
            },
        }
        proof {
            lemma_write_events_concat(w0, done, self.1.written_events());
            done = done + self.1.written_events();
        }
        match self.2.write(tup.write_value()) {
            Ok(()) => {},
            Err(e) => {
                return Err(e);
            },
        }
        proof {
            lemma_write_events_concat(w0, done, self.2.written_events());
            done = done + self.2.written_events();
        }
        match self.3.write(tup.write_value()) {
            Ok(()) => {},
            Err(e) => {
                return Err(e);
            },
        }
        proof {
            lemma_write_events_concat(w0, done, self.3.written_events());
            done = done + self.3.written_events();
        }
        match self.4.write(tup.write_value()) {
            Ok(()) => {},
            Err(e) => {
                return Err(e);
            },
        }
        proof {
            lemma_write_events_concat(w0, done, self.4.written_events());
            done = done + self.4.written_events();
        }
        match self.5.write(tup.write_value()) {
            Ok(()) => {},
            Err(e) => {
                return Err(e);
            },
        }
        proof {
            lemma_write_events_concat(w0, done, self.5.written_events());
            done = done + self.5.written_events();
        }
        match self.6.write(tup.write_value()) {
            Ok(()) => {},
            Err(e) => {
                return Err(e);
            },
        }
        proof {
            lemma_write_events_concat(w0, done, self.6.written_events());
            done = done + self.6.written_events();
        }
        Ok(())
    }
}

impl<T1: SmolRead, T2: SmolRead, T3: SmolRead, T4: SmolRead, T5: SmolRead, T6: SmolRead, T7: SmolRead> SmolRead for (T1, T2, T3, T4, T5, T6, T7) {
    open spec fn decoded_from(es: Seq<WriteEvent>, v: Self) -> bool {
        es.len() > 0 && es[0] == WriteEvent::Tag(TagModel::Tuple(7)) && exists|parts: Seq<Seq<WriteEvent>>|
            #![trigger joined_events(parts)]
            parts.len() == 7 && es.drop_first() == joined_events(parts) && T1::decoded_from(parts[0], v.0) && T2::decoded_from(parts[1], v.1) && T3::decoded_from(parts[2], v.2) && T4::decoded_from(parts[3], v.3) && T5::decoded_from(parts[4], v.4) && T6::decoded_from(parts[5], v.5) && T7::decoded_from(parts[6], v.6)
    }

    fn read(reader: ValueReader) -> (r: ReadResult<Self>)
        ensures
            container_tag_read(
                (*old(reader.reader))@,
                r,
                |t: TagModel| t is Tuple,
                ValueTypeRequirement::Tuple,
                "tuple",
            ),
            (*old(reader.reader))@.next_tag() matches Ok((TagModel::Tuple(n), _)) ==> (n != 7 ==> (r matches Err(b)
                && *b == (ReadError::UnexpectedLength { expected: 7, got: n, type_label: "tuple" }))),
    {
        let ghost before = (*reader.reader)@;
        let reading = match reader.read() {
            Ok(x) => x,
            Err(e) => {
                return Err(e);
            },
        };
        proof {
            let t = before.next_tag().unwrap().0;
            lemma_fits_kind(&reading, t);
            lemma_next_tag_progress(before);
        }
        let found = reading.ty();
        let mut tuple = match reading {
            ValueReading::Tuple(t) => t,
            _ => {
                return Err(
                    Box::new(
                        ReadError::UnexpectedValueForType(
                            UnexpectedValueForTypeError {
                                expected: ValueTypeRequirement::Tuple,
                                found,
                                type_label: "tuple",
                            },
                        ),
                    ),
                );
            },
        };
        let length = tuple.remaining();
        if length != 7 {
            return Err(
                Box::new(ReadError::UnexpectedLength { expected: 7, got: length, type_label: "tuple" }),
            );
        }
        let ghost m0 = (*tuple.reader)@;
        let ghost mut parts: Seq<Seq<WriteEvent>> = Seq::empty();
        proof {
            assert(joined_events(parts) =~= Seq::<WriteEvent>::empty());
            assert(read_all(m0, joined_events(parts)) == Some((joined_events(parts), m0)));
            assert(progressed(before, m0));
        }
        let ghost s0 = (*tuple.reader)@;
        let (v0, g0) = match read_tuple_field::<T1>(&mut tuple, 7, length, Ghost(m0), Ghost(parts)) {
            Ok(x) => x,
            Err(e) => {
                return Err(e);
            },
        };
        proof {
            lemma_progress_trans(before, s0, (*tuple.reader)@);
            parts = parts.push(g0@);
        }
        let ghost s1 = (*tuple.reader)@;
        let (v1, g1) = match read_tuple_field::<T2>(&mut tuple, 7, length, Ghost(m0), Ghost(parts)) {
            Ok(x) => x,
            Err(e) => {
                return Err(e);
            },
        };
        proof {
            lemma_progress_trans(before, s1, (*tuple.reader)@);
            parts = parts.push(g1@);
        }
        let ghost s2 = (*tuple.reader)@;
        let (v2, g2) = match read_tuple_field::<T3>(&mut tuple, 7, length, Ghost(m0), Ghost(parts)) {
            Ok(x) => x,
            Err(e) => {
                return Err(e);
            },
        };
        proof {
            lemma_progress_trans(before, s2, (*tuple.reader)@);
            parts = parts.push(g2@);
        }
        let ghost s3 = (*tuple.reader)@;
        let (v3, g3) = match read_tuple_field::<T4>(&mut tuple, 7, length, Ghost(m0), Ghost(parts)) {
            Ok(x) => x,
            Err(e) => {
                return Err(e);
            },
        };
        proof {
            lemma_progress_trans(before, s3, (*tuple.reader)@);
            parts = parts.push(g3@);
        }
        let ghost s4 = (*tuple.reader)@;
        let (v4, g4) = match read_tuple_field::<T5>(&mut tuple, 7, length, Ghost(m0), Ghost(parts)) {
            Ok(x) => x,
            Err(e) => {
                return Err(e);
            },
        };
        proof {
            lemma_progress_trans(before, s4, (*tuple.reader)@);
            parts = parts.push(g4@);
        }
        let ghost s5 = (*tuple.reader)@;
        let (v5, g5) = match read_tuple_field::<T6>(&mut tuple, 7, length, Ghost(m0), Ghost(parts)) {
            Ok(x) => x,
            Err(e) => {
                return Err(e);
            },
        };
        proof {
            lemma_progress_trans(before, s5, (*tuple.reader)@);
            parts = parts.push(g5@);
        }
        let ghost s6 = (*tuple.reader)@;
        let (v6, g6) = match read_tuple_field::<T7>(&mut tuple, 7, length, Ghost(m0), Ghost(parts)) {
            Ok(x) => x,
            Err(e) => {
                return Err(e);
            },
        };
        proof {
            lemma_progress_trans(before, s6, (*tuple.reader)@);
            parts = parts.push(g6@);
        }
        proof {
            let t = before.next_tag().unwrap().0;
            let head = seq![WriteEvent::Tag(t)];
            lemma_read_tag_event(before);
            let done = joined_events(parts);
            lemma_read_all_concat(before, head, m0, done, (*tuple.reader)@);
            assert((head + done).drop_first() =~= done);
            assert((head + done)[0] == WriteEvent::Tag(t));
            assert(parts == seq![g0@, g1@, g2@, g3@, g4@, g5@, g6@]);
            lemma_tuple_parts_7(parts, g0@, g1@, g2@, g3@, g4@, g5@, g6@, v0, v1, v2, v3, v4, v5, v6);
            assert(<(T1, T2, T3, T4, T5, T6, T7) as SmolRead>::decoded_from(head + done, (v0, v1, v2, v3, v4, v5, v6)));
        }
        Ok((v0, v1, v2, v3, v4, v5, v6))
    }
}

impl<T1: SmolWrite, T2: SmolWrite, T3: SmolWrite, T4: SmolWrite, T5: SmolWrite, T6: SmolWrite, T7: SmolWrite, T8: SmolWrite> SmolWrite for (T1, T2, T3, T4, T5, T6, T7, T8) {
    open spec fn written_events(&self) -> Seq<WriteEvent> {
        seq![WriteEvent::Tag(TagModel::Tuple(8))] + self.0.written_events() + self.1.written_events() + self.2.written_events() + self.3.written_events() + self.4.written_events() + self.5.written_events() + self.6.written_events() + self.7.written_events()
    }

    fn write(&self, writer: ValueWriter) -> (r: Result<(), WriteError>) {
        let ghost w0 = (*writer.writer)@;
        let mut tup = match writer.write_tuple(8) {
            Ok(t) => t,
            Err(e) => {
                return Err(e);
            },
        };
        let ghost mut done = seq![WriteEvent::Tag(TagModel::Tuple(8))];
        match self.0.write(tup.write_value()) {
            Ok(()) => {},
            Err(e) => {
                return Err(e);
            },
        }
        proof {
            lemma_write_events_concat(w0, done, self.0.written_events());
            done = done + self.0.written_events();
        }
        match self.1.write(tup.write_value()) {
            Ok(()) => {},
            Err(e) => {
                return Err(e);
            },
        }
        proof {
            lemma_write_events_concat(w0, done, self.1.written_events());
            done = done + self.1.written_events();
        }
        match self.2.write(tup.write_value()) {
            Ok(()) => {},
            Err(e) => {
                return Err(e);
            },
        }
        proof {
            lemma_write_events_concat(w0, done, self.2.written_events());
            done = done + self.2.written_events();
        }
        match self.3.write(tup.write_value()) {
            Ok(()) => {},
            Err(e) => {
                return Err(e);
            },
        }
        proof {
            lemma_write_events_concat(w0, done, self.3.written_events());
            done = done + self.3.written_events();
        }
        match self.4.write(tup.write_value()) {
            Ok(()) => {},
            Err(e) => {
                return Err(e);
            },
        }
        proof {
            lemma_write_events_concat(w0, done, self.4.written_events());
            done = done + self.4.written_events();
        }
        match self.5.write(tup.write_value()) {
            Ok(()) => {},
            Err(e) => {
                return Err(e);
            },
        }
        proof {
            lemma_write_events_concat(w0, done, self.5.written_events());
            done = done + self.5.written_events();
        }
        match self.6.write(tup.write_value()) {
            Ok(()) => {},
            Err(e) => {
                return Err(e);
            },
        }
        proof {
            lemma_write_events_concat(w0, done, self.6.written_events());
            done = done + self.6.written_events();
        }
        match self.7.write(tup.write_value()) {
            Ok(()) => {},
            Err(e) => {
                return Err(e);
            },
        }
        proof {
            lemma_write_events_concat(w0, done, self.7.written_events());
            done = done + self.7.written_events();
        }
        Ok(())
    }
}

impl<T1: SmolRead, T2: SmolRead, T3: SmolRead, T4: SmolRead, T5: SmolRead, T6: SmolRead, T7: SmolRead, T8: SmolRead> SmolRead for (T1, T2, T3, T4, T5, T6, T7, T8) {
    open spec fn decoded_from(es: Seq<WriteEvent>, v: Self) -> bool {
        es.len() > 0 && es[0] == WriteEvent::Tag(TagModel::Tuple(8)) && exists|parts: Seq<Seq<WriteEvent>>|
            #![trigger joined_events(parts)]
            parts.len() == 8 && es.drop_first() == joined_events(parts) && T1::decoded_from(parts[0], v.0) && T2::decoded_from(parts[1], v.1) && T3::decoded_from(parts[2], v.2) && T4::decoded_from(parts[3], v.3) && T5::decoded_from(parts[4], v.4) && T6::decoded_from(parts[5], v.5) && T7::decoded_from(parts[6], v.6) && T8::decoded_from(parts[7], v.7)
    }

    fn read(reader: ValueReader) -> (r: ReadResult<Self>)
        ensures
            container_tag_read(
                (*old(reader.reader))@,
                r,
                |t: TagModel| t is Tuple,
                ValueTypeRequirement::Tuple,
                "tuple",
            ),
            (*old(reader.reader))@.next_tag() matches Ok((TagModel::Tuple(n), _)) ==> (n != 8 ==> (r matches Err(b)
                && *b == (ReadError::UnexpectedLength { expected: 8, got: n, type_label: "tuple" }))),
    {
        let ghost before = (*reader.reader)@;
        let reading = match reader.read() {
            Ok(x) => x,
            Err(e) => {
                return Err(e);
            },
        };
        proof {
            let t = before.next_tag().unwrap().0;
            lemma_fits_kind(&reading, t);
            lemma_next_tag_progress(before);
        }
        let found = reading.ty();
        let mut tuple = match reading {
            ValueReading::Tuple(t) => t,
            _ => {
                return Err(
                    Box::new(
                        ReadError::UnexpectedValueForType(
                            UnexpectedValueForTypeError {
                                expected: ValueTypeRequirement::Tuple,
                                found,
                                type_label: "tuple",
                            },
                        ),
                    ),
                );
            },
        };
        let length = tuple.remaining();
        if length != 8 {
            return Err(
                Box::new(ReadError::UnexpectedLength { expected: 8, got: length, type_label: "tuple" }),
            );
        }
        let ghost m0 = (*tuple.reader)@;
        let ghost mut parts: Seq<Seq<WriteEvent>> = Seq::empty();
        proof {
            assert(joined_events(parts) =~= Seq::<WriteEvent>::empty());
            assert(read_all(m0, joined_events(parts)) == Some((joined_events(parts), m0)));
            assert(progressed(before, m0));
        }
        let ghost s0 = (*tuple.reader)@;
        let (v0, g0) = match read_tuple_field::<T1>(&mut tuple, 8, length, Ghost(m0), Ghost(parts)) {
            Ok(x) => x,
            Err(e) => {
                return Err(e);
            },
        };
        proof {
            lemma_progress_trans(before, s0, (*tuple.reader)@);
            parts = parts.push(g0@);
        }
        let ghost s1 = (*tuple.reader)@;
        let (v1, g1) = match read_tuple_field::<T2>(&mut tuple, 8, length, Ghost(m0), Ghost(parts)) {
            Ok(x) => x,
            Err(e) => {
                return Err(e);
            },
        };
        proof {
            lemma_progress_trans(before, s1, (*tuple.reader)@);
            parts = parts.push(g1@);
        }
        let ghost s2 = (*tuple.reader)@;
        let (v2, g2) = match read_tuple_field::<T3>(&mut tuple, 8, length, Ghost(m0), Ghost(parts)) {
            Ok(x) => x,
            Err(e) => {
                return Err(e);
            },
        };
        proof {
            lemma_progress_trans(before, s2, (*tuple.reader)@);
            parts = parts.push(g2@);
        }
        let ghost s3 = (*tuple.reader)@;
        let (v3, g3) = match read_tuple_field::<T4>(&mut tuple, 8, length, Ghost(m0), Ghost(parts)) {
            Ok(x) => x,
            Err(e) => {
                return Err(e);
            },
        };
        proof {
            lemma_progress_trans(before, s3, (*tuple.reader)@);
            parts = parts.push(g3@);
        }
        let ghost s4 = (*tuple.reader)@;
        let (v4, g4) = match read_tuple_field::<T5>(&mut tuple, 8, length, Ghost(m0), Ghost(parts)) {
            Ok(x) => x,
            Err(e) => {
                return Err(e);
            },
        };
        proof {
            lemma_progress_trans(before, s4, (*tuple.reader)@);
            parts = parts.push(g4@);
        }
        let ghost s5 = (*tuple.reader)@;
        let (v5, g5) = match read_tuple_field::<T6>(&mut tuple, 8, length, Ghost(m0), Ghost(parts)) {
            Ok(x) => x,
            Err(e) => {
                return Err(e);
            },
        };
        proof {
            lemma_progress_trans(before, s5, (*tuple.reader)@);
            parts = parts.push(g5@);
        }
        let ghost s6 = (*tuple.reader)@;
        let (v6, g6) = match read_tuple_field::<T7>(&mut tuple, 8, length, Ghost(m0), Ghost(parts)) {
            Ok(x) => x,
            Err(e) => {
                return Err(e);
            },
        };
        proof {
            lemma_progress_trans(before, s6, (*tuple.reader)@);
            parts = parts.push(g6@);
        }
        let ghost s7 = (*tuple.reader)@;
        let (v7, g7) = match read_tuple_field::<T8>(&mut tuple, 8, length, Ghost(m0), Ghost(parts)) {
            Ok(x) => x,
            Err(e) => {
                return Err(e);
            },
        };
        proof {
            lemma_progress_trans(before, s7, (*tuple.reader)@);
            parts = parts.push(g7@);
        }
        proof {
            let t = before.next_tag().unwrap().0;
            let head = seq![WriteEvent::Tag(t)];
            lemma_read_tag_event(before);
            let done = joined_events(parts);
            lemma_read_all_concat(before, head, m0, done, (*tuple.reader)@);
            assert((head + done).drop_first() =~= done);
            assert((head + done)[0] == WriteEvent::Tag(t));
            assert(parts == seq![g0@, g1@, g2@, g3@, g4@, g5@, g6@, g7@]);
            lemma_tuple_parts_8(parts, g0@, g1@, g2@, g3@, g4@, g5@, g6@, g7@, v0, v1, v2, v3, v4, v5, v6, v7);
            assert(<(T1, T2, T3, T4, T5, T6, T7, T8) as SmolRead>::decoded_from(head + done, (v0, v1, v2, v3, v4, v5, v6, v7)));
        }
        Ok((v0, v1, v2, v3, v4, v5, v6, v7))
    }
}

impl<T1: SmolWrite, T2: SmolWrite, T3: SmolWrite, T4: SmolWrite, T5: SmolWrite, T6: SmolWrite, T7: SmolWrite, T8: SmolWrite, T9: SmolWrite> SmolWrite for (T1, T2, T3, T4, T5, T6, T7, T8, T9) {
    open spec fn written_events(&self) -> Seq<WriteEvent> {
        seq![WriteEvent::Tag(TagModel::Tuple(9))] + self.0.written_events() + self.1.written_events() + self.2.written_events() + self.3.written_events() + self.4.written_events() + self.5.written_events() + self.6.written_events() + self.7.written_events() + self.8.written_events()
    }

    fn write(&self, writer: ValueWriter) -> (r: Result<(), WriteError>) {
        let ghost w0 = (*writer.writer)@;
        let mut tup = match writer.write_tuple(9) {
            Ok(t) => t,
            Err(e) => {
                return Err(e);
            },
        };
        let ghost mut done = seq![WriteEvent::Tag(TagModel::Tuple(9))];
        match self.0.write(tup.write_value()) {
            Ok(()) => {},
            Err(e) => {
                return Err(e);
            },
        }
        proof {
            lemma_write_events_concat(w0, done, self.0.written_events());
            done = done + self.0.written_events();
        }
        match self.1.write(tup.write_value()) {
            Ok(()) => {},
            Err(e) => {
                return Err(e);
            },
        }
        proof {
            lemma_write_events_concat(w0, done, self.1.written_events());
            done = done + self.1.written_events();
        }
        match self.2.write(tup.write_value()) {
            Ok(()) => {},
            Err(e) => {
                return Err(e);
            },
        }
        proof {
            lemma_write_events_concat(w0, done, self.2.written_events());
            done = done + self.2.written_events();
        }
        match self.3.write(tup.write_value()) {
            Ok(()) => {},
            Err(e) => {
                return Err(e);
            },
        }
        proof {
            lemma_write_events_concat(w0, done, self.3.written_events());
            done = done + self.3.written_events();
        }
        match self.4.write(tup.write_value()) {
            Ok(()) => {},
            Err(e) => {
                return Err(e);
            },
        }
        proof {
            lemma_write_events_concat(w0, done, self.4.written_events());
            done = done + self.4.written_events();
        }
        match self.5.write(tup.write_value()) {
            Ok(()) => {},
            Err(e) => {
                return Err(e);
            },
        }
        proof {
            lemma_write_events_concat(w0, done, self.5.written_events());
            done = done + self.5.written_events();
        }
        match self.6.write(tup.write_value()) {
            Ok(()) => {},
            Err(e) => {
                return Err(e);
            },
        }
        proof {
            lemma_write_events_concat(w0, done, self.6.written_events());
            done = done + self.6.written_events();
        }
        match self.7.write(tup.write_value()) {
            Ok(()) => {},
            Err(e) => {
                return Err(e);
            },
        }
        proof {
            lemma_write_events_concat(w0, done, self.7.written_events());
            done = done + self.7.written_events();
        }
        match self.8.write(tup.write_value()) {
            Ok(()) => {},
            Err(e) => {
                return Err(e);
            },
        }
        proof {
            lemma_write_events_concat(w0, done, self.8.written_events());
            done = done + self.8.written_events();
        }
        Ok(())
    }
}

impl<T1: SmolRead, T2: SmolRead, T3: SmolRead, T4: SmolRead, T5: SmolRead, T6: SmolRead, T7: SmolRead, T8: SmolRead, T9: SmolRead> SmolRead for (T1, T2, T3, T4, T5, T6, T7, T8, T9) {
    open spec fn decoded_from(es: Seq<WriteEvent>, v: Self) -> bool {
        es.len() > 0 && es[0] == WriteEvent::Tag(TagModel::Tuple(9)) && exists|parts: Seq<Seq<WriteEvent>>|
            #![trigger joined_events(parts)]
            parts.len() == 9 && es.drop_first() == joined_events(parts) && T1::decoded_from(parts[0], v.0) && T2::decoded_from(parts[1], v.1) && T3::decoded_from(parts[2], v.2) && T4::decoded_from(parts[3], v.3) && T5::decoded_from(parts[4], v.4) && T6::decoded_from(parts[5], v.5) && T7::decoded_from(parts[6], v.6) && T8::decoded_from(parts[7], v.7) && T9::decoded_from(parts[8], v.8)
    }

    fn read(reader: ValueReader) -> (r: ReadResult<Self>)
        ensures
            container_tag_read(
                (*old(reader.reader))@,
                r,
                |t: TagModel| t is Tuple,
                ValueTypeRequirement::Tuple,
                "tuple",
            ),
            (*old(reader.reader))@.next_tag() matches Ok((TagModel::Tuple(n), _)) ==> (n != 9 ==> (r matches Err(b)
                && *b == (ReadError::UnexpectedLength { expected: 9, got: n, type_label: "tuple" }))),
    {
        let ghost before = (*reader.reader)@;
        let reading = match reader.read() {
            Ok(x) => x,
            Err(e) => {
                return Err(e);
            },
        };
        proof {
            let t = before.next_tag().unwrap().0;
            lemma_fits_kind(&reading, t);
            lemma_next_tag_progress(before);
        }
        let found = reading.ty();
        let mut tuple = match reading {
            ValueReading::Tuple(t) => t,
            _ => {
                return Err(
                    Box::new(
                        ReadError::UnexpectedValueForType(
                            UnexpectedValueForTypeError {
                                expected: ValueTypeRequirement::Tuple,
                                found,
                                type_label: "tuple",
                            },
                        ),
                    ),
                );
            },
        };
        let length = tuple.remaining();
        if length != 9 {
            return Err(
                Box::new(ReadError::UnexpectedLength { expected: 9, got: length, type_label: "tuple" }),
            );
        }
        let ghost m0 = (*tuple.reader)@;
        let ghost mut parts: Seq<Seq<WriteEvent>> = Seq::empty();
        proof {
            assert(joined_events(parts) =~= Seq::<WriteEvent>::empty());
            assert(read_all(m0, joined_events(parts)) == Some((joined_events(parts), m0)));
            assert(progressed(before, m0));
        }
        let ghost s0 = (*tuple.reader)@;
        let (v0, g0) = match read_tuple_field::<T1>(&mut tuple, 9, length, Ghost(m0), Ghost(parts)) {
            Ok(x) => x,
            Err(e) => {
                return Err(e);
            },
        };
        proof {
            lemma_progress_trans(before, s0, (*tuple.reader)@);
            parts = parts.push(g0@);
        }
        let ghost s1 = (*tuple.reader)@;
        let (v1, g1) = match read_tuple_field::<T2>(&mut tuple, 9, length, Ghost(m0), Ghost(parts)) {
            Ok(x) => x,
            Err(e) => {
                return Err(e);
            },
        };
        proof {
            lemma_progress_trans(before, s1, (*tuple.reader)@);
            parts = parts.push(g1@);
        }
        let ghost s2 = (*tuple.reader)@;
        let (v2, g2) = match read_tuple_field::<T3>(&mut tuple, 9, length, Ghost(m0), Ghost(parts)) {
            Ok(x) => x,
            Err(e) => {
                return Err(e);
            },
        };
        proof {
            lemma_progress_trans(before, s2, (*tuple.reader)@);
            parts = parts.push(g2@);
        }
        let ghost s3 = (*tuple.reader)@;
        let (v3, g3) = match read_tuple_field::<T4>(&mut tuple, 9, length, Ghost(m0), Ghost(parts)) {
            Ok(x) => x,
            Err(e) => {
                return Err(e);
            },
        };
        proof {
            lemma_progress_trans(before, s3, (*tuple.reader)@);
            parts = parts.push(g3@);
        }
        let ghost s4 = (*tuple.reader)@;
        let (v4, g4) = match read_tuple_field::<T5>(&mut tuple, 9, length, Ghost(m0), Ghost(parts)) {
            Ok(x) => x,
            Err(e) => {
                return Err(e);
            },
        };
        proof {
            lemma_progress_trans(before, s4, (*tuple.reader)@);
            parts = parts.push(g4@);
        }
        let ghost s5 = (*tuple.reader)@;
        let (v5, g5) = match read_tuple_field::<T6>(&mut tuple, 9, length, Ghost(m0), Ghost(parts)) {
            Ok(x) => x,
            Err(e) => {
                return Err(e);
            },
        };
        proof {
            lemma_progress_trans(before, s5, (*tuple.reader)@);
            parts = parts.push(g5@);
        }
        let ghost s6 = (*tuple.reader)@;
        let (v6, g6) = match read_tuple_field::<T7>(&mut tuple, 9, length, Ghost(m0), Ghost(parts)) {
            Ok(x) => x,
            Err(e) => {
                return Err(e);
            },
        };
        proof {
            lemma_progress_trans(before, s6, (*tuple.reader)@);
            parts = parts.push(g6@);
        }
        let ghost s7 = (*tuple.reader)@;
        let (v7, g7) = match read_tuple_field::<T8>(&mut tuple, 9, length, Ghost(m0), Ghost(parts)) {
            Ok(x) => x,
            Err(e) => {
                return Err(e);
            },
        };
        proof {
            lemma_progress_trans(before, s7, (*tuple.reader)@);
            parts = parts.push(g7@);
        }
        let ghost s8 = (*tuple.reader)@;
        let (v8, g8) = match read_tuple_field::<T9>(&mut tuple, 9, length, Ghost(m0), Ghost(parts)) {
            Ok(x) => x,
            Err(e) => {
                return Err(e);
            },
        };
        proof {
            lemma_progress_trans(before, s8, (*tuple.reader)@);
            parts = parts.push(g8@);
        }
        proof {
            let t = before.next_tag().unwrap().0;
            let head = seq![WriteEvent::Tag(t)];
            lemma_read_tag_event(before);
            let done = joined_events(parts);
            lemma_read_all_concat(before, head, m0, done, (*tuple.reader)@);
            assert((head + done).drop_first() =~= done);
            assert((head + done)[0] == WriteEvent::Tag(t));
            assert(parts == seq![g0@, g1@, g2@, g3@, g4@, g5@, g6@, g7@, g8@]);
            lemma_tuple_parts_9(parts, g0@, g1@, g2@, g3@, g4@, g5@, g6@, g7@, g8@, v0, v1, v2, v3, v4, v5, v6, v7, v8);
            assert(<(T1, T2, T3, T4, T5, T6, T7, T8, T9) as SmolRead>::decoded_from(head + done, (v0, v1, v2, v3, v4, v5, v6, v7, v8)));
        }
        Ok((v0, v1, v2, v3, v4, v5, v6, v7, v8))
    }
}

impl<T1: SmolWrite, T2: SmolWrite, T3: SmolWrite, T4: SmolWrite, T5: SmolWrite, T6: SmolWrite, T7: SmolWrite, T8: SmolWrite, T9: SmolWrite, T10: SmolWrite> SmolWrite for (T1, T2, T3, T4, T5, T6, T7, T8, T9, T10) {
    open spec fn written_events(&self) -> Seq<WriteEvent> {
        seq![WriteEvent::Tag(TagModel::Tuple(10))] + self.0.written_events() + self.1.written_events() + self.2.written_events() + self.3.written_events() + self.4.written_events() + self.5.written_events() + self.6.written_events() + self.7.written_events() + self.8.written_events() + self.9.written_events()
    }

    fn write(&self, writer: ValueWriter) -> (r: Result<(), WriteError>) {
        let ghost w0 = (*writer.writer)@;
        let mut tup = match writer.write_tuple(10) {
            Ok(t) => t,
            Err(e) => {
                return Err(e);
            },
        };
        let ghost mut done = seq![WriteEvent::Tag(TagModel::Tuple(10))];
        match self.0.write(tup.write_value()) {
            Ok(()) => {},
            Err(e) => {
                return Err(e);
            },
        }
        proof {
            lemma_write_events_concat(w0, done, self.0.written_events());
            done = done + self.0.written_events();
        }
        match self.1.write(tup.write_value()) {
            Ok(()) => {},
            Err(e) => {
                return Err(e);
            },
        }
        proof {
            lemma_write_events_concat(w0, done, self.1.written_events());
            done = done + self.1.written_events();
        }
        match self.2.write(tup.write_value()) {
            Ok(()) => {},
            Err(e) => {
                return Err(e);
            },
        }
        proof {
            lemma_write_events_concat(w0, done, self.2.written_events());
            done = done + self.2.written_events();
        }
        match self.3.write(tup.write_value()) {
            Ok(()) => {},
            Err(e) => {
                return Err(e);
            },
        }
        proof {
            lemma_write_events_concat(w0, done, self.3.written_events());
            done = done + self.3.written_events();
        }
        match self.4.write(tup.write_value()) {
            Ok(()) => {},
            Err(e) => {
                return Err(e);
            },
        }
        proof {
            lemma_write_events_concat(w0, done, self.4.written_events());
            done = done + self.4.written_events();
        }
        match self.5.write(tup.write_value()) {
            Ok(()) => {},
            Err(e) => {
                return Err(e);
            },
        }
        proof {
            lemma_write_events_concat(w0, done, self.5.written_events());
            done = done + self.5.written_events();
        }
        match self.6.write(tup.write_value()) {
            Ok(()) => {},
            Err(e) => {
                return Err(e);
            },
        }
        proof {
            lemma_write_events_concat(w0, done, self.6.written_events());
            done = done + self.6.written_events();
        }
        match self.7.write(tup.write_value()) {
            Ok(()) => {},
            Err(e) => {
                return Err(e);
            },
        }
        proof {
            lemma_write_events_concat(w0, done, self.7.written_events());
            done = done + self.7.written_events();
        }
        match self.8.write(tup.write_value()) {
            Ok(()) => {},
            Err(e) => {
                return Err(e);
            },
        }
        proof {
            lemma_write_events_concat(w0, done, self.8.written_events());
            done = done + self.8.written_events();
        }
        match self.9.write(tup.write_value()) {
            Ok(()) => {},
            Err(e) => {
                return Err(e);
            },
        }
        proof {
            lemma_write_events_concat(w0, done, self.9.written_events());
            done = done + self.9.written_events();
        }
        Ok(())
    }
}

impl<T1: SmolRead, T2: SmolRead, T3: SmolRead, T4: SmolRead, T5: SmolRead, T6: SmolRead, T7: SmolRead, T8: SmolRead, T9: SmolRead, T10: SmolRead> SmolRead for (T1, T2, T3, T4, T5, T6, T7, T8, T9, T10) {
    open spec fn decoded_from(es: Seq<WriteEvent>, v: Self) -> bool {
        es.len() > 0 && es[0] == WriteEvent::Tag(TagModel::Tuple(10)) && exists|parts: Seq<Seq<WriteEvent>>|
            #![trigger joined_events(parts)]
            parts.len() == 10 && es.drop_first() == joined_events(parts) && T1::decoded_from(parts[0], v.0) && T2::decoded_from(parts[1], v.1) && T3::decoded_from(parts[2], v.2) && T4::decoded_from(parts[3], v.3) && T5::decoded_from(parts[4], v.4) && T6::decoded_from(parts[5], v.5) && T7::decoded_from(parts[6], v.6) && T8::decoded_from(parts[7], v.7) && T9::decoded_from(parts[8], v.8) && T10::decoded_from(parts[9], v.9)
    }

    fn read(reader: ValueReader) -> (r: ReadResult<Self>)
        ensures
            container_tag_read(
                (*old(reader.reader))@,
                r,
                |t: TagModel| t is Tuple,
                ValueTypeRequirement::Tuple,
                "tuple",
            ),
            (*old(reader.reader))@.next_tag() matches Ok((TagModel::Tuple(n), _)) ==> (n != 10 ==> (r matches Err(b)
                && *b == (ReadError::UnexpectedLength { expected: 10, got: n, type_label: "tuple" }))),
    {
        let ghost before = (*reader.reader)@;
        let reading = match reader.read() {
            Ok(x) => x,
            Err(e) => {
                return Err(e);
            },
        };
        proof {
            let t = before.next_tag().unwrap().0;
            lemma_fits_kind(&reading, t);
            lemma_next_tag_progress(before);
        }
        let found = reading.ty();
        let mut tuple = match reading {
            ValueReading::Tuple(t) => t,
            _ => {
                return Err(
                    Box::new(
                        ReadError::UnexpectedValueForType(
                            UnexpectedValueForTypeError {
                                expected: ValueTypeRequirement::Tuple,
                                found,
                                type_label: "tuple",
                            },
                        ),
                    ),
                );
            },
        };
        let length = tuple.remaining();
        if length != 10 {
            return Err(
                Box::new(ReadError::UnexpectedLength { expected: 10, got: length, type_label: "tuple" }),
            );
        }
        let ghost m0 = (*tuple.reader)@;
        let ghost mut parts: Seq<Seq<WriteEvent>> = Seq::empty();
        proof {
            assert(joined_events(parts) =~= Seq::<WriteEvent>::empty());
            assert(read_all(m0, joined_events(parts)) == Some((joined_events(parts), m0)));
            assert(progressed(before, m0));
        }
        let ghost s0 = (*tuple.reader)@;
        let (v0, g0) = match read_tuple_field::<T1>(&mut tuple, 10, length, Ghost(m0), Ghost(parts)) {
            Ok(x) => x,
            Err(e) => {
                return Err(e);
            },
        };
        proof {
            lemma_progress_trans(before, s0, (*tuple.reader)@);
            parts = parts.push(g0@);
        }
        let ghost s1 = (*tuple.reader)@;
        let (v1, g1) = match read_tuple_field::<T2>(&mut tuple, 10, length, Ghost(m0), Ghost(parts)) {
            Ok(x) => x,
            Err(e) => {
                return Err(e);
            },
        };
        proof {
            lemma_progress_trans(before, s1, (*tuple.reader)@);
            parts = parts.push(g1@);
        }
        let ghost s2 = (*tuple.reader)@;
        let (v2, g2) = match read_tuple_field::<T3>(&mut tuple, 10, length, Ghost(m0), Ghost(parts)) {
            Ok(x) => x,
            Err(e) => {
                return Err(e);
            },
        };
        proof {
            lemma_progress_trans(before, s2, (*tuple.reader)@);
            parts = parts.push(g2@);
        }
        let ghost s3 = (*tuple.reader)@;
        let (v3, g3) = match read_tuple_field::<T4>(&mut tuple, 10, length, Ghost(m0), Ghost(parts)) {
            Ok(x) => x,
            Err(e) => {
                return Err(e);
            },
        };
        proof {
            lemma_progress_trans(before, s3, (*tuple.reader)@);
            parts = parts.push(g3@);
        }
        let ghost s4 = (*tuple.reader)@;
        let (v4, g4) = match read_tuple_field::<T5>(&mut tuple, 10, length, Ghost(m0), Ghost(parts)) {
            Ok(x) => x,
            Err(e) => {
                return Err(e);
            },
        };
        proof {
            lemma_progress_trans(before, s4, (*tuple.reader)@);
            parts = parts.push(g4@);
        }
        let ghost s5 = (*tuple.reader)@;
        let (v5, g5) = match read_tuple_field::<T6>(&mut tuple, 10, length, Ghost(m0), Ghost(parts)) {
            Ok(x) => x,
            Err(e) => {
                return Err(e);
            },
        };
        proof {
            lemma_progress_trans(before, s5, (*tuple.reader)@);
            parts = parts.push(g5@);
        }
        let ghost s6 = (*tuple.reader)@;
        let (v6, g6) = match read_tuple_field::<T7>(&mut tuple, 10, length, Ghost(m0), Ghost(parts)) {
            Ok(x) => x,
            Err(e) => {
                return Err(e);
            },
        };
        proof {
            lemma_progress_trans(before, s6, (*tuple.reader)@);
            parts = parts.push(g6@);
        }
        let ghost s7 = (*tuple.reader)@;
        let (v7, g7) = match read_tuple_field::<T8>(&mut tuple, 10, length, Ghost(m0), Ghost(parts)) {
            Ok(x) => x,
            Err(e) => {
                return Err(e);
            },
        };
        proof {
            lemma_progress_trans(before, s7, (*tuple.reader)@);
            parts = parts.push(g7@);
        }
        let ghost s8 = (*tuple.reader)@;
        let (v8, g8) = match read_tuple_field::<T9>(&mut tuple, 10, length, Ghost(m0), Ghost(parts)) {
            Ok(x) => x,
            Err(e) => {
                return Err(e);
            },
        };
        proof {
            lemma_progress_trans(before, s8, (*tuple.reader)@);
            parts = parts.push(g8@);
        }
        let ghost s9 = (*tuple.reader)@;
        let (v9, g9) = match read_tuple_field::<T10>(&mut tuple, 10, length, Ghost(m0), Ghost(parts)) {
            Ok(x) => x,
            Err(e) => {
                return Err(e);
            },
        };
        proof {
            lemma_progress_trans(before, s9, (*tuple.reader)@);
            parts = parts.push(g9@);
        }
        proof {
            let t = before.next_tag().unwrap().0;
            let head = seq![WriteEvent::Tag(t)];
            lemma_read_tag_event(before);
            let done = joined_events(parts);
            lemma_read_all_concat(before, head, m0, done, (*tuple.reader)@);
            assert((head + done).drop_first() =~= done);
            assert((head + done)[0] == WriteEvent::Tag(t));
            assert(parts == seq![g0@, g1@, g2@, g3@, g4@, g5@, g6@, g7@, g8@, g9@]);
            lemma_tuple_parts_10(parts, g0@, g1@, g2@, g3@, g4@, g5@, g6@, g7@, g8@, g9@, v0, v1, v2, v3, v4, v5, v6, v7, v8, v9);
            assert(<(T1, T2, T3, T4, T5, T6, T7, T8, T9, T10) as SmolRead>::decoded_from(head + done, (v0, v1, v2, v3, v4, v5, v6, v7, v8, v9)));
        }
        Ok((v0, v1, v2, v3, v4, v5, v6, v7, v8, v9))
    }
}

impl<T1: SmolWrite, T2: SmolWrite, T3: SmolWrite, T4: SmolWrite, T5: SmolWrite, T6: SmolWrite, T7: SmolWrite, T8: SmolWrite, T9: SmolWrite, T10: SmolWrite, T11: SmolWrite> SmolWrite for (T1, T2, T3, T4, T5, T6, T7, T8, T9, T10, T11) {
    open spec fn written_events(&self) -> Seq<WriteEvent> {
        seq![WriteEvent::Tag(TagModel::Tuple(11))] + self.0.written_events() + self.1.written_events() + self.2.written_events() + self.3.written_events() + self.4.written_events() + self.5.written_events() + self.6.written_events() + self.7.written_events() + self.8.written_events() + self.9.written_events() + self.10.written_events()
    }

    fn write(&self, writer: ValueWriter) -> (r: Result<(), WriteError>) {
        let ghost w0 = (*writer.writer)@;
        let mut tup = match writer.write_tuple(11) {
            Ok(t) => t,
            Err(e) => {
                return Err(e);
            },
        };
        let ghost mut done = seq![WriteEvent::Tag(TagModel::Tuple(11))];
        match self.0.write(tup.write_value()) {
            Ok(()) => {},
            Err(e) => {
                return Err(e);
            },
        }
        proof {
            lemma_write_events_concat(w0, done, self.0.written_events());
            done = done + self.0.written_events();
        }
        match self.1.write(tup.write_value()) {
            Ok(()) => {},
            Err(e) => {
                return Err(e);
            },
        }
        proof {
            lemma_write_events_concat(w0, done, self.1.written_events());
            done = done + self.1.written_events();
        }
        match self.2.write(tup.write_value()) {
            Ok(()) => {},
            Err(e) => {
                return Err(e);
            },
        }
        proof {
            lemma_write_events_concat(w0, done, self.2.written_events());
            done = done + self.2.written_events();
        }
        match self.3.write(tup.write_value()) {
            Ok(()) => {},
            Err(e) => {
                return Err(e);
            },
        }
        proof {
            lemma_write_events_concat(w0, done, self.3.written_events());
            done = done + self.3.written_events();
        }
        match self.4.write(tup.write_value()) {
            Ok(()) => {},
            Err(e) => {
                return Err(e);
            },
        }
        proof {
            lemma_write_events_concat(w0, done, self.4.written_events());
            done = done + self.4.written_events();
        }
        match self.5.write(tup.write_value()) {
            Ok(()) => {},
            Err(e) => {
                return Err(e);
            },
        }
        proof {
            lemma_write_events_concat(w0, done, self.5.written_events());
            done = done + self.5.written_events();
        }
        match self.6.write(tup.write_value()) {
            Ok(()) => {},
            Err(e) => {
                return Err(e);
            },
        }
        proof {
            lemma_write_events_concat(w0, done, self.6.written_events());
            done = done + self.6.written_events();
        }
        match self.7.write(tup.write_value()) {
            Ok(()) => {},
            Err(e) => {
                return Err(e);
            },
        }
        proof {
            lemma_write_events_concat(w0, done, self.7.written_events());
            done = done + self.7.written_events();
        }
        match self.8.write(tup.write_value()) {
            Ok(()) => {},
            Err(e) => {
                return Err(e);
            },
        }
        proof {
            lemma_write_events_concat(w0, done, self.8.written_events());
            done = done + self.8.written_events();
        }
        match self.9.write(tup.write_value()) {
            Ok(()) => {},
            Err(e) => {
                return Err(e);
            },
        }
        proof {
            lemma_write_events_concat(w0, done, self.9.written_events());
            done = done + self.9.written_events();
        }
        match self.10.write(tup.write_value()) {
            Ok(()) => {},
            Err(e) => {
                return Err(e);
            },
        }
        proof {
            lemma_write_events_concat(w0, done, self.10.written_events());
            done = done + self.10.written_events();
        }
        Ok(())
    }
}

impl<T1: SmolRead, T2: SmolRead, T3: SmolRead, T4: SmolRead, T5: SmolRead, T6: SmolRead, T7: SmolRead, T8: SmolRead, T9: SmolRead, T10: SmolRead, T11: SmolRead> SmolRead for (T1, T2, T3, T4, T5, T6, T7, T8, T9, T10, T11) {
    open spec fn decoded_from(es: Seq<WriteEvent>, v: Self) -> bool {
        es.len() > 0 && es[0] == WriteEvent::Tag(TagModel::Tuple(11)) && exists|parts: Seq<Seq<WriteEvent>>|
            #![trigger joined_events(parts)]
            parts.len() == 11 && es.drop_first() == joined_events(parts) && T1::decoded_from(parts[0], v.0) && T2::decoded_from(parts[1], v.1) && T3::decoded_from(parts[2], v.2) && T4::decoded_from(parts[3], v.3) && T5::decoded_from(parts[4], v.4) && T6::decoded_from(parts[5], v.5) && T7::decoded_from(parts[6], v.6) && T8::decoded_from(parts[7], v.7) && T9::decoded_from(parts[8], v.8) && T10::decoded_from(parts[9], v.9) && T11::decoded_from(parts[10], v.10)
    }

    fn read(reader: ValueReader) -> (r: ReadResult<Self>)
        ensures
            container_tag_read(
                (*old(reader.reader))@,
                r,
                |t: TagModel| t is Tuple,
                ValueTypeRequirement::Tuple,
                "tuple",
            ),
            (*old(reader.reader))@.next_tag() matches Ok((TagModel::Tuple(n), _)) ==> (n != 11 ==> (r matches Err(b)
                && *b == (ReadError::UnexpectedLength { expected: 11, got: n, type_label: "tuple" }))),
    {
        let ghost before = (*reader.reader)@;
        let reading = match reader.read() {
            Ok(x) => x,
            Err(e) => {
                return Err(e);
            },
        };
        proof {
            let t = before.next_tag().unwrap().0;
            lemma_fits_kind(&reading, t);
            lemma_next_tag_progress(before);
        }
        let found = reading.ty();
        let mut tuple = match reading {
            ValueReading::Tuple(t) => t,
            _ => {
                return Err(
                    Box::new(
                        ReadError::UnexpectedValueForType(
                            UnexpectedValueForTypeError {
                                expected: ValueTypeRequirement::Tuple,
                                found,
                                type_label: "tuple",
                            },
                        ),
                    ),
                );
            },
        };
        let length = tuple.remaining();
        if length != 11 {
            return Err(
                Box::new(ReadError::UnexpectedLength { expected: 11, got: length, type_label: "tuple" }),
            );
        }
        let ghost m0 = (*tuple.reader)@;
        let ghost mut parts: Seq<Seq<WriteEvent>> = Seq::empty();
        proof {
            assert(joined_events(parts) =~= Seq::<WriteEvent>::empty());
            assert(read_all(m0, joined_events(parts)) == Some((joined_events(parts), m0)));
            assert(progressed(before, m0));
        }
        let ghost s0 = (*tuple.reader)@;
        let (v0, g0) = match read_tuple_field::<T1>(&mut tuple, 11, length, Ghost(m0), Ghost(parts)) {
            Ok(x) => x,
            Err(e) => {
                return Err(e);
            },
        };
        proof {
            lemma_progress_trans(before, s0, (*tuple.reader)@);
            parts = parts.push(g0@);
        }
        let ghost s1 = (*tuple.reader)@;
        let (v1, g1) = match read_tuple_field::<T2>(&mut tuple, 11, length, Ghost(m0), Ghost(parts)) {
            Ok(x) => x,
            Err(e) => {
                return Err(e);
            },
        };
        proof {
            lemma_progress_trans(before, s1, (*tuple.reader)@);
            parts = parts.push(g1@);
        }
        let ghost s2 = (*tuple.reader)@;
        let (v2, g2) = match read_tuple_field::<T3>(&mut tuple, 11, length, Ghost(m0), Ghost(parts)) {
            Ok(x) => x,
            Err(e) => {
                return Err(e);
            },
        };
        proof {
            lemma_progress_trans(before, s2, (*tuple.reader)@);
            parts = parts.push(g2@);
        }
        let ghost s3 = (*tuple.reader)@;
        let (v3, g3) = match read_tuple_field::<T4>(&mut tuple, 11, length, Ghost(m0), Ghost(parts)) {
            Ok(x) => x,
            Err(e) => {
                return Err(e);
            },
        };
        proof {
            lemma_progress_trans(before, s3, (*tuple.reader)@);
            parts = parts.push(g3@);
        }
        let ghost s4 = (*tuple.reader)@;
        let (v4, g4) = match read_tuple_field::<T5>(&mut tuple, 11, length, Ghost(m0), Ghost(parts)) {
            Ok(x) => x,
            Err(e) => {
                return Err(e);
            },
        };
        proof {
            lemma_progress_trans(before, s4, (*tuple.reader)@);
            parts = parts.push(g4@);
        }
        let ghost s5 = (*tuple.reader)@;
        let (v5, g5) = match read_tuple_field::<T6>(&mut tuple, 11, length, Ghost(m0), Ghost(parts)) {
            Ok(x) => x,
            Err(e) => {
                return Err(e);
            },
        };
        proof {
            lemma_progress_trans(before, s5, (*tuple.reader)@);
            parts = parts.push(g5@);
        }
        let ghost s6 = (*tuple.reader)@;
        let (v6, g6) = match read_tuple_field::<T7>(&mut tuple, 11, length, Ghost(m0), Ghost(parts)) {
            Ok(x) => x,
            Err(e) => {
                return Err(e);
            },
        };
        proof {
            lemma_progress_trans(before, s6, (*tuple.reader)@);
            parts = parts.push(g6@);
        }
        let ghost s7 = (*tuple.reader)@;
        let (v7, g7) = match read_tuple_field::<T8>(&mut tuple, 11, length, Ghost(m0), Ghost(parts)) {
            Ok(x) => x,
            Err(e) => {
                return Err(e);
            },
        };
        proof {
            lemma_progress_trans(before, s7, (*tuple.reader)@);
            parts = parts.push(g7@);
        }
        let ghost s8 = (*tuple.reader)@;
        let (v8, g8) = match read_tuple_field::<T9>(&mut tuple, 11, length, Ghost(m0), Ghost(parts)) {
            Ok(x) => x,
            Err(e) => {
                return Err(e);
            },
        };
        proof {
            lemma_progress_trans(before, s8, (*tuple.reader)@);
            parts = parts.push(g8@);
        }
        let ghost s9 = (*tuple.reader)@;
        let (v9, g9) = match read_tuple_field::<T10>(&mut tuple, 11, length, Ghost(m0), Ghost(parts)) {
            Ok(x) => x,
            Err(e) => {
                return Err(e);
            },
        };
        proof {
            lemma_progress_trans(before, s9, (*tuple.reader)@);
            parts = parts.push(g9@);
        }
        let ghost s10 = (*tuple.reader)@;
        let (v10, g10) = match read_tuple_field::<T11>(&mut tuple, 11, length, Ghost(m0), Ghost(parts)) {
            Ok(x) => x,
            Err(e) => {
                return Err(e);
            },
        };
        proof {
            lemma_progress_trans(before, s10, (*tuple.reader)@);
            parts = parts.push(g10@);
        }
        proof {
            let t = before.next_tag().unwrap().0;
            let head = seq![WriteEvent::Tag(t)];
            lemma_read_tag_event(before);
            let done = joined_events(parts);
            lemma_read_all_concat(before, head, m0, done, (*tuple.reader)@);
            assert((head + done).drop_first() =~= done);
            assert((head + done)[0] == WriteEvent::Tag(t));
            assert(parts == seq![g0@, g1@, g2@, g3@, g4@, g5@, g6@, g7@, g8@, g9@, g10@]);
            lemma_tuple_parts_11(parts, g0@, g1@, g2@, g3@, g4@, g5@, g6@, g7@, g8@, g9@, g10@, v0, v1, v2, v3, v4, v5, v6, v7, v8, v9, v10);
            assert(<(T1, T2, T3, T4, T5, T6, T7, T8, T9, T10, T11) as SmolRead>::decoded_from(head + done, (v0, v1, v2, v3, v4, v5, v6, v7, v8, v9, v10)));
        }
        Ok((v0, v1, v2, v3, v4, v5, v6, v7, v8, v9, v10))
    }
}

impl<T1: SmolWrite, T2: SmolWrite, T3: SmolWrite, T4: SmolWrite, T5: SmolWrite, T6: SmolWrite, T7: SmolWrite, T8: SmolWrite, T9: SmolWrite, T10: SmolWrite, T11: SmolWrite, T12: SmolWrite> SmolWrite for (T1, T2, T3, T4, T5, T6, T7, T8, T9, T10, T11, T12) {
    open spec fn written_events(&self) -> Seq<WriteEvent> {
        seq![WriteEvent::Tag(TagModel::Tuple(12))] + self.0.written_events() + self.1.written_events() + self.2.written_events() + self.3.written_events() + self.4.written_events() + self.5.written_events() + self.6.written_events() + self.7.written_events() + self.8.written_events() + self.9.written_events() + self.10.written_events() + self.11.written_events()
    }

    fn write(&self, writer: ValueWriter) -> (r: Result<(), WriteError>) {
        let ghost w0 = (*writer.writer)@;
        let mut tup = match writer.write_tuple(12) {
            Ok(t) => t,
            Err(e) => {
                return Err(e);
            },
        };
        let ghost mut done = seq![WriteEvent::Tag(TagModel::Tuple(12))];
        match self.0.write(tup.write_value()) {
            Ok(()) => {},
            Err(e) => {
                return Err(e);
            },
        }
        proof {
            lemma_write_events_concat(w0, done, self.0.written_events());
            done = done + self.0.written_events();
        }
        match self.1.write(tup.write_value()) {
            Ok(()) => {},
            Err(e) => {
                return Err(e);
            },
        }
        proof {
            lemma_write_events_concat(w0, done, self.1.written_events());
            done = done + self.1.written_events();
        }
        match self.2.write(tup.write_value()) {
            Ok(()) => {},
            Err(e) => {
                return Err(e);
            },
        }
        proof {
            lemma_write_events_concat(w0, done, self.2.written_events());
            done = done + self.2.written_events();
        }
        match self.3.write(tup.write_value()) {
            Ok(()) => {},
            Err(e) => {
                return Err(e);
            },
        }
        proof {
            lemma_write_events_concat(w0, done, self.3.written_events());
            done = done + self.3.written_events();
        }
        match self.4.write(tup.write_value()) {
            Ok(()) => {},
            Err(e) => {
                return Err(e);
            },
        }
        proof {
            lemma_write_events_concat(w0, done, self.4.written_events());
            done = done + self.4.written_events();
        }
        match self.5.write(tup.write_value()) {
            Ok(()) => {},
            Err(e) => {
                return Err(e);
            },
        }
        proof {
            lemma_write_events_concat(w0, done, self.5.written_events());
            done = done + self.5.written_events();
        }
        match self.6.write(tup.write_value()) {
            Ok(()) => {},
            Err(e) => {
                return Err(e);
            },
        }
        proof {
            lemma_write_events_concat(w0, done, self.6.written_events());
            done = done + self.6.written_events();
        }
        match self.7.write(tup.write_value()) {
            Ok(()) => {},
            Err(e) => {
                return Err(e);
            },
        }
        proof {
            lemma_write_events_concat(w0, done, self.7.written_events());
            done = done + self.7.written_events();
        }
        match self.8.write(tup.write_value()) {
            Ok(()) => {},
            Err(e) => {
                return Err(e);
            },
        }
        proof {
            lemma_write_events_concat(w0, done, self.8.written_events());
            done = done + self.8.written_events();
        }
        match self.9.write(tup.write_value()) {
            Ok(()) => {},
            Err(e) => {
                return Err(e);
            },
        }
        proof {
            lemma_write_events_concat(w0, done, self.9.written_events());
            done = done + self.9.written_events();
        }
        match self.10.write(tup.write_value()) {
            Ok(()) => {},
            Err(e) => {
                return Err(e);
            },
        }
        proof {
            lemma_write_events_concat(w0, done, self.10.written_events());
            done = done + self.10.written_events();
        }
        match self.11.write(tup.write_value()) {
            Ok(()) => {},
            Err(e) => {
                return Err(e);
            },
        }
        proof {
            lemma_write_events_concat(w0, done, self.11.written_events());
            done = done + self.11.written_events();
        }
        Ok(())
    }
}

impl<T1: SmolRead, T2: SmolRead, T3: SmolRead, T4: SmolRead, T5: SmolRead, T6: SmolRead, T7: SmolRead, T8: SmolRead, T9: SmolRead, T10: SmolRead, T11: SmolRead, T12: SmolRead> SmolRead for (T1, T2, T3, T4, T5, T6, T7, T8, T9, T10, T11, T12) {
    open spec fn decoded_from(es: Seq<WriteEvent>, v: Self) -> bool {
        es.len() > 0 && es[0] == WriteEvent::Tag(TagModel::Tuple(12)) && exists|parts: Seq<Seq<WriteEvent>>|
            #![trigger joined_events(parts)]
            parts.len() == 12 && es.drop_first() == joined_events(parts) && T1::decoded_from(parts[0], v.0) && T2::decoded_from(parts[1], v.1) && T3::decoded_from(parts[2], v.2) && T4::decoded_from(parts[3], v.3) && T5::decoded_from(parts[4], v.4) && T6::decoded_from(parts[5], v.5) && T7::decoded_from(parts[6], v.6) && T8::decoded_from(parts[7], v.7) && T9::decoded_from(parts[8], v.8) && T10::decoded_from(parts[9], v.9) && T11::decoded_from(parts[10], v.10) && T12::decoded_from(parts[11], v.11)
    }

    fn read(reader: ValueReader) -> (r: ReadResult<Self>)
        ensures
            container_tag_read(
                (*old(reader.reader))@,
                r,
                |t: TagModel| t is Tuple,
                ValueTypeRequirement::Tuple,
                "tuple",
            ),
            (*old(reader.reader))@.next_tag() matches Ok((TagModel::Tuple(n), _)) ==> (n != 12 ==> (r matches Err(b)
                && *b == (ReadError::UnexpectedLength { expected: 12, got: n, type_label: "tuple" }))),
    {
        let ghost before = (*reader.reader)@;
        let reading = match reader.read() {
            Ok(x) => x,
            Err(e) => {
                return Err(e);
            },
        };
        proof {
            let t = before.next_tag().unwrap().0;
            lemma_fits_kind(&reading, t);
            lemma_next_tag_progress(before);
        }
        let found = reading.ty();
        let mut tuple = match reading {
            ValueReading::Tuple(t) => t,
            _ => {
                return Err(
                    Box::new(
                        ReadError::UnexpectedValueForType(
                            UnexpectedValueForTypeError {
                                expected: ValueTypeRequirement::Tuple,
                                found,
                                type_label: "tuple",
                            },
                        ),
                    ),
                );
            },
        };
        let length = tuple.remaining();
        if length != 12 {
            return Err(
                Box::new(ReadError::UnexpectedLength { expected: 12, got: length, type_label: "tuple" }),
            );
        }
        let ghost m0 = (*tuple.reader)@;
        let ghost mut parts: Seq<Seq<WriteEvent>> = Seq::empty();
        proof {
            assert(joined_events(parts) =~= Seq::<WriteEvent>::empty());
            assert(read_all(m0, joined_events(parts)) == Some((joined_events(parts), m0)));
            assert(progressed(before, m0));
        }
        let ghost s0 = (*tuple.reader)@;
        let (v0, g0) = match read_tuple_field::<T1>(&mut tuple, 12, length, Ghost(m0), Ghost(parts)) {
            Ok(x) => x,
            Err(e) => {
                return Err(e);
            },
        };
        proof {
            lemma_progress_trans(before, s0, (*tuple.reader)@);
            parts = parts.push(g0@);
        }
        let ghost s1 = (*tuple.reader)@;
        let (v1, g1) = match read_tuple_field::<T2>(&mut tuple, 12, length, Ghost(m0), Ghost(parts)) {
            Ok(x) => x,
            Err(e) => {
                return Err(e);
            },
        };
        proof {
            lemma_progress_trans(before, s1, (*tuple.reader)@);
            parts = parts.push(g1@);
        }
        let ghost s2 = (*tuple.reader)@;
        let (v2, g2) = match read_tuple_field::<T3>(&mut tuple, 12, length, Ghost(m0), Ghost(parts)) {
            Ok(x) => x,
            Err(e) => {
                return Err(e);
            },
        };
        proof {
            lemma_progress_trans(before, s2, (*tuple.reader)@);
            parts = parts.push(g2@);
        }
        let ghost s3 = (*tuple.reader)@;
        let (v3, g3) = match read_tuple_field::<T4>(&mut tuple, 12, length, Ghost(m0), Ghost(parts)) {
            Ok(x) => x,
            Err(e) => {
                return Err(e);
            },
        };
        proof {
            lemma_progress_trans(before, s3, (*tuple.reader)@);
            parts = parts.push(g3@);
        }
        let ghost s4 = (*tuple.reader)@;
        let (v4, g4) = match read_tuple_field::<T5>(&mut tuple, 12, length, Ghost(m0), Ghost(parts)) {
            Ok(x) => x,
            Err(e) => {
                return Err(e);
            },
        };
        proof {
            lemma_progress_trans(before, s4, (*tuple.reader)@);
            parts = parts.push(g4@);
        }
        let ghost s5 = (*tuple.reader)@;
        let (v5, g5) = match read_tuple_field::<T6>(&mut tuple, 12, length, Ghost(m0), Ghost(parts)) {
            Ok(x) => x,
            Err(e) => {
                return Err(e);
            },
        };
        proof {
            lemma_progress_trans(before, s5, (*tuple.reader)@);
            parts = parts.push(g5@);
        }
        let ghost s6 = (*tuple.reader)@;
        let (v6, g6) = match read_tuple_field::<T7>(&mut tuple, 12, length, Ghost(m0), Ghost(parts)) {
            Ok(x) => x,
            Err(e) => {
                return Err(e);
            },
        };
        proof {
            lemma_progress_trans(before, s6, (*tuple.reader)@);
            parts = parts.push(g6@);
        }
        let ghost s7 = (*tuple.reader)@;
        let (v7, g7) = match read_tuple_field::<T8>(&mut tuple, 12, length, Ghost(m0), Ghost(parts)) {
            Ok(x) => x,
            Err(e) => {
                return Err(e);
            },
        };
        proof {
            lemma_progress_trans(before, s7, (*tuple.reader)@);
            parts = parts.push(g7@);
        }
        let ghost s8 = (*tuple.reader)@;
        let (v8, g8) = match read_tuple_field::<T9>(&mut tuple, 12, length, Ghost(m0), Ghost(parts)) {
            Ok(x) => x,
            Err(e) => {
                return Err(e);
            },
        };
        proof {
            lemma_progress_trans(before, s8, (*tuple.reader)@);
            parts = parts.push(g8@);
        }
        let ghost s9 = (*tuple.reader)@;
        let (v9, g9) = match read_tuple_field::<T10>(&mut tuple, 12, length, Ghost(m0), Ghost(parts)) {
            Ok(x) => x,
            Err(e) => {
                return Err(e);
            },
        };
        proof {
            lemma_progress_trans(before, s9, (*tuple.reader)@);
            parts = parts.push(g9@);
        }
        let ghost s10 = (*tuple.reader)@;
        let (v10, g10) = match read_tuple_field::<T11>(&mut tuple, 12, length, Ghost(m0), Ghost(parts)) {
            Ok(x) => x,
            Err(e) => {
                return Err(e);
            },
        };
        proof {
            lemma_progress_trans(before, s10, (*tuple.reader)@);
            parts = parts.push(g10@);
        }
        let ghost s11 = (*tuple.reader)@;
        let (v11, g11) = match read_tuple_field::<T12>(&mut tuple, 12, length, Ghost(m0), Ghost(parts)) {
            Ok(x) => x,
            Err(e) => {
                return Err(e);
            },
        };
        proof {
            lemma_progress_trans(before, s11, (*tuple.reader)@);
            parts = parts.push(g11@);
        }
        proof {
            let t = before.next_tag().unwrap().0;
            let head = seq![WriteEvent::Tag(t)];
            lemma_read_tag_event(before);
            let done = joined_events(parts);
            lemma_read_all_concat(before, head, m0, done, (*tuple.reader)@);
            assert((head + done).drop_first() =~= done);
            assert((head + done)[0] == WriteEvent::Tag(t));
            assert(parts == seq![g0@, g1@, g2@, g3@, g4@, g5@, g6@, g7@, g8@, g9@, g10@, g11@]);
            lemma_tuple_parts_12(parts, g0@, g1@, g2@, g3@, g4@, g5@, g6@, g7@, g8@, g9@, g10@, g11@, v0, v1, v2, v3, v4, v5, v6, v7, v8, v9, v10, v11);
            assert(<(T1, T2, T3, T4, T5, T6, T7, T8, T9, T10, T11, T12) as SmolRead>::decoded_from(head + done, (v0, v1, v2, v3, v4, v5, v6, v7, v8, v9, v10, v11)));
        }
        Ok((v0, v1, v2, v3, v4, v5, v6, v7, v8, v9, v10, v11))
    }
}

impl<T1: SmolWrite, T2: SmolWrite, T3: SmolWrite, T4: SmolWrite, T5: SmolWrite, T6: SmolWrite, T7: SmolWrite, T8: SmolWrite, T9: SmolWrite, T10: SmolWrite, T11: SmolWrite, T12: SmolWrite, T13: SmolWrite> SmolWrite for (T1, T2, T3, T4, T5, T6, T7, T8, T9, T10, T11, T12, T13) {
    open spec fn written_events(&self) -> Seq<WriteEvent> {
        seq![WriteEvent::Tag(TagModel::Tuple(13))] + self.0.written_events() + self.1.written_events() + self.2.written_events() + self.3.written_events() + self.4.written_events() + self.5.written_events() + self.6.written_events() + self.7.written_events() + self.8.written_events() + self.9.written_events() + self.10.written_events() + self.11.written_events() + self.12.written_events()
    }

    fn write(&self, writer: ValueWriter) -> (r: Result<(), WriteError>) {
        let ghost w0 = (*writer.writer)@;
        let mut tup = match writer.write_tuple(13) {
            Ok(t) => t,
            Err(e) => {
                return Err(e);
            },
        };
        let ghost mut done = seq![WriteEvent::Tag(TagModel::Tuple(13))];
        match self.0.write(tup.write_value()) {
            Ok(()) => {},
            Err(e) => {
                return Err(e);
            },
        }
        proof {
            lemma_write_events_concat(w0, done, self.0.written_events());
            done = done + self.0.written_events();
        }
        match self.1.write(tup.write_value()) {
            Ok(()) => {},
            Err(e) => {
                return Err(e);
            },
        }
        proof {
            lemma_write_events_concat(w0, done, self.1.written_events());
            done = done + self.1.written_events();
        }
        match self.2.write(tup.write_value()) {
            Ok(()) => {},
            Err(e) => {
                return Err(e);
            },
        }
        proof {
            lemma_write_events_concat(w0, done, self.2.written_events());
            done = done + self.2.written_events();
        }
        match self.3.write(tup.write_value()) {
            Ok(()) => {},
            Err(e) => {
                return Err(e);
            },
        }
        proof {
            lemma_write_events_concat(w0, done, self.3.written_events());
            done = done + self.3.written_events();
        }
        match self.4.write(tup.write_value()) {
            Ok(()) => {},
            Err(e) => {
                return Err(e);
            },
        }
        proof {
            lemma_write_events_concat(w0, done, self.4.written_events());
            done = done + self.4.written_events();
        }
        match self.5.write(tup.write_value()) {
            Ok(()) => {},
            Err(e) => {
                return Err(e);
            },
        }
        proof {
            lemma_write_events_concat(w0, done, self.5.written_events());
            done = done + self.5.written_events();
        }
        match self.6.write(tup.write_value()) {
            Ok(()) => {},
            Err(e) => {
                return Err(e);
            },
        }
        proof {
            lemma_write_events_concat(w0, done, self.6.written_events());
            done = done + self.6.written_events();
        }
        match self.7.write(tup.write_value()) {
            Ok(()) => {},
            Err(e) => {
                return Err(e);
            },
        }
        proof {
            lemma_write_events_concat(w0, done, self.7.written_events());
            done = done + self.7.written_events();
        }
        match self.8.write(tup.write_value()) {
            Ok(()) => {},
            Err(e) => {
                return Err(e);
            },
        }
        proof {
            lemma_write_events_concat(w0, done, self.8.written_events());
            done = done + self.8.written_events();
        }
        match self.9.write(tup.write_value()) {
            Ok(()) => {},
            Err(e) => {
                return Err(e);
            },
        }
        proof {
            lemma_write_events_concat(w0, done, self.9.written_events());
            done = done + self.9.written_events();
        }
        match self.10.write(tup.write_value()) {
            Ok(()) => {},
            Err(e) => {
                return Err(e);
            },
        }
        proof {
            lemma_write_events_concat(w0, done, self.10.written_events());
            done = done + self.10.written_events();
        }
        match self.11.write(tup.write_value()) {
            Ok(()) => {},
            Err(e) => {
                return Err(e);
            },
        }
        proof {
            lemma_write_events_concat(w0, done, self.11.written_events());
            done = done + self.11.written_events();
        }
        match self.12.write(tup.write_value()) {
            Ok(()) => {},
            Err(e) => {
                return Err(e);
            },
        }
        proof {
            lemma_write_events_concat(w0, done, self.12.written_events());
            done = done + self.12.written_events();
        }
        Ok(())
    }
}

impl<T1: SmolRead, T2: SmolRead, T3: SmolRead, T4: SmolRead, T5: SmolRead, T6: SmolRead, T7: SmolRead, T8: SmolRead, T9: SmolRead, T10: SmolRead, T11: SmolRead, T12: SmolRead, T13: SmolRead> SmolRead for (T1, T2, T3, T4, T5, T6, T7, T8, T9, T10, T11, T12, T13) {
    open spec fn decoded_from(es: Seq<WriteEvent>, v: Self) -> bool {
        es.len() > 0 && es[0] == WriteEvent::Tag(TagModel::Tuple(13)) && exists|parts: Seq<Seq<WriteEvent>>|
            #![trigger joined_events(parts)]
            parts.len() == 13 && es.drop_first() == joined_events(parts) && T1::decoded_from(parts[0], v.0) && T2::decoded_from(parts[1], v.1) && T3::decoded_from(parts[2], v.2) && T4::decoded_from(parts[3], v.3) && T5::decoded_from(parts[4], v.4) && T6::decoded_from(parts[5], v.5) && T7::decoded_from(parts[6], v.6) && T8::decoded_from(parts[7], v.7) && T9::decoded_from(parts[8], v.8) && T10::decoded_from(parts[9], v.9) && T11::decoded_from(parts[10], v.10) && T12::decoded_from(parts[11], v.11) && T13::decoded_from(parts[12], v.12)
    }

    fn read(reader: ValueReader) -> (r: ReadResult<Self>)
        ensures
            container_tag_read(
                (*old(reader.reader))@,
                r,
                |t: TagModel| t is Tuple,
                ValueTypeRequirement::Tuple,
                "tuple",
            ),
            (*old(reader.reader))@.next_tag() matches Ok((TagModel::Tuple(n), _)) ==> (n != 13 ==> (r matches Err(b)
                && *b == (ReadError::UnexpectedLength { expected: 13, got: n, type_label: "tuple" }))),
    {
        let ghost before = (*reader.reader)@;
        let reading = match reader.read() {
            Ok(x) => x,
            Err(e) => {
                return Err(e);
            },
        };
        proof {
            let t = before.next_tag().unwrap().0;
            lemma_fits_kind(&reading, t);
            lemma_next_tag_progress(before);
        }
        let found = reading.ty();
        let mut tuple = match reading {
            ValueReading::Tuple(t) => t,
            _ => {
                return Err(
                    Box::new(
                        ReadError::UnexpectedValueForType(
                            UnexpectedValueForTypeError {
                                expected: ValueTypeRequirement::Tuple,
                                found,
                                type_label: "tuple",
                            },
                        ),
                    ),
                );
            },
        };
        let length = tuple.remaining();
        if length != 13 {
            return Err(
                Box::new(ReadError::UnexpectedLength { expected: 13, got: length, type_label: "tuple" }),
            );
        }
        let ghost m0 = (*tuple.reader)@;
        let ghost mut parts: Seq<Seq<WriteEvent>> = Seq::empty();
        proof {
            assert(joined_events(parts) =~= Seq::<WriteEvent>::empty());
            assert(read_all(m0, joined_events(parts)) == Some((joined_events(parts), m0)));
            assert(progressed(before, m0));
        }
        let ghost s0 = (*tuple.reader)@;
        let (v0, g0) = match read_tuple_field::<T1>(&mut tuple, 13, length, Ghost(m0), Ghost(parts)) {
            Ok(x) => x,
            Err(e) => {
                return Err(e);
            },
        };
        proof {
            lemma_progress_trans(before, s0, (*tuple.reader)@);
            parts = parts.push(g0@);
        }
        let ghost s1 = (*tuple.reader)@;
        let (v1, g1) = match read_tuple_field::<T2>(&mut tuple, 13, length, Ghost(m0), Ghost(parts)) {
            Ok(x) => x,
            Err(e) => {
                return Err(e);
            },
        };
        proof {
            lemma_progress_trans(before, s1, (*tuple.reader)@);
            parts = parts.push(g1@);
        }
        let ghost s2 = (*tuple.reader)@;
        let (v2, g2) = match read_tuple_field::<T3>(&mut tuple, 13, length, Ghost(m0), Ghost(parts)) {
            Ok(x) => x,
            Err(e) => {
                return Err(e);
            },
        };
        proof {
            lemma_progress_trans(before, s2, (*tuple.reader)@);
            parts = parts.push(g2@);
        }
        let ghost s3 = (*tuple.reader)@;
        let (v3, g3) = match read_tuple_field::<T4>(&mut tuple, 13, length, Ghost(m0), Ghost(parts)) {
            Ok(x) => x,
            Err(e) => {
                return Err(e);
            },
        };
        proof {
            lemma_progress_trans(before, s3, (*tuple.reader)@);
            parts = parts.push(g3@);
        }
        let ghost s4 = (*tuple.reader)@;
        let (v4, g4) = match read_tuple_field::<T5>(&mut tuple, 13, length, Ghost(m0), Ghost(parts)) {
            Ok(x) => x,
            Err(e) => {
                return Err(e);
            },
        };
        proof {
            lemma_progress_trans(before, s4, (*tuple.reader)@);
            parts = parts.push(g4@);
        }
        let ghost s5 = (*tuple.reader)@;
        let (v5, g5) = match read_tuple_field::<T6>(&mut tuple, 13, length, Ghost(m0), Ghost(parts)) {
            Ok(x) => x,
            Err(e) => {
                return Err(e);
            },
        };
        proof {
            lemma_progress_trans(before, s5, (*tuple.reader)@);
            parts = parts.push(g5@);
        }
        let ghost s6 = (*tuple.reader)@;
        let (v6, g6) = match read_tuple_field::<T7>(&mut tuple, 13, length, Ghost(m0), Ghost(parts)) {
            Ok(x) => x,
            Err(e) => {
                return Err(e);
            },
        };
        proof {
            lemma_progress_trans(before, s6, (*tuple.reader)@);
            parts = parts.push(g6@);
        }
        let ghost s7 = (*tuple.reader)@;
        let (v7, g7) = match read_tuple_field::<T8>(&mut tuple, 13, length, Ghost(m0), Ghost(parts)) {
            Ok(x) => x,
            Err(e) => {
                return Err(e);
            },
        };
        proof {
            lemma_progress_trans(before, s7, (*tuple.reader)@);
            parts = parts.push(g7@);
        }
        let ghost s8 = (*tuple.reader)@;
        let (v8, g8) = match read_tuple_field::<T9>(&mut tuple, 13, length, Ghost(m0), Ghost(parts)) {
            Ok(x) => x,
            Err(e) => {
                return Err(e);
            },
        };
        proof {
            lemma_progress_trans(before, s8, (*tuple.reader)@);
            parts = parts.push(g8@);
        }
        let ghost s9 = (*tuple.reader)@;
        let (v9, g9) = match read_tuple_field::<T10>(&mut tuple, 13, length, Ghost(m0), Ghost(parts)) {
            Ok(x) => x,
            Err(e) => {
                return Err(e);
            },
        };
        proof {
            lemma_progress_trans(before, s9, (*tuple.reader)@);
            parts = parts.push(g9@);
        }
        let ghost s10 = (*tuple.reader)@;
        let (v10, g10) = match read_tuple_field::<T11>(&mut tuple, 13, length, Ghost(m0), Ghost(parts)) {
            Ok(x) => x,
            Err(e) => {
                return Err(e);
            },
        };
        proof {
            lemma_progress_trans(before, s10, (*tuple.reader)@);
            parts = parts.push(g10@);
        }
        let ghost s11 = (*tuple.reader)@;
        let (v11, g11) = match read_tuple_field::<T12>(&mut tuple, 13, length, Ghost(m0), Ghost(parts)) {
            Ok(x) => x,
            Err(e) => {
                return Err(e);
            },
        };
        proof {
            lemma_progress_trans(before, s11, (*tuple.reader)@);
            parts = parts.push(g11@);
        }
        let ghost s12 = (*tuple.reader)@;
        let (v12, g12) = match read_tuple_field::<T13>(&mut tuple, 13, length, Ghost(m0), Ghost(parts)) {
            Ok(x) => x,
            Err(e) => {
                return Err(e);
            },
        };
        proof {
            lemma_progress_trans(before, s12, (*tuple.reader)@);
            parts = parts.push(g12@);
        }
        proof {
            let t = before.next_tag().unwrap().0;
            let head = seq![WriteEvent::Tag(t)];
            lemma_read_tag_event(before);
            let done = joined_events(parts);
            lemma_read_all_concat(before, head, m0, done, (*tuple.reader)@);
            assert((head + done).drop_first() =~= done);
            assert((head + done)[0] == WriteEvent::Tag(t));
            assert(parts == seq![g0@, g1@, g2@, g3@, g4@, g5@, g6@, g7@, g8@, g9@, g10@, g11@, g12@]);
            lemma_tuple_parts_13(parts, g0@, g1@, g2@, g3@, g4@, g5@, g6@, g7@, g8@, g9@, g10@, g11@, g12@, v0, v1, v2, v3, v4, v5, v6, v7, v8, v9, v10, v11, v12);
            assert(<(T1, T2, T3, T4, T5, T6, T7, T8, T9, T10, T11, T12, T13) as SmolRead>::decoded_from(head + done, (v0, v1, v2, v3, v4, v5, v6, v7, v8, v9, v10, v11, v12)));
        }
        Ok((v0, v1, v2, v3, v4, v5, v6, v7, v8, v9, v10, v11, v12))
    }
}

impl<T1: SmolWrite, T2: SmolWrite, T3: SmolWrite, T4: SmolWrite, T5: SmolWrite, T6: SmolWrite, T7: SmolWrite, T8: SmolWrite, T9: SmolWrite, T10: SmolWrite, T11: SmolWrite, T12: SmolWrite, T13: SmolWrite, T14: SmolWrite> SmolWrite for (T1, T2, T3, T4, T5, T6, T7, T8, T9, T10, T11, T12, T13, T14) {
    open spec fn written_events(&self) -> Seq<WriteEvent> {
        seq![WriteEvent::Tag(TagModel::Tuple(14))] + self.0.written_events() + self.1.written_events() + self.2.written_events() + self.3.written_events() + self.4.written_events() + self.5.written_events() + self.6.written_events() + self.7.written_events() + self.8.written_events() + self.9.written_events() + self.10.written_events() + self.11.written_events() + self.12.written_events() + self.13.written_events()
    }

    fn write(&self, writer: ValueWriter) -> (r: Result<(), WriteError>) {
        let ghost w0 = (*writer.writer)@;
        let mut tup = match writer.write_tuple(14) {
            Ok(t) => t,
            Err(e) => {
                return Err(e);
            },
        };
        let ghost mut done = seq![WriteEvent::Tag(TagModel::Tuple(14))];
        match self.0.write(tup.write_value()) {
            Ok(()) => {},
            Err(e) => {
                return Err(e);
            },
        }
        proof {
            lemma_write_events_concat(w0, done, self.0.written_events());
            done = done + self.0.written_events();
        }
        match self.1.write(tup.write_value()) {
            Ok(()) => {},
            Err(e) => {
                return Err(e);
            },
        }
        proof {
            lemma_write_events_concat(w0, done, self.1.written_events());
            done = done + self.1.written_events();
        }
        match self.2.write(tup.write_value()) {
            Ok(()) => {},
            Err(e) => {
                return Err(e);
            },
        }
        proof {
            lemma_write_events_concat(w0, done, self.2.written_events());
            done = done + self.2.written_events();
        }
        match self.3.write(tup.write_value()) {
            Ok(()) => {},
            Err(e) => {
                return Err(e);
            },
        }
        proof {
            lemma_write_events_concat(w0, done, self.3.written_events());
            done = done + self.3.written_events();
        }
        match self.4.write(tup.write_value()) {
            Ok(()) => {},
            Err(e) => {
                return Err(e);
            },
        }
        proof {
            lemma_write_events_concat(w0, done, self.4.written_events());
            done = done + self.4.written_events();
        }
        match self.5.write(tup.write_value()) {
            Ok(()) => {},
            Err(e) => {
                return Err(e);
            },
        }
        proof {
            lemma_write_events_concat(w0, done, self.5.written_events());
            done = done + self.5.written_events();
        }
        match self.6.write(tup.write_value()) {
            Ok(()) => {},
            Err(e) => {
                return Err(e);
            },
        }
        proof {
            lemma_write_events_concat(w0, done, self.6.written_events());
            done = done + self.6.written_events();
        }
        match self.7.write(tup.write_value()) {
            Ok(()) => {},
            Err(e) => {
                return Err(e);
            },
        }
        proof {
            lemma_write_events_concat(w0, done, self.7.written_events());
            done = done + self.7.written_events();
        }
        match self.8.write(tup.write_value()) {
            Ok(()) => {},
            Err(e) => {
                return Err(e);
            },
        }
        proof {
            lemma_write_events_concat(w0, done, self.8.written_events());
            done = done + self.8.written_events();
        }
        match self.9.write(tup.write_value()) {
            Ok(()) => {},
            Err(e) => {
                return Err(e);
            },
        }
        proof {
            lemma_write_events_concat(w0, done, self.9.written_events());
            done = done + self.9.written_events();
        }
        match self.10.write(tup.write_value()) {
            Ok(()) => {},
            Err(e) => {
                return Err(e);
            },
        }
        proof {
            lemma_write_events_concat(w0, done, self.10.written_events());
            done = done + self.10.written_events();
        }
        match self.11.write(tup.write_value()) {
            Ok(()) => {},
            Err(e) => {
                return Err(e);
            },
        }
        proof {
            lemma_write_events_concat(w0, done, self.11.written_events());
            done = done + self.11.written_events();
        }
        match self.12.write(tup.write_value()) {
            Ok(()) => {},
            Err(e) => {
                return Err(e);
            },
        }
        proof {
            lemma_write_events_concat(w0, done, self.12.written_events());
            done = done + self.12.written_events();
        }
        match self.13.write(tup.write_value()) {
            Ok(()) => {},
            Err(e) => {
                return Err(e);
            },
        }
        proof {
            lemma_write_events_concat(w0, done, self.13.written_events());
            done = done + self.13.written_events();
        }
        Ok(())
    }
}

impl<T1: SmolRead, T2: SmolRead, T3: SmolRead, T4: SmolRead, T5: SmolRead, T6: SmolRead, T7: SmolRead, T8: SmolRead, T9: SmolRead, T10: SmolRead, T11: SmolRead, T12: SmolRead, T13: SmolRead, T14: SmolRead> SmolRead for (T1, T2, T3, T4, T5, T6, T7, T8, T9, T10, T11, T12, T13, T14) {
    open spec fn decoded_from(es: Seq<WriteEvent>, v: Self) -> bool {
        es.len() > 0 && es[0] == WriteEvent::Tag(TagModel::Tuple(14)) && exists|parts: Seq<Seq<WriteEvent>>|
            #![trigger joined_events(parts)]
            parts.len() == 14 && es.drop_first() == joined_events(parts) && T1::decoded_from(parts[0], v.0) && T2::decoded_from(parts[1], v.1) && T3::decoded_from(parts[2], v.2) && T4::decoded_from(parts[3], v.3) && T5::decoded_from(parts[4], v.4) && T6::decoded_from(parts[5], v.5) && T7::decoded_from(parts[6], v.6) && T8::decoded_from(parts[7], v.7) && T9::decoded_from(parts[8], v.8) && T10::decoded_from(parts[9], v.9) && T11::decoded_from(parts[10], v.10) && T12::decoded_from(parts[11], v.11) && T13::decoded_from(parts[12], v.12) && T14::decoded_from(parts[13], v.13)
    }

    fn read(reader: ValueReader) -> (r: ReadResult<Self>)
        ensures
            container_tag_read(
                (*old(reader.reader))@,
                r,
                |t: TagModel| t is Tuple,
                ValueTypeRequirement::Tuple,
                "tuple",
            ),
            (*old(reader.reader))@.next_tag() matches Ok((TagModel::Tuple(n), _)) ==> (n != 14 ==> (r matches Err(b)
                && *b == (ReadError::UnexpectedLength { expected: 14, got: n, type_label: "tuple" }))),
    {
        let ghost before = (*reader.reader)@;
        let reading = match reader.read() {
            Ok(x) => x,
            Err(e) => {
                return Err(e);
            },
        };
        proof {
            let t = before.next_tag().unwrap().0;
            lemma_fits_kind(&reading, t);
            lemma_next_tag_progress(before);
        }
        let found = reading.ty();
        let mut tuple = match reading {
            ValueReading::Tuple(t) => t,
            _ => {
                return Err(
                    Box::new(
                        ReadError::UnexpectedValueForType(
                            UnexpectedValueForTypeError {
                                expected: ValueTypeRequirement::Tuple,
                                found,
                                type_label: "tuple",
                            },
                        ),
                    ),
                );
            },
        };
        let length = tuple.remaining();
        if length != 14 {
            return Err(
                Box::new(ReadError::UnexpectedLength { expected: 14, got: length, type_label: "tuple" }),
            );
        }
        let ghost m0 = (*tuple.reader)@;
        let ghost mut parts: Seq<Seq<WriteEvent>> = Seq::empty();
        proof {
            assert(joined_events(parts) =~= Seq::<WriteEvent>::empty());
            assert(read_all(m0, joined_events(parts)) == Some((joined_events(parts), m0)));
            assert(progressed(before, m0));
        }
        let ghost s0 = (*tuple.reader)@;
        let (v0, g0) = match read_tuple_field::<T1>(&mut tuple, 14, length, Ghost(m0), Ghost(parts)) {
            Ok(x) => x,
            Err(e) => {
                return Err(e);
            },
        };
        proof {
            lemma_progress_trans(before, s0, (*tuple.reader)@);
            parts = parts.push(g0@);
        }
        let ghost s1 = (*tuple.reader)@;
        let (v1, g1) = match read_tuple_field::<T2>(&mut tuple, 14, length, Ghost(m0), Ghost(parts)) {
            Ok(x) => x,
            Err(e) => {
                return Err(e);
            },
        };
        proof {
            lemma_progress_trans(before, s1, (*tuple.reader)@);
            parts = parts.push(g1@);
        }
        let ghost s2 = (*tuple.reader)@;
        let (v2, g2) = match read_tuple_field::<T3>(&mut tuple, 14, length, Ghost(m0), Ghost(parts)) {
            Ok(x) => x,
            Err(e) => {
                return Err(e);
            },
        };
        proof {
            lemma_progress_trans(before, s2, (*tuple.reader)@);
            parts = parts.push(g2@);
        }
        let ghost s3 = (*tuple.reader)@;
        let (v3, g3) = match read_tuple_field::<T4>(&mut tuple, 14, length, Ghost(m0), Ghost(parts)) {
            Ok(x) => x,
            Err(e) => {
                return Err(e);
            },
        };
        proof {
            lemma_progress_trans(before, s3, (*tuple.reader)@);
            parts = parts.push(g3@);
        }
        let ghost s4 = (*tuple.reader)@;
        let (v4, g4) = match read_tuple_field::<T5>(&mut tuple, 14, length, Ghost(m0), Ghost(parts)) {
            Ok(x) => x,
            Err(e) => {
                return Err(e);
            },
        };
        proof {
            lemma_progress_trans(before, s4, (*tuple.reader)@);
            parts = parts.push(g4@);
        }
        let ghost s5 = (*tuple.reader)@;
        let (v5, g5) = match read_tuple_field::<T6>(&mut tuple, 14, length, Ghost(m0), Ghost(parts)) {
            Ok(x) => x,
            Err(e) => {
                return Err(e);
            },
        };
        proof {
            lemma_progress_trans(before, s5, (*tuple.reader)@);
            parts = parts.push(g5@);
        }
        let ghost s6 = (*tuple.reader)@;
        let (v6, g6) = match read_tuple_field::<T7>(&mut tuple, 14, length, Ghost(m0), Ghost(parts)) {
            Ok(x) => x,
            Err(e) => {
                return Err(e);
            },
        };
        proof {
            lemma_progress_trans(before, s6, (*tuple.reader)@);
            parts = parts.push(g6@);
        }
        let ghost s7 = (*tuple.reader)@;
        let (v7, g7) = match read_tuple_field::<T8>(&mut tuple, 14, length, Ghost(m0), Ghost(parts)) {
            Ok(x) => x,
            Err(e) => {
                return Err(e);
            },
        };
        proof {
            lemma_progress_trans(before, s7, (*tuple.reader)@);
            parts = parts.push(g7@);
        }
        let ghost s8 = (*tuple.reader)@;
        let (v8, g8) = match read_tuple_field::<T9>(&mut tuple, 14, length, Ghost(m0), Ghost(parts)) {
            Ok(x) => x,
            Err(e) => {
                return Err(e);
            },
        };
        proof {
            lemma_progress_trans(before, s8, (*tuple.reader)@);
            parts = parts.push(g8@);
        }
        let ghost s9 = (*tuple.reader)@;
        let (v9, g9) = match read_tuple_field::<T10>(&mut tuple, 14, length, Ghost(m0), Ghost(parts)) {
            Ok(x) => x,
            Err(e) => {
                return Err(e);
            },
        };
        proof {
            lemma_progress_trans(before, s9, (*tuple.reader)@);
            parts = parts.push(g9@);
        }
        let ghost s10 = (*tuple.reader)@;
        let (v10, g10) = match read_tuple_field::<T11>(&mut tuple, 14, length, Ghost(m0), Ghost(parts)) {
            Ok(x) => x,
            Err(e) => {
                return Err(e);
            },
        };
        proof {
            lemma_progress_trans(before, s10, (*tuple.reader)@);
            parts = parts.push(g10@);
        }
        let ghost s11 = (*tuple.reader)@;
        let (v11, g11) = match read_tuple_field::<T12>(&mut tuple, 14, length, Ghost(m0), Ghost(parts)) {
            Ok(x) => x,
            Err(e) => {
                return Err(e);
            },
        };
        proof {
            lemma_progress_trans(before, s11, (*tuple.reader)@);
            parts = parts.push(g11@);
        }
        let ghost s12 = (*tuple.reader)@;
        let (v12, g12) = match read_tuple_field::<T13>(&mut tuple, 14, length, Ghost(m0), Ghost(parts)) {
            Ok(x) => x,
            Err(e) => {
                return Err(e);
            },
        };
        proof {
            lemma_progress_trans(before, s12, (*tuple.reader)@);
            parts = parts.push(g12@);
        }
        let ghost s13 = (*tuple.reader)@;
        let (v13, g13) = match read_tuple_field::<T14>(&mut tuple, 14, length, Ghost(m0), Ghost(parts)) {
            Ok(x) => x,
            Err(e) => {
                return Err(e);
            },
        };
        proof {
            lemma_progress_trans(before, s13, (*tuple.reader)@);
            parts = parts.push(g13@);
        }
        proof {
            let t = before.next_tag().unwrap().0;
            let head = seq![WriteEvent::Tag(t)];
            lemma_read_tag_event(before);
            let done = joined_events(parts);
            lemma_read_all_concat(before, head, m0, done, (*tuple.reader)@);
            assert((head + done).drop_first() =~= done);
            assert((head + done)[0] == WriteEvent::Tag(t));
            assert(parts == seq![g0@, g1@, g2@, g3@, g4@, g5@, g6@, g7@, g8@, g9@, g10@, g11@, g12@, g13@]);
            lemma_tuple_parts_14(parts, g0@, g1@, g2@, g3@, g4@, g5@, g6@, g7@, g8@, g9@, g10@, g11@, g12@, g13@, v0, v1, v2, v3, v4, v5, v6, v7, v8, v9, v10, v11, v12, v13);
            assert(<(T1, T2, T3, T4, T5, T6, T7, T8, T9, T10, T11, T12, T13, T14) as SmolRead>::decoded_from(head + done, (v0, v1, v2, v3, v4, v5, v6, v7, v8, v9, v10, v11, v12, v13)));
        }
        Ok((v0, v1, v2, v3, v4, v5, v6, v7, v8, v9, v10, v11, v12, v13))
    }
}

impl<T1: SmolWrite, T2: SmolWrite, T3: SmolWrite, T4: SmolWrite, T5: SmolWrite, T6: SmolWrite, T7: SmolWrite, T8: SmolWrite, T9: SmolWrite, T10: SmolWrite, T11: SmolWrite, T12: SmolWrite, T13: SmolWrite, T14: SmolWrite, T15: SmolWrite> SmolWrite for (T1, T2, T3, T4, T5, T6, T7, T8, T9, T10, T11, T12, T13, T14, T15) {
    open spec fn written_events(&self) -> Seq<WriteEvent> {
        seq![WriteEvent::Tag(TagModel::Tuple(15))] + self.0.written_events() + self.1.written_events() + self.2.written_events() + self.3.written_events() + self.4.written_events() + self.5.written_events() + self.6.written_events() + self.7.written_events() + self.8.written_events() + self.9.written_events() + self.10.written_events() + self.11.written_events() + self.12.written_events() + self.13.written_events() + self.14.written_events()
    }

    fn write(&self, writer: ValueWriter) -> (r: Result<(), WriteError>) {
        let ghost w0 = (*writer.writer)@;
        let mut tup = match writer.write_tuple(15) {
            Ok(t) => t,
            Err(e) => {
                return Err(e);
            },
        };
        let ghost mut done = seq![WriteEvent::Tag(TagModel::Tuple(15))];
        match self.0.write(tup.write_value()) {
            Ok(()) => {},
            Err(e) => {
                return Err(e);
            },
        }
        proof {
            lemma_write_events_concat(w0, done, self.0.written_events());
            done = done + self.0.written_events();
        }
        match self.1.write(tup.write_value()) {
            Ok(()) => {},
            Err(e) => {
                return Err(e);
            },
        }
        proof {
            lemma_write_events_concat(w0, done, self.1.written_events());
            done = done + self.1.written_events();
        }
        match self.2.write(tup.write_value()) {
            Ok(()) => {},
            Err(e) => {
                return Err(e);
            },
        }
        proof {
            lemma_write_events_concat(w0, done, self.2.written_events());
            done = done + self.2.written_events();
        }
        match self.3.write(tup.write_value()) {
            Ok(()) => {},
            Err(e) => {
                return Err(e);
            },
        }
        proof {
            lemma_write_events_concat(w0, done, self.3.written_events());
            done = done + self.3.written_events();
        }
        match self.4.write(tup.write_value()) {
            Ok(()) => {},
            Err(e) => {
                return Err(e);
            },
        }
        proof {
            lemma_write_events_concat(w0, done, self.4.written_events());
            done = done + self.4.written_events();
        }
        match self.5.write(tup.write_value()) {
            Ok(()) => {},
            Err(e) => {
                return Err(e);
            },
        }
        proof {
            lemma_write_events_concat(w0, done, self.5.written_events());
            done = done + self.5.written_events();
        }
        match self.6.write(tup.write_value()) {
            Ok(()) => {},
            Err(e) => {
                return Err(e);
            },
        }
        proof {
            lemma_write_events_concat(w0, done, self.6.written_events());
            done = done + self.6.written_events();
        }
        match self.7.write(tup.write_value()) {
            Ok(()) => {},
            Err(e) => {
                return Err(e);
            },
        }
        proof {
            lemma_write_events_concat(w0, done, self.7.written_events());
            done = done + self.7.written_events();
        }
        match self.8.write(tup.write_value()) {
            Ok(()) => {},
            Err(e) => {
                return Err(e);
            },
        }
        proof {
            lemma_write_events_concat(w0, done, self.8.written_events());
            done = done + self.8.written_events();
        }
        match self.9.write(tup.write_value()) {
            Ok(()) => {},
            Err(e) => {
                return Err(e);
            },
        }
        proof {
            lemma_write_events_concat(w0, done, self.9.written_events());
            done = done + self.9.written_events();
        }
        match self.10.write(tup.write_value()) {
            Ok(()) => {},
            Err(e) => {
                return Err(e);
            },
        }
        proof {
            lemma_write_events_concat(w0, done, self.10.written_events());
            done = done + self.10.written_events();
        }
        match self.11.write(tup.write_value()) {
            Ok(()) => {},
            Err(e) => {
                return Err(e);
            },
        }
        proof {
            lemma_write_events_concat(w0, done, self.11.written_events());
            done = done + self.11.written_events();
        }
        match self.12.write(tup.write_value()) {
            Ok(()) => {},
            Err(e) => {
                return Err(e);
            },
        }
        proof {
            lemma_write_events_concat(w0, done, self.12.written_events());
            done = done + self.12.written_events();
        }
        match self.13.write(tup.write_value()) {
            Ok(()) => {},
            Err(e) => {
                return Err(e);
            },
        }
        proof {
            lemma_write_events_concat(w0, done, self.13.written_events());
            done = done + self.13.written_events();
        }
        match self.14.write(tup.write_value()) {
            Ok(()) => {},
            Err(e) => {
                return Err(e);
            },
        }
        proof {
            lemma_write_events_concat(w0, done, self.14.written_events());
            done = done + self.14.written_events();
        }
        Ok(())
    }
}

impl<T1: SmolRead, T2: SmolRead, T3: SmolRead, T4: SmolRead, T5: SmolRead, T6: SmolRead, T7: SmolRead, T8: SmolRead, T9: SmolRead, T10: SmolRead, T11: SmolRead, T12: SmolRead, T13: SmolRead, T14: SmolRead, T15: SmolRead> SmolRead for (T1, T2, T3, T4, T5, T6, T7, T8, T9, T10, T11, T12, T13, T14, T15) {
    open spec fn decoded_from(es: Seq<WriteEvent>, v: Self) -> bool {
        es.len() > 0 && es[0] == WriteEvent::Tag(TagModel::Tuple(15)) && exists|parts: Seq<Seq<WriteEvent>>|
            #![trigger joined_events(parts)]
            parts.len() == 15 && es.drop_first() == joined_events(parts) && T1::decoded_from(parts[0], v.0) && T2::decoded_from(parts[1], v.1) && T3::decoded_from(parts[2], v.2) && T4::decoded_from(parts[3], v.3) && T5::decoded_from(parts[4], v.4) && T6::decoded_from(parts[5], v.5) && T7::decoded_from(parts[6], v.6) && T8::decoded_from(parts[7], v.7) && T9::decoded_from(parts[8], v.8) && T10::decoded_from(parts[9], v.9) && T11::decoded_from(parts[10], v.10) && T12::decoded_from(parts[11], v.11) && T13::decoded_from(parts[12], v.12) && T14::decoded_from(parts[13], v.13) && T15::decoded_from(parts[14], v.14)
    }

    fn read(reader: ValueReader) -> (r: ReadResult<Self>)
        ensures
            container_tag_read(
                (*old(reader.reader))@,
                r,
                |t: TagModel| t is Tuple,
                ValueTypeRequirement::Tuple,
                "tuple",
            ),
            (*old(reader.reader))@.next_tag() matches Ok((TagModel::Tuple(n), _)) ==> (n != 15 ==> (r matches Err(b)
                && *b == (ReadError::UnexpectedLength { expected: 15, got: n, type_label: "tuple" }))),
    {
        let ghost before = (*reader.reader)@;
        let reading = match reader.read() {
            Ok(x) => x,
            Err(e) => {
                return Err(e);
            },
        };
        proof {
            let t = before.next_tag().unwrap().0;
            lemma_fits_kind(&reading, t);
            lemma_next_tag_progress(before);
        }
        let found = reading.ty();
        let mut tuple = match reading {
            ValueReading::Tuple(t) => t,
            _ => {
                return Err(
                    Box::new(
                        ReadError::UnexpectedValueForType(
                            UnexpectedValueForTypeError {
                                expected: ValueTypeRequirement::Tuple,
                                found,
                                type_label: "tuple",
                            },
                        ),
                    ),
                );
            },
        };
        let length = tuple.remaining();
        if length != 15 {
            return Err(
                Box::new(ReadError::UnexpectedLength { expected: 15, got: length, type_label: "tuple" }),
            );
        }
        let ghost m0 = (*tuple.reader)@;
        let ghost mut parts: Seq<Seq<WriteEvent>> = Seq::empty();
        proof {
            assert(joined_events(parts) =~= Seq::<WriteEvent>::empty());
            assert(read_all(m0, joined_events(parts)) == Some((joined_events(parts), m0)));
            assert(progressed(before, m0));
        }
        let ghost s0 = (*tuple.reader)@;
        let (v0, g0) = match read_tuple_field::<T1>(&mut tuple, 15, length, Ghost(m0), Ghost(parts)) {
            Ok(x) => x,
            Err(e) => {
                return Err(e);
            },
        };
        proof {
            lemma_progress_trans(before, s0, (*tuple.reader)@);
            parts = parts.push(g0@);
        }
        let ghost s1 = (*tuple.reader)@;
        let (v1, g1) = match read_tuple_field::<T2>(&mut tuple, 15, length, Ghost(m0), Ghost(parts)) {
            Ok(x) => x,
            Err(e) => {
                return Err(e);
            },
        };
        proof {
            lemma_progress_trans(before, s1, (*tuple.reader)@);
            parts = parts.push(g1@);
        }
        let ghost s2 = (*tuple.reader)@;
        let (v2, g2) = match read_tuple_field::<T3>(&mut tuple, 15, length, Ghost(m0), Ghost(parts)) {
            Ok(x) => x,
            Err(e) => {
                return Err(e);
            },
        };
        proof {
            lemma_progress_trans(before, s2, (*tuple.reader)@);
            parts = parts.push(g2@);
        }
        let ghost s3 = (*tuple.reader)@;
        let (v3, g3) = match read_tuple_field::<T4>(&mut tuple, 15, length, Ghost(m0), Ghost(parts)) {
            Ok(x) => x,
            Err(e) => {
                return Err(e);
            },
        };
        proof {
            lemma_progress_trans(before, s3, (*tuple.reader)@);
            parts = parts.push(g3@);
        }
        let ghost s4 = (*tuple.reader)@;
        let (v4, g4) = match read_tuple_field::<T5>(&mut tuple, 15, length, Ghost(m0), Ghost(parts)) {
            Ok(x) => x,
            Err(e) => {
                return Err(e);
            },
        };
        proof {
            lemma_progress_trans(before, s4, (*tuple.reader)@);
            parts = parts.push(g4@);
        }
        let ghost s5 = (*tuple.reader)@;
        let (v5, g5) = match read_tuple_field::<T6>(&mut tuple, 15, length, Ghost(m0), Ghost(parts)) {
            Ok(x) => x,
            Err(e) => {
                return Err(e);
            },
        };
        proof {
            lemma_progress_trans(before, s5, (*tuple.reader)@);
            parts = parts.push(g5@);
        }
        let ghost s6 = (*tuple.reader)@;
        let (v6, g6) = match read_tuple_field::<T7>(&mut tuple, 15, length, Ghost(m0), Ghost(parts)) {
            Ok(x) => x,
            Err(e) => {
                return Err(e);
            },
        };
        proof {
            lemma_progress_trans(before, s6, (*tuple.reader)@);
            parts = parts.push(g6@);
        }
        let ghost s7 = (*tuple.reader)@;
        let (v7, g7) = match read_tuple_field::<T8>(&mut tuple, 15, length, Ghost(m0), Ghost(parts)) {
            Ok(x) => x,
            Err(e) => {
                return Err(e);
            },
        };
        proof {
            lemma_progress_trans(before, s7, (*tuple.reader)@);
            parts = parts.push(g7@);
        }
        let ghost s8 = (*tuple.reader)@;
        let (v8, g8) = match read_tuple_field::<T9>(&mut tuple, 15, length, Ghost(m0), Ghost(parts)) {
            Ok(x) => x,
            Err(e) => {
                return Err(e);
            },
        };
        proof {
            lemma_progress_trans(before, s8, (*tuple.reader)@);
            parts = parts.push(g8@);
        }
        let ghost s9 = (*tuple.reader)@;
        let (v9, g9) = match read_tuple_field::<T10>(&mut tuple, 15, length, Ghost(m0), Ghost(parts)) {
            Ok(x) => x,
            Err(e) => {
                return Err(e);
            },
        };
        proof {
            lemma_progress_trans(before, s9, (*tuple.reader)@);
            parts = parts.push(g9@);
        }
        let ghost s10 = (*tuple.reader)@;
        let (v10, g10) = match read_tuple_field::<T11>(&mut tuple, 15, length, Ghost(m0), Ghost(parts)) {
            Ok(x) => x,
            Err(e) => {
                return Err(e);
            },
        };
        proof {
            lemma_progress_trans(before, s10, (*tuple.reader)@);
            parts = parts.push(g10@);
        }
        let ghost s11 = (*tuple.reader)@;
        let (v11, g11) = match read_tuple_field::<T12>(&mut tuple, 15, length, Ghost(m0), Ghost(parts)) {
            Ok(x) => x,
            Err(e) => {
                return Err(e);
            },
        };
        proof {
            lemma_progress_trans(before, s11, (*tuple.reader)@);
            parts = parts.push(g11@);
        }
        let ghost s12 = (*tuple.reader)@;
        let (v12, g12) = match read_tuple_field::<T13>(&mut tuple, 15, length, Ghost(m0), Ghost(parts)) {
            Ok(x) => x,
            Err(e) => {
                return Err(e);
            },
        };
        proof {
            lemma_progress_trans(before, s12, (*tuple.reader)@);
            parts = parts.push(g12@);
        }
        let ghost s13 = (*tuple.reader)@;
        let (v13, g13) = match read_tuple_field::<T14>(&mut tuple, 15, length, Ghost(m0), Ghost(parts)) {
            Ok(x) => x,
            Err(e) => {
                return Err(e);
            },
        };
        proof {
            lemma_progress_trans(before, s13, (*tuple.reader)@);
            parts = parts.push(g13@);
        }
        let ghost s14 = (*tuple.reader)@;
        let (v14, g14) = match read_tuple_field::<T15>(&mut tuple, 15, length, Ghost(m0), Ghost(parts)) {
            Ok(x) => x,
            Err(e) => {
                return Err(e);
            },
        };
        proof {
            lemma_progress_trans(before, s14, (*tuple.reader)@);
            parts = parts.push(g14@);
        }
        proof {
            let t = before.next_tag().unwrap().0;
            let head = seq![WriteEvent::Tag(t)];
            lemma_read_tag_event(before);
            let done = joined_events(parts);
            lemma_read_all_concat(before, head, m0, done, (*tuple.reader)@);
            assert((head + done).drop_first() =~= done);
            assert((head + done)[0] == WriteEvent::Tag(t));
            assert(parts == seq![g0@, g1@, g2@, g3@, g4@, g5@, g6@, g7@, g8@, g9@, g10@, g11@, g12@, g13@, g14@]);
            lemma_tuple_parts_15(parts, g0@, g1@, g2@, g3@, g4@, g5@, g6@, g7@, g8@, g9@, g10@, g11@, g12@, g13@, g14@, v0, v1, v2, v3, v4, v5, v6, v7, v8, v9, v10, v11, v12, v13, v14);
            assert(<(T1, T2, T3, T4, T5, T6, T7, T8, T9, T10, T11, T12, T13, T14, T15) as SmolRead>::decoded_from(head + done, (v0, v1, v2, v3, v4, v5, v6, v7, v8, v9, v10, v11, v12, v13, v14)));
        }
        Ok((v0, v1, v2, v3, v4, v5, v6, v7, v8, v9, v10, v11, v12, v13, v14))
    }
}

impl<T1: SmolWrite, T2: SmolWrite, T3: SmolWrite, T4: SmolWrite, T5: SmolWrite, T6: SmolWrite, T7: SmolWrite, T8: SmolWrite, T9: SmolWrite, T10: SmolWrite, T11: SmolWrite, T12: SmolWrite, T13: SmolWrite, T14: SmolWrite, T15: SmolWrite, T16: SmolWrite> SmolWrite for (T1, T2, T3, T4, T5, T6, T7, T8, T9, T10, T11, T12, T13, T14, T15, T16) {
    open spec fn written_events(&self) -> Seq<WriteEvent> {
        seq![WriteEvent::Tag(TagModel::Tuple(16))] + self.0.written_events() + self.1.written_events() + self.2.written_events() + self.3.written_events() + self.4.written_events() + self.5.written_events() + self.6.written_events() + self.7.written_events() + self.8.written_events() + self.9.written_events() + self.10.written_events() + self.11.written_events() + self.12.written_events() + self.13.written_events() + self.14.written_events() + self.15.written_events()
    }

    fn write(&self, writer: ValueWriter) -> (r: Result<(), WriteError>) {
        let ghost w0 = (*writer.writer)@;
        let mut tup = match writer.write_tuple(16) {
            Ok(t) => t,
            Err(e) => {
                return Err(e);
            },
        };
        let ghost mut done = seq![WriteEvent::Tag(TagModel::Tuple(16))];
        match self.0.write(tup.write_value()) {
            Ok(()) => {},
            Err(e) => {
                return Err(e);
            },
        }
        proof {
            lemma_write_events_concat(w0, done, self.0.written_events());
            done = done + self.0.written_events();
        }
        match self.1.write(tup.write_value()) {
            Ok(()) => {},
            Err(e) => {
                return Err(e);
            },
        }
        proof {
            lemma_write_events_concat(w0, done, self.1.written_events());
            done = done + self.1.written_events();
        }
        match self.2.write(tup.write_value()) {
            Ok(()) => {},
            Err(e) => {
                return Err(e);
            },
        }
        proof {
            lemma_write_events_concat(w0, done, self.2.written_events());
            done = done + self.2.written_events();
        }
        match self.3.write(tup.write_value()) {
            Ok(()) => {},
            Err(e) => {
                return Err(e);
            },
        }
        proof {
            lemma_write_events_concat(w0, done, self.3.written_events());
            done = done + self.3.written_events();
        }
        match self.4.write(tup.write_value()) {
            Ok(()) => {},
            Err(e) => {
                return Err(e);
            },
        }
        proof {
            lemma_write_events_concat(w0, done, self.4.written_events());
            done = done + self.4.written_events();
        }
        match self.5.write(tup.write_value()) {
            Ok(()) => {},
            Err(e) => {
                return Err(e);
            },
        }
        proof {
            lemma_write_events_concat(w0, done, self.5.written_events());
            done = done + self.5.written_events();
        }
        match self.6.write(tup.write_value()) {
            Ok(()) => {},
            Err(e) => {
                return Err(e);
            },
        }
        proof {
            lemma_write_events_concat(w0, done, self.6.written_events());
            done = done + self.6.written_events();
        }
        match self.7.write(tup.write_value()) {
            Ok(()) => {},
            Err(e) => {
                return Err(e);
            },
        }
        proof {
            lemma_write_events_concat(w0, done, self.7.written_events());
            done = done + self.7.written_events();
        }
        match self.8.write(tup.write_value()) {
            Ok(()) => {},
            Err(e) => {
                return Err(e);
            },
        }
        proof {
            lemma_write_events_concat(w0, done, self.8.written_events());
            done = done + self.8.written_events();
        }
        match self.9.write(tup.write_value()) {
            Ok(()) => {},
            Err(e) => {
                return Err(e);
            },
        }
        proof {
            lemma_write_events_concat(w0, done, self.9.written_events());
            done = done + self.9.written_events();
        }
        match self.10.write(tup.write_value()) {
            Ok(()) => {},
            Err(e) => {
                return Err(e);
            },
        }
        proof {
            lemma_write_events_concat(w0, done, self.10.written_events());
            done = done + self.10.written_events();
        }
        match self.11.write(tup.write_value()) {
            Ok(()) => {},
            Err(e) => {
                return Err(e);
            },
        }
        proof {
            lemma_write_events_concat(w0, done, self.11.written_events());
            done = done + self.11.written_events();
        }
        match self.12.write(tup.write_value()) {
            Ok(()) => {},
            Err(e) => {
                return Err(e);
            },
        }
        proof {
            lemma_write_events_concat(w0, done, self.12.written_events());
            done = done + self.12.written_events();
        }
        match self.13.write(tup.write_value()) {
            Ok(()) => {},
            Err(e) => {
                return Err(e);
            },
        }
        proof {
            lemma_write_events_concat(w0, done, self.13.written_events());
            done = done + self.13.written_events();
        }
        match self.14.write(tup.write_value()) {
            Ok(()) => {},
            Err(e) => {
                return Err(e);
            },
        }
        proof {
            lemma_write_events_concat(w0, done, self.14.written_events());
            done = done + self.14.written_events();
        }
        match self.15.write(tup.write_value()) {
            Ok(()) => {},
            Err(e) => {
                return Err(e);
            },
        }
        proof {
            lemma_write_events_concat(w0, done, self.15.written_events());
            done = done + self.15.written_events();
        }
        Ok(())
    }
}

impl<T1: SmolRead, T2: SmolRead, T3: SmolRead, T4: SmolRead, T5: SmolRead, T6: SmolRead, T7: SmolRead, T8: SmolRead, T9: SmolRead, T10: SmolRead, T11: SmolRead, T12: SmolRead, T13: SmolRead, T14: SmolRead, T15: SmolRead, T16: SmolRead> SmolRead for (T1, T2, T3, T4, T5, T6, T7, T8, T9, T10, T11, T12, T13, T14, T15, T16) {
    open spec fn decoded_from(es: Seq<WriteEvent>, v: Self) -> bool {
        es.len() > 0 && es[0] == WriteEvent::Tag(TagModel::Tuple(16)) && exists|parts: Seq<Seq<WriteEvent>>|
            #![trigger joined_events(parts)]
            parts.len() == 16 && es.drop_first() == joined_events(parts) && T1::decoded_from(parts[0], v.0) && T2::decoded_from(parts[1], v.1) && T3::decoded_from(parts[2], v.2) && T4::decoded_from(parts[3], v.3) && T5::decoded_from(parts[4], v.4) && T6::decoded_from(parts[5], v.5) && T7::decoded_from(parts[6], v.6) && T8::decoded_from(parts[7], v.7) && T9::decoded_from(parts[8], v.8) && T10::decoded_from(parts[9], v.9) && T11::decoded_from(parts[10], v.10) && T12::decoded_from(parts[11], v.11) && T13::decoded_from(parts[12], v.12) && T14::decoded_from(parts[13], v.13) && T15::decoded_from(parts[14], v.14) && T16::decoded_from(parts[15], v.15)
    }

    fn read(reader: ValueReader) -> (r: ReadResult<Self>)
        ensures
            container_tag_read(
                (*old(reader.reader))@,
                r,
                |t: TagModel| t is Tuple,
                ValueTypeRequirement::Tuple,
                "tuple",
            ),
            (*old(reader.reader))@.next_tag() matches Ok((TagModel::Tuple(n), _)) ==> (n != 16 ==> (r matches Err(b)
                && *b == (ReadError::UnexpectedLength { expected: 16, got: n, type_label: "tuple" }))),
    {
        let ghost before = (*reader.reader)@;
        let reading = match reader.read() {
            Ok(x) => x,
            Err(e) => {
                return Err(e);
            },
        };
        proof {
            let t = before.next_tag().unwrap().0;
            lemma_fits_kind(&reading, t);
            lemma_next_tag_progress(before);
        }
        let found = reading.ty();
        let mut tuple = match reading {
            ValueReading::Tuple(t) => t,
            _ => {
                return Err(
                    Box::new(
                        ReadError::UnexpectedValueForType(
                            UnexpectedValueForTypeError {
                                expected: ValueTypeRequirement::Tuple,
                                found,
                                type_label: "tuple",
                            },
                        ),
                    ),
                );
            },
        };
        let length = tuple.remaining();
        if length != 16 {
            return Err(
                Box::new(ReadError::UnexpectedLength { expected: 16, got: length, type_label: "tuple" }),
            );
        }
        let ghost m0 = (*tuple.reader)@;
        let ghost mut parts: Seq<Seq<WriteEvent>> = Seq::empty();
        proof {
            assert(joined_events(parts) =~= Seq::<WriteEvent>::empty());
            assert(read_all(m0, joined_events(parts)) == Some((joined_events(parts), m0)));
            assert(progressed(before, m0));
        }
        let ghost s0 = (*tuple.reader)@;
        let (v0, g0) = match read_tuple_field::<T1>(&mut tuple, 16, length, Ghost(m0), Ghost(parts)) {
            Ok(x) => x,
            Err(e) => {
                return Err(e);
            },
        };
        proof {
            lemma_progress_trans(before, s0, (*tuple.reader)@);
            parts = parts.push(g0@);
        }
        let ghost s1 = (*tuple.reader)@;
        let (v1, g1) = match read_tuple_field::<T2>(&mut tuple, 16, length, Ghost(m0), Ghost(parts)) {
            Ok(x) => x,
            Err(e) => {
                return Err(e);
            },
        };
        proof {
            lemma_progress_trans(before, s1, (*tuple.reader)@);
            parts = parts.push(g1@);
        }
        let ghost s2 = (*tuple.reader)@;
        let (v2, g2) = match read_tuple_field::<T3>(&mut tuple, 16, length, Ghost(m0), Ghost(parts)) {
            Ok(x) => x,
            Err(e) => {
                return Err(e);
            },
        };
        proof {
            lemma_progress_trans(before, s2, (*tuple.reader)@);
            parts = parts.push(g2@);
        }
        let ghost s3 = (*tuple.reader)@;
        let (v3, g3) = match read_tuple_field::<T4>(&mut tuple, 16, length, Ghost(m0), Ghost(parts)) {
            Ok(x) => x,
            Err(e) => {
                return Err(e);
            },
        };
        proof {
            lemma_progress_trans(before, s3, (*tuple.reader)@);
            parts = parts.push(g3@);
        }
        let ghost s4 = (*tuple.reader)@;
        let (v4, g4) = match read_tuple_field::<T5>(&mut tuple, 16, length, Ghost(m0), Ghost(parts)) {
            Ok(x) => x,
            Err(e) => {
                return Err(e);
            },
        };
        proof {
            lemma_progress_trans(before, s4, (*tuple.reader)@);
            parts = parts.push(g4@);
        }
        let ghost s5 = (*tuple.reader)@;
        let (v5, g5) = match read_tuple_field::<T6>(&mut tuple, 16, length, Ghost(m0), Ghost(parts)) {
            Ok(x) => x,
            Err(e) => {
                return Err(e);
            },
        };
        proof {
            lemma_progress_trans(before, s5, (*tuple.reader)@);
            parts = parts.push(g5@);
        }
        let ghost s6 = (*tuple.reader)@;
        let (v6, g6) = match read_tuple_field::<T7>(&mut tuple, 16, length, Ghost(m0), Ghost(parts)) {
            Ok(x) => x,
            Err(e) => {
                return Err(e);
            },
        };
        proof {
            lemma_progress_trans(before, s6, (*tuple.reader)@);
            parts = parts.push(g6@);
        }
        let ghost s7 = (*tuple.reader)@;
        let (v7, g7) = match read_tuple_field::<T8>(&mut tuple, 16, length, Ghost(m0), Ghost(parts)) {
            Ok(x) => x,
            Err(e) => {
                return Err(e);
            },
        };
        proof {
            lemma_progress_trans(before, s7, (*tuple.reader)@);
            parts = parts.push(g7@);
        }
        let ghost s8 = (*tuple.reader)@;
        let (v8, g8) = match read_tuple_field::<T9>(&mut tuple, 16, length, Ghost(m0), Ghost(parts)) {
            Ok(x) => x,
            Err(e) => {
                return Err(e);
            },
        };
        proof {
            lemma_progress_trans(before, s8, (*tuple.reader)@);
            parts = parts.push(g8@);
        }
        let ghost s9 = (*tuple.reader)@;
        let (v9, g9) = match read_tuple_field::<T10>(&mut tuple, 16, length, Ghost(m0), Ghost(parts)) {
            Ok(x) => x,
            Err(e) => {
                return Err(e);
            },
        };
        proof {
            lemma_progress_trans(before, s9, (*tuple.reader)@);
            parts = parts.push(g9@);
        }
        let ghost s10 = (*tuple.reader)@;
        let (v10, g10) = match read_tuple_field::<T11>(&mut tuple, 16, length, Ghost(m0), Ghost(parts)) {
            Ok(x) => x,
            Err(e) => {
                return Err(e);
            },
        };
        proof {
            lemma_progress_trans(before, s10, (*tuple.reader)@);
            parts = parts.push(g10@);
        }
        let ghost s11 = (*tuple.reader)@;
        let (v11, g11) = match read_tuple_field::<T12>(&mut tuple, 16, length, Ghost(m0), Ghost(parts)) {
            Ok(x) => x,
            Err(e) => {
                return Err(e);
            },
        };
        proof {
            lemma_progress_trans(before, s11, (*tuple.reader)@);
            parts = parts.push(g11@);
        }
        let ghost s12 = (*tuple.reader)@;
        let (v12, g12) = match read_tuple_field::<T13>(&mut tuple, 16, length, Ghost(m0), Ghost(parts)) {
            Ok(x) => x,
            Err(e) => {
                return Err(e);
            },
        };
        proof {
            lemma_progress_trans(before, s12, (*tuple.reader)@);
            parts = parts.push(g12@);
        }
        let ghost s13 = (*tuple.reader)@;
        let (v13, g13) = match read_tuple_field::<T14>(&mut tuple, 16, length, Ghost(m0), Ghost(parts)) {
            Ok(x) => x,
            Err(e) => {
                return Err(e);
            },
        };
        proof {
            lemma_progress_trans(before, s13, (*tuple.reader)@);
            parts = parts.push(g13@);
        }
        let ghost s14 = (*tuple.reader)@;
        let (v14, g14) = match read_tuple_field::<T15>(&mut tuple, 16, length, Ghost(m0), Ghost(parts)) {
            Ok(x) => x,
            Err(e) => {
                return Err(e);
            },
        };
        proof {
            lemma_progress_trans(before, s14, (*tuple.reader)@);
            parts = parts.push(g14@);
        }
        let ghost s15 = (*tuple.reader)@;
        let (v15, g15) = match read_tuple_field::<T16>(&mut tuple, 16, length, Ghost(m0), Ghost(parts)) {
            Ok(x) => x,
            Err(e) => {
                return Err(e);
            },
        };
        proof {
            lemma_progress_trans(before, s15, (*tuple.reader)@);
            parts = parts.push(g15@);
        }
        proof {
            let t = before.next_tag().unwrap().0;
            let head = seq![WriteEvent::Tag(t)];
            lemma_read_tag_event(before);
            let done = joined_events(parts);
            lemma_read_all_concat(before, head, m0, done, (*tuple.reader)@);
            assert((head + done).drop_first() =~= done);
            assert((head + done)[0] == WriteEvent::Tag(t));
            assert(parts == seq![g0@, g1@, g2@, g3@, g4@, g5@, g6@, g7@, g8@, g9@, g10@, g11@, g12@, g13@, g14@, g15@]);
            lemma_tuple_parts_16(parts, g0@, g1@, g2@, g3@, g4@, g5@, g6@, g7@, g8@, g9@, g10@, g11@, g12@, g13@, g14@, g15@, v0, v1, v2, v3, v4, v5, v6, v7, v8, v9, v10, v11, v12, v13, v14, v15);
            assert(<(T1, T2, T3, T4, T5, T6, T7, T8, T9, T10, T11, T12, T13, T14, T15, T16) as SmolRead>::decoded_from(head + done, (v0, v1, v2, v3, v4, v5, v6, v7, v8, v9, v10, v11, v12, v13, v14, v15)));
        }
        Ok((v0, v1, v2, v3, v4, v5, v6, v7, v8, v9, v10, v11, v12, v13, v14, v15))
    }
}

impl<T: SmolWrite + ?Sized> SmolWrite for &T {
    open spec fn written_events(&self) -> Seq<WriteEvent> {
        (**self).written_events()
    }

    fn write(&self, writer: ValueWriter) -> (r: Result<(), WriteError>) {
        (**self).write(writer)
    }
}

impl<T: SmolWrite + ?Sized> SmolWrite for &mut T {
    open spec fn written_events(&self) -> Seq<WriteEvent> {
        (**self).written_events()
    }

    fn write(&self, writer: ValueWriter) -> (r: Result<(), WriteError>) {
        (**self).write(writer)
    }
}

impl<T: SmolWrite + ?Sized> SmolWrite for Box<T> {
    open spec fn written_events(&self) -> Seq<WriteEvent> {
        (**self).written_events()
    }

    fn write(&self, writer: ValueWriter) -> (r: Result<(), WriteError>) {
        (**self).write(writer)
    }
}

impl<T: SmolWrite + ?Sized> SmolWrite for std::rc::Rc<T> {
    open spec fn written_events(&self) -> Seq<WriteEvent> {
        (**self).written_events()
    }

    fn write(&self, writer: ValueWriter) -> (r: Result<(), WriteError>) {
        (**self).write(writer)
    }
}

impl<T: SmolWrite + ?Sized> SmolWrite for std::sync::Arc<T> {
    open spec fn written_events(&self) -> Seq<WriteEvent> {
        (**self).written_events()
    }

    fn write(&self, writer: ValueWriter) -> (r: Result<(), WriteError>) {
        (**self).write(writer)
    }
}

impl<T: SmolRead> SmolRead for Box<T> {
    open spec fn decoded_from(es: Seq<WriteEvent>, v: Self) -> bool {
        T::decoded_from(es, *v)
    }

    open spec fn read_owed(es: Seq<WriteEvent>) -> bool {
        T::read_owed(es)
    }

    fn read(reader: ValueReader) -> (r: ReadResult<Self>) {
        match T::read(reader) {
            Ok(v) => Ok(Box::new(v)),
            Err(e) => Err(e),
        }
    }
}

impl<T: SmolRead> SmolRead for std::rc::Rc<T> {
    open spec fn decoded_from(es: Seq<WriteEvent>, v: Self) -> bool {
        T::decoded_from(es, *v)
    }

    open spec fn read_owed(es: Seq<WriteEvent>) -> bool {
        T::read_owed(es)
    }

    fn read(reader: ValueReader) -> (r: ReadResult<Self>) {
        match T::read(reader) {
            Ok(v) => Ok(std::rc::Rc::new(v)),
            Err(e) => Err(e),
        }
    }
}

impl<T: SmolRead> SmolRead for std::sync::Arc<T> {
    open spec fn decoded_from(es: Seq<WriteEvent>, v: Self) -> bool {
        T::decoded_from(es, *v)
    }

    open spec fn read_owed(es: Seq<WriteEvent>) -> bool {
        T::read_owed(es)
    }

    fn read(reader: ValueReader) -> (r: ReadResult<Self>) {
        match T::read(reader) {
            Ok(v) => Ok(std::sync::Arc::new(v)),
            Err(e) => Err(e),
        }
    }
}

impl<T: SmolWrite> SmolWrite for [T] {
    open spec fn written_events(&self) -> Seq<WriteEvent> {
        seq![WriteEvent::Tag(TagModel::Array(Some(self@.len() as usize)))] + all_written_events(self@)
    }

    fn write(&self, writer: ValueWriter) -> (r: Result<(), WriteError>)
        ensures
            self@.len() == 0 ==> r is Ok,
    {
        let ghost w0 = (*writer.writer)@;
        let ghost head = seq![WriteEvent::Tag(TagModel::Array(Some(self@.len() as usize)))];
        let mut seq = match writer.write_array(Some(self.len())) {
            Ok(s) => s,
            Err(e) => {
                return Err(e);
            },
        };
        let mut i: usize = 0;
        assert(head + all_written_events(self@.take(0)) =~= head);
        while i < self.len()
            invariant
                i <= self.len(),
                seq.remaining == Some((self.len() - i) as usize),
                write_events(w0, head + all_written_events(self@.take(i as int))) == Some(
                    (*seq.writer)@,
                ),
                *final(seq.writer) == *final(writer.writer),
                w0 == (*old(writer.writer))@,
            decreases self.len() - i,
        {
            proof {
                lemma_all_written_take(self@, i as int);
                lemma_write_events_concat(
                    w0,
                    head + all_written_events(self@.take(i as int)),
                    self@[i as int].written_events(),
                );
                assert(head + all_written_events(self@.take(i + 1)) =~= (head + all_written_events(
                    self@.take(i as int),
                )) + self@[i as int].written_events());
            }
            match self[i].write(seq.write_value()) {
                Ok(()) => {},
                Err(e) => {
                    return Err(e);
                },
            }
            i = i + 1;
        }
        assert(self@.take(i as int) =~= self@);
        seq.finish()
    }
}

impl<T: SmolWrite, const N: usize> SmolWrite for [T; N] {
    open spec fn written_events(&self) -> Seq<WriteEvent> {
        seq![WriteEvent::Tag(TagModel::Array(Some(self@.len() as usize)))] + all_written_events(self@)
    }

    fn write(&self, writer: ValueWriter) -> (r: Result<(), WriteError>)
        ensures
            self@.len() == 0 ==> r is Ok,
    {
        self.as_slice().write(writer)
    }
}

impl<K: SmolRead + std::hash::Hash + Eq, V: SmolRead> SmolRead for std::collections::HashMap<K, V> {
    open spec fn decoded_from(es: Seq<WriteEvent>, v: Self) -> bool {
        es.len() > 0 && match es[0] {
            WriteEvent::Tag(TagModel::Mapping(len)) => exists|ks: Seq<K>, vs: Seq<V>|
                #[trigger] counted_pairs_from(es.drop_first(), len, ks, vs) && (vstd::std_specs::hash::obeys_key_model::<K>() ==> v@
                    == map_of_pairs(ks, vs)),
            _ => false,
        }
    }

    fn read(reader: ValueReader) -> (r: ReadResult<Self>)
        ensures
            container_tag_read(
                (*old(reader.reader))@,
                r,
                |t: TagModel| t is Mapping,
                ValueTypeRequirement::Mapping,
                "HashMap",
            ),
            (*old(reader.reader))@.next_tag() matches Ok((t, m)) ==> {
                &&& t == TagModel::Mapping(Some(0usize)) ==> (r matches Ok(v) && v@ == Map::<
                    K,
                    V,
                >::empty() && (*final(reader.reader))@ == m)
                &&& t == TagModel::Mapping(None) ==> (m.next_seq_end() matches Ok((true, m2)) ==> (
                r matches Ok(v) && v@ == Map::<K, V>::empty() && (*final(reader.reader))@ == m2))
            },
    {
        let ghost before = (*reader.reader)@;
        let reading = match reader.read() {
            Ok(x) => x,
            Err(e) => {
                return Err(e);
            },
        };
        proof {
            let t = before.next_tag().unwrap().0;
            lemma_fits_kind(&reading, t);
            lemma_next_tag_progress(before);
        }
        let found = reading.ty();
        let mut map_read = match reading {
            ValueReading::Mapping(m) => m,
            _ => {
                return Err(
                    Box::new(
                        ReadError::UnexpectedValueForType(
                            UnexpectedValueForTypeError {
                                expected: ValueTypeRequirement::Mapping,
                                found,
                                type_label: "HashMap",
                            },
                        ),
                    ),
                );
            },
        };
        let mut map = std::collections::HashMap::new();
        let ghost t = before.next_tag().unwrap().0;
        let ghost m0 = (*map_read.reader)@;
        let ghost len = map_read.remaining;
        let ghost mut done: Seq<WriteEvent> = Seq::empty();
        let ghost mut ks: Seq<K> = Seq::empty();
        let ghost mut vs: Seq<V> = Seq::empty();
        proof {
            broadcast use vstd::std_specs::hash::axiom_random_state_builds_valid_hashers;
        }
        let ghost mut old_ks: Seq<K> = Seq::empty();
        let ghost mut old_vs: Seq<V> = Seq::empty();
        proof {
            assert(read_all(m0, done) == Some((done, m0)));
        }
        loop
            invariant_except_break
                match len {
                    Some(n) => map_read.remaining == Some((n - ks.len()) as usize) && ks.len() <= n,
                    None => map_read.remaining is None,
                },
                read_all(m0, done) == Some((done, (*map_read.reader)@)),
                pairs_from(done, ks, vs),
                ks.len() == 0 ==> (*map_read.reader)@ == m0 && map@ == Map::<K, V>::empty(),
                (len is None && (m0.next_seq_end() matches Ok((true, _)))) ==> ks.len() == 0,
            invariant
                progressed(before, (*map_read.reader)@),
                *final(map_read.reader) == *final(reader.reader),
                before == (*old(reader.reader))@,
                before.next_tag() == Ok::<(TagModel, ReaderModel), ReadError>((t, m0)),
                t == TagModel::Mapping(len),
                vstd::std_specs::hash::obeys_key_model::<K>() ==> map@ == map_of_pairs(ks, vs),
            ensures
                exists|es: Seq<WriteEvent>|
                    #[trigger] counted_pairs_from(es, len, ks, vs) && read_all(m0, es) == Some(
                        (es, (*map_read.reader)@),
                    ),
                len == Some(0usize) ==> map@ == Map::<K, V>::empty() && (*map_read.reader)@ == m0,
                len is None ==> (m0.next_seq_end() matches Ok((true, m2)) ==> map@ == Map::<
                    K,
                    V,
                >::empty() && (*map_read.reader)@ == m2),
            decreases
                usize::MAX - (*map_read.reader)@.pos,
                (*map_read.reader)@.repeat,
                if (*map_read.reader)@.peeked { 1int } else { 0int },
        {
            map_read.reader.well_formed();
            let ghost s0 = (*map_read.reader)@;
            match map_read.read_pair() {
                Ok(Some(mut pair)) => {
                    let ghost mid = (*pair.reader)@;
                    let k = match K::read(pair.read_key()) {
                        Ok(k) => k,
                        Err(e) => {
                            return Err(e);
                        },
                    };
                    let ghost after_key = (*pair.reader)@;
                    let v = match V::read(pair.read_value()) {
                        Ok(v) => v,
                        Err(e) => {
                            return Err(e);
                        },
                    };
                    map_read.reader.well_formed();
                    let ghost new = (*map_read.reader)@;
                    proof {
                        lemma_seq_end_progress(s0);
                        lemma_progress_trans(mid, after_key, new);
                        if mid != s0 {
                            lemma_progress_trans(s0, mid, new);
                        }
                        lemma_progress_trans(before, s0, new);
                        done = lemma_pair_read(m0, done, ks, vs, s0, mid, after_key, new, k, v);
                        old_ks = ks;
                        old_vs = vs;
                        ks = ks.push(k);
                        vs = vs.push(v);
                    }
                    map.insert(k, v);
                    proof {
                        assert(ks.drop_last() =~= old_ks && vs.drop_last() =~= old_vs);
                    }
                },
                Ok(None) => {
                    proof {
                        match len {
                            Some(n) => {
                                assert(counted_pairs_from(done, len, ks, vs));
                            },
                            None => {
                                let new = (*map_read.reader)@;
                                lemma_read_one(s0, WriteEvent::End, new);
                                lemma_read_all_concat(m0, done, s0, seq![WriteEvent::End], new);
                                let d2 = done + seq![WriteEvent::End];
                                assert(d2.drop_last() =~= done);
                                assert(counted_pairs_from(d2, len, ks, vs));
                            },
                        }
                    }
                    break;
                },
                Err(e) => {
                    return Err(e);
                },
            }
        }
        proof {
            let es = choose|es: Seq<WriteEvent>|
                #[trigger] counted_pairs_from(es, len, ks, vs) && read_all(m0, es) == Some(
                    (es, (*map_read.reader)@),
                );
            let head = seq![WriteEvent::Tag(t)];
            lemma_read_tag_event(before);
            lemma_read_all_concat(before, head, m0, es, (*map_read.reader)@);
            assert((head + es).drop_first() =~= es);
            assert((head + es)[0] == WriteEvent::Tag(t));
            assert(<std::collections::HashMap<K, V> as SmolRead>::decoded_from(head + es, map));
        }
        Ok(map)
    }
}

impl<K: SmolRead + Ord, V: SmolRead> SmolRead for std::collections::BTreeMap<K, V> {
    open spec fn decoded_from(es: Seq<WriteEvent>, v: Self) -> bool {
        es.len() > 0 && match es[0] {
            WriteEvent::Tag(TagModel::Mapping(len)) => exists|ks: Seq<K>, vs: Seq<V>|
                #[trigger] counted_pairs_from(es.drop_first(), len, ks, vs) && (keys_ordered::<K>() ==> v@
                    == map_of_pairs(ks, vs)),
            _ => false,
        }
    }

    fn read(reader: ValueReader) -> (r: ReadResult<Self>)
        ensures
            container_tag_read(
                (*old(reader.reader))@,
                r,
                |t: TagModel| t is Mapping,
                ValueTypeRequirement::Mapping,
                "BTreeMap",
            ),
            (*old(reader.reader))@.next_tag() matches Ok((t, m)) ==> {
                &&& t == TagModel::Mapping(Some(0usize)) ==> (r matches Ok(v) && v@ == Map::<
                    K,
                    V,
                >::empty() && (*final(reader.reader))@ == m)
                &&& t == TagModel::Mapping(None) ==> (m.next_seq_end() matches Ok((true, m2)) ==> (
                r matches Ok(v) && v@ == Map::<K, V>::empty() && (*final(reader.reader))@ == m2))
            },
    {
        let ghost before = (*reader.reader)@;
        let reading = match reader.read() {
            Ok(x) => x,
            Err(e) => {
                return Err(e);
            },
        };
        proof {
            let t = before.next_tag().unwrap().0;
            lemma_fits_kind(&reading, t);
            lemma_next_tag_progress(before);
        }
        let found = reading.ty();
        let mut map_read = match reading {
            ValueReading::Mapping(m) => m,
            _ => {
                return Err(
                    Box::new(
                        ReadError::UnexpectedValueForType(
                            UnexpectedValueForTypeError {
                                expected: ValueTypeRequirement::Mapping,
                                found,
                                type_label: "BTreeMap",
                            },
                        ),
                    ),
                );
            },
        };
        let mut map = std::collections::BTreeMap::new();
        let ghost t = before.next_tag().unwrap().0;
        let ghost m0 = (*map_read.reader)@;
        let ghost len = map_read.remaining;
        let ghost mut done: Seq<WriteEvent> = Seq::empty();
        let ghost mut ks: Seq<K> = Seq::empty();
        let ghost mut vs: Seq<V> = Seq::empty();
        let ghost mut old_ks: Seq<K> = Seq::empty();
        let ghost mut old_vs: Seq<V> = Seq::empty();
        proof {
            assert(read_all(m0, done) == Some((done, m0)));
        }
        loop
            invariant_except_break
                match len {
                    Some(n) => map_read.remaining == Some((n - ks.len()) as usize) && ks.len() <= n,
                    None => map_read.remaining is None,
                },
                read_all(m0, done) == Some((done, (*map_read.reader)@)),
                pairs_from(done, ks, vs),
                ks.len() == 0 ==> (*map_read.reader)@ == m0 && map@ == Map::<K, V>::empty(),
                (len is None && (m0.next_seq_end() matches Ok((true, _)))) ==> ks.len() == 0,
            invariant
                progressed(before, (*map_read.reader)@),
                *final(map_read.reader) == *final(reader.reader),
                before == (*old(reader.reader))@,
                before.next_tag() == Ok::<(TagModel, ReaderModel), ReadError>((t, m0)),
                t == TagModel::Mapping(len),
                keys_ordered::<K>() ==> map@ == map_of_pairs(ks, vs),
            ensures
                exists|es: Seq<WriteEvent>|
                    #[trigger] counted_pairs_from(es, len, ks, vs) && read_all(m0, es) == Some(
                        (es, (*map_read.reader)@),
                    ),
                len == Some(0usize) ==> map@ == Map::<K, V>::empty() && (*map_read.reader)@ == m0,
                len is None ==> (m0.next_seq_end() matches Ok((true, m2)) ==> map@ == Map::<
                    K,
                    V,
                >::empty() && (*map_read.reader)@ == m2),
            decreases
                usize::MAX - (*map_read.reader)@.pos,
                (*map_read.reader)@.repeat,
                if (*map_read.reader)@.peeked { 1int } else { 0int },
        {
            map_read.reader.well_formed();
            let ghost s0 = (*map_read.reader)@;
            match map_read.read_pair() {
                Ok(Some(mut pair)) => {
                    let ghost mid = (*pair.reader)@;
                    let k = match K::read(pair.read_key()) {
                        Ok(k) => k,
                        Err(e) => {
                            return Err(e);
                        },
                    };
                    let ghost after_key = (*pair.reader)@;
                    let v = match V::read(pair.read_value()) {
                        Ok(v) => v,
                        Err(e) => {
                            return Err(e);
                        },
                    };
                    map_read.reader.well_formed();
                    let ghost new = (*map_read.reader)@;
                    proof {
                        lemma_seq_end_progress(s0);
                        lemma_progress_trans(mid, after_key, new);
                        if mid != s0 {
                            lemma_progress_trans(s0, mid, new);
                        }
                        lemma_progress_trans(before, s0, new);
                        done = lemma_pair_read(m0, done, ks, vs, s0, mid, after_key, new, k, v);
                        old_ks = ks;
                        old_vs = vs;
                        ks = ks.push(k);
                        vs = vs.push(v);
                    }
                    map.insert(k, v);
                    proof {
                        assert(ks.drop_last() =~= old_ks && vs.drop_last() =~= old_vs);
                    }
                },
                Ok(None) => {
                    proof {
                        match len {
                            Some(n) => {
                                assert(counted_pairs_from(done, len, ks, vs));
                            },
                            None => {
                                let new = (*map_read.reader)@;
                                lemma_read_one(s0, WriteEvent::End, new);
                                lemma_read_all_concat(m0, done, s0, seq![WriteEvent::End], new);
                                let d2 = done + seq![WriteEvent::End];
                                assert(d2.drop_last() =~= done);
                                assert(counted_pairs_from(d2, len, ks, vs));
                            },
                        }
                    }
                    break;
                },
                Err(e) => {
                    return Err(e);
                },
            }
        }
        proof {
            let es = choose|es: Seq<WriteEvent>|
                #[trigger] counted_pairs_from(es, len, ks, vs) && read_all(m0, es) == Some(
                    (es, (*map_read.reader)@),
                );
            let head = seq![WriteEvent::Tag(t)];
            lemma_read_tag_event(before);
            lemma_read_all_concat(before, head, m0, es, (*map_read.reader)@);
            assert((head + es).drop_first() =~= es);
            assert((head + es)[0] == WriteEvent::Tag(t));
            assert(<std::collections::BTreeMap<K, V> as SmolRead>::decoded_from(head + es, map));
        }
        Ok(map)
    }
}

impl<T: SmolWrite> SmolWrite for Option<T> {
    open spec fn written_events(&self) -> Seq<WriteEvent> {
        match self {
            None => seq![WriteEvent::Tag(TagModel::Option(OptionTag::Absent))],
            Some(v) => seq![WriteEvent::Tag(TagModel::Option(OptionTag::Present))]
                + v.written_events(),
        }
    }

    fn write(&self, writer: ValueWriter) -> (r: Result<(), WriteError>)
        ensures
            *self is None ==> write_outcome(
                (*old(writer.writer))@,
                (*old(writer.writer))@.write_tag(TagModel::Option(OptionTag::Absent)),
                r,
                (*final(writer.writer))@,
            ),
            *self is Some && (*old(writer.writer))@.write_tag(
                TagModel::Option(OptionTag::Present),
            ) is None ==> r is Err && (*final(writer.writer))@ == (*old(writer.writer))@,
    {
        let ghost w0 = (*writer.writer)@;
        match self {
            None => writer.write_none(),
            Some(v) => match writer.write_some() {
                Ok(w) => {
                    proof {
                        lemma_write_events_concat(
                            w0,
                            seq![WriteEvent::Tag(TagModel::Option(OptionTag::Present))],
                            v.written_events(),
                        );
                    }
                    v.write(w)
                },
                Err(e) => Err(e),
            },
        }
    }
}

impl<T: SmolRead> SmolRead for Option<T> {
    open spec fn decoded_from(es: Seq<WriteEvent>, v: Self) -> bool {
        es.len() > 0 && match v {
            None => es == seq![WriteEvent::Tag(TagModel::Option(OptionTag::Absent))],
            Some(x) => es[0] == WriteEvent::Tag(TagModel::Option(OptionTag::Present))
                && T::decoded_from(es.drop_first(), x),
        }
    }

    open spec fn read_owed(es: Seq<WriteEvent>) -> bool {
        ||| es == seq![WriteEvent::Tag(TagModel::Option(OptionTag::Absent))]
        ||| es.len() > 0 && es[0] == WriteEvent::Tag(TagModel::Option(OptionTag::Present))
            && T::read_owed(es.drop_first())
    }

    fn read(reader: ValueReader) -> (r: ReadResult<Self>)
        ensures
            container_tag_read(
                (*old(reader.reader))@,
                r,
                |t: TagModel| t is Option,
                ValueTypeRequirement::Option(None),
                "Option",
            ),
            (*old(reader.reader))@.next_tag() matches Ok((t, m)) ==> (t == TagModel::Option(
                OptionTag::Absent,
            ) ==> (r matches Ok(None) && (*final(reader.reader))@ == m)),
    {
        let ghost before = (*reader.reader)@;
        proof {
            assert forall|es: Seq<WriteEvent>|
                #[trigger] Self::read_owed(es) && reads_through(before, es) implies (before.next_tag()
                matches Ok((t1, m1)) && (es[0] == WriteEvent::Tag(t1) && reads_through(
                m1,
                es.drop_first(),
            ) && read_all(m1, es.drop_first()).unwrap().1 == read_all(before, es).unwrap().1)) by {
                let r2 = crate::readback::lemma_reads_through_first(before, es);
            }
        }
        let reading = match reader.read() {
            Ok(x) => x,
            Err(e) => {
                return Err(e);
            },
        };
        proof {
            let t = before.next_tag().unwrap().0;
            lemma_fits_kind(&reading, t);
            lemma_next_tag_progress(before);
        }
        let found = reading.ty();
        let ghost t = before.next_tag().unwrap().0;
        let ghost head = seq![WriteEvent::Tag(t)];
        proof {
            lemma_read_tag_event(before);
        }
        match reading {
            ValueReading::Option(None) => {
                proof {
                    assert(<Option<T> as SmolRead>::decoded_from(head, None));
                }
                Ok(None)
            },
            ValueReading::Option(Some(vr)) => {
                let ghost mid = (*vr.reader)@;
                match T::read(vr) {
                    Ok(v) => {
                        proof {
                            let fin = (*final(reader.reader))@;
                            let es = choose|es: Seq<WriteEvent>|
                                #[trigger] T::decoded_from(es, v) && es.len() > 0 && es[0] is Tag
                                    && read_all(mid, es) == Some((es, fin));
                            lemma_read_all_concat(before, head, mid, es, fin);
                            assert((head + es).drop_first() =~= es);
                            assert((head + es)[0] == WriteEvent::Tag(t));
                            assert(<Option<T> as SmolRead>::decoded_from(head + es, Some(v)));
                        }
                        Ok(Some(v))
                    },
                    Err(e) => Err(e),
                }
            },
            _ => Err(
                Box::new(
                    ReadError::UnexpectedValueForType(
                        UnexpectedValueForTypeError {
                            expected: ValueTypeRequirement::Option(None),
                            found,
                            type_label: "Option",
                        },
                    ),
                ),
            ),
        }
    }
}

} // verus!
