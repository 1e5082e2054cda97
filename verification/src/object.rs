use vstd::prelude::*;
use vstd::utf8::{decode_utf8, encode_utf8, valid_utf8};

use crate::object_shape::{
    lemma_fields_front,
    lemma_items_front,
    lemma_pairs_front,
    lemma_read_all_split,
    lemma_read_as_unique,
};
use crate::raw::{
    lemma_seq_end_then_tag,
    lemma_tag_not_end,
    object_bytes,
    write_event,
    write_events,
    RawValue,
};
use crate::reader::{
    fresh_reader,
    lemma_next_tag_progress,
    lemma_seq_end_progress,
    progressed,
    ArrayReader,
    MapReader,
    StringReaderType,
    StructReader,
    StructReading,
    Primitive,
    ReadError,
    ReadResult,
    Reader,
    ReaderModel,
    TupleReader,
    ValueReader,
    ValueReading,
};
use crate::{lemma_progress_trans, SmolRead, SmolWrite, FORMAT_VERSION};
use crate::roundtrip::{read_all, read_step, WriteEvent};
use crate::str::{str_eq, RefArcStr, SdString};
use crate::tag::{OptionTag, StructTag, TagModel};
use crate::writer::{
    ArrayWriter,
    MapWriter,
    SizedStructWriter,
    SizedTupleWriter,
    ValueWriter,
    WriteError,
    Writer,
    WriterModel,
    MAX_OPT_STR_LEN,
};

verus! {

broadcast use vstd::std_specs::vec::group_vec_axioms;

/// Any value of the format, read without knowing its type.
pub enum ObjectValue {
    Primitive(Primitive),
    String(SdString),
    Bytes(Vec<u8>),
    Option(Option<Box<ObjectValue>>),
    Struct(StructValue),
    /// A variant by its name, with its fields.
    Enum(String, StructValue),
    Tuple(Vec<ObjectValue>),
    Array(Vec<ObjectValue>),
    /// The pairs of a map, in the order read.
    Mapping(Vec<(ObjectValue, ObjectValue)>),
}

/// The fields of a struct or of an enum variant.
pub enum StructValue {
    Unit,
    Newtype(Box<ObjectValue>),
    Tuple(Vec<ObjectValue>),
    /// Named fields, no two with one name.
    Struct(Vec<(String, ObjectValue)>),
}

/// The events of a string value: the empty string as its own tag, a string
/// longer than `MAX_OPT_STR_LEN` bytes as its length and its bytes, any other
/// string as a tag that holds it.
pub open spec fn string_events(s: Seq<char>) -> Seq<WriteEvent> {
    let n = encode_utf8(s).len();
    if n == 0 {
        seq![WriteEvent::Tag(TagModel::EmptyStr)]
    } else if n > MAX_OPT_STR_LEN {
        seq![WriteEvent::Tag(TagModel::StrDirect(n as usize)), WriteEvent::Raw(encode_utf8(s))]
    } else {
        seq![WriteEvent::Tag(TagModel::Str(s))]
    }
}

/// The shape of a struct or variant with the fields `sv`.
pub open spec fn struct_tag_of(sv: StructValue) -> StructTag {
    match sv {
        StructValue::Unit => StructTag::Unit,
        StructValue::Newtype(_) => StructTag::Newtype,
        StructValue::Tuple(vs) => StructTag::Tuple { len: vs.len() },
        StructValue::Struct(fs) => StructTag::Struct { len: fs.len() },
    }
}

/// The events that writing the value `o` writes.
pub open spec fn object_events(o: ObjectValue) -> Seq<WriteEvent>
    decreases o,
{
    match o {
        ObjectValue::Primitive(p) => seq![WriteEvent::Tag(p.spec_tag_of())],
        ObjectValue::String(s) => string_events(s@),
        ObjectValue::Bytes(b) => seq![
            WriteEvent::Tag(TagModel::Bytes(b.len())),
            WriteEvent::Raw(b@),
        ],
        ObjectValue::Option(v) => match v {
            None => seq![WriteEvent::Tag(TagModel::Option(OptionTag::Absent))],
            Some(b) => seq![WriteEvent::Tag(TagModel::Option(OptionTag::Present))]
                + object_events(*b),
        },
        ObjectValue::Struct(sv) => seq![WriteEvent::Tag(TagModel::Struct(struct_tag_of(sv)))]
            + fields_events(sv),
        ObjectValue::Enum(name, sv) => seq![
            WriteEvent::Tag(TagModel::Variant(name@, struct_tag_of(sv))),
        ] + fields_events(sv),
        ObjectValue::Tuple(vs) => seq![WriteEvent::Tag(TagModel::Tuple(vs.len()))] + items_events(
            vs@,
        ),
        ObjectValue::Array(vs) => seq![WriteEvent::Tag(TagModel::Array(Some(vs.len())))]
            + items_events(vs@),
        ObjectValue::Mapping(ps) => seq![WriteEvent::Tag(TagModel::Mapping(Some(ps.len())))]
            + pairs_events(ps@),
    }
}

/// The events that writing the fields `sv` writes after the tag.
pub open spec fn fields_events(sv: StructValue) -> Seq<WriteEvent>
    decreases sv,
{
    match sv {
        StructValue::Unit => Seq::empty(),
        StructValue::Newtype(v) => object_events(*v),
        StructValue::Tuple(vs) => items_events(vs@),
        StructValue::Struct(fs) => named_events(fs@),
    }
}

/// The events of the values `vs`, in order.
pub open spec fn items_events(vs: Seq<ObjectValue>) -> Seq<WriteEvent>
    decreases vs,
{
    if vs.len() == 0 {
        Seq::empty()
    } else {
        items_events(vs.subrange(0, vs.len() - 1)) + object_events(vs[vs.len() - 1])
    }
}

/// The events of the pairs `ps`, in order, each key before its value.
pub open spec fn pairs_events(ps: Seq<(ObjectValue, ObjectValue)>) -> Seq<WriteEvent>
    decreases ps,
{
    if ps.len() == 0 {
        Seq::empty()
    } else {
        pairs_events(ps.subrange(0, ps.len() - 1)) + object_events(ps[ps.len() - 1].0)
            + object_events(ps[ps.len() - 1].1)
    }
}

/// The events of the named fields `fs`, in order, each name before its value.
pub open spec fn named_events(fs: Seq<(String, ObjectValue)>) -> Seq<WriteEvent>
    decreases fs,
{
    if fs.len() == 0 {
        Seq::empty()
    } else {
        named_events(fs.subrange(0, fs.len() - 1)) + seq![WriteEvent::Str(fs[fs.len() - 1].0@)]
            + object_events(fs[fs.len() - 1].1)
    }
}

/// `r` and `w1` are the result and the writer after writing the events `es`
/// on a writer that held `w0`: success and the writer the events make, or an
/// error where one of them fails.
pub open spec fn writes_outcome(
    w0: WriterModel,
    es: Seq<WriteEvent>,
    r: Result<(), WriteError>,
    w1: WriterModel,
) -> bool {
    match write_events(w0, es) {
        Some(m) => r is Ok && w1 == m,
        None => r is Err,
    }
}

/// Writing events one run after another is writing the runs in turn.
pub proof fn lemma_write_events_concat(w: WriterModel, a: Seq<WriteEvent>, b: Seq<WriteEvent>)
    ensures
        write_events(w, a + b) == match write_events(w, a) {
            Some(w1) => write_events(w1, b),
            None => None,
        },
    decreases a.len(),
{
    if a.len() == 0 {
        assert(a + b =~= b);
    } else {
        assert((a + b)[0] == a[0]);
        assert((a + b).drop_first() =~= a.drop_first() + b);
        match write_event(w, a[0]) {
            Some(w1) => {
                lemma_write_events_concat(w1, a.drop_first(), b);
            },
            None => {},
        }
    }
}

/// A write that fails in a run fails in any run that starts with it.
proof fn lemma_write_events_prefix_none(w: WriterModel, a: Seq<WriteEvent>, b: Seq<WriteEvent>)
    requires
        a.len() <= b.len(),
        b.take(a.len() as int) == a,
        write_events(w, a) is None,
    ensures
        write_events(w, b) is None,
{
    assert(b =~= a + b.skip(a.len() as int));
    lemma_write_events_concat(w, a, b.skip(a.len() as int));
}

/// One event written is one step of the writer.
proof fn lemma_write_one(w: WriterModel, e: WriteEvent)
    ensures
        write_events(w, seq![e]) == write_event(w, e),
{
    reveal_with_fuel(write_events, 2);
    assert(seq![e].drop_first() =~= Seq::<WriteEvent>::empty());
}

/// Writing a string value writes its events.
pub(crate) proof fn lemma_write_string_events(w: WriterModel, s: Seq<char>)
    ensures
        write_events(w, string_events(s)) == w.write_string(s),
{
    let n = encode_utf8(s).len();
    if n == 0 || n > MAX_OPT_STR_LEN {
        reveal_with_fuel(write_events, 3);
        if n > MAX_OPT_STR_LEN {
            let es = string_events(s);
            assert(es.drop_first() =~= seq![WriteEvent::Raw(encode_utf8(s))]);
            assert(es.drop_first().drop_first() =~= Seq::<WriteEvent>::empty());
        } else {
            assert(string_events(s).drop_first() =~= Seq::<WriteEvent>::empty());
        }
    } else {
        lemma_write_one(w, WriteEvent::Tag(TagModel::Str(s)));
    }
}

proof fn lemma_items_take(vs: Seq<ObjectValue>, k: int)
    requires
        0 <= k < vs.len(),
    ensures
        items_events(vs.take(k + 1)) == items_events(vs.take(k)) + object_events(vs[k]),
{
    assert(vs.take(k + 1).subrange(0, k) =~= vs.take(k));
}

proof fn lemma_items_prefix(vs: Seq<ObjectValue>, k: int)
    requires
        0 <= k <= vs.len(),
    ensures
        items_events(vs.take(k)).len() <= items_events(vs).len(),
        items_events(vs).take(items_events(vs.take(k)).len() as int) == items_events(vs.take(k)),
    decreases vs.len() - k,
{
    if k == vs.len() {
        assert(vs.take(k) =~= vs);
        assert(items_events(vs).take(items_events(vs).len() as int) =~= items_events(vs));
    } else {
        lemma_items_prefix(vs, k + 1);
        lemma_items_take(vs, k);
        let a = items_events(vs.take(k));
        let b = items_events(vs.take(k + 1));
        assert(items_events(vs).take(a.len() as int) =~= b.take(a.len() as int));
        assert(b.take(a.len() as int) =~= a);
    }
}

proof fn lemma_pairs_take(ps: Seq<(ObjectValue, ObjectValue)>, k: int)
    requires
        0 <= k < ps.len(),
    ensures
        pairs_events(ps.take(k + 1)) == pairs_events(ps.take(k)) + object_events(ps[k].0)
            + object_events(ps[k].1),
{
    assert(ps.take(k + 1).subrange(0, k) =~= ps.take(k));
}

proof fn lemma_pairs_prefix(ps: Seq<(ObjectValue, ObjectValue)>, k: int, extra: Seq<WriteEvent>)
    requires
        0 <= k < ps.len(),
        extra.len() <= object_events(ps[k].0).len() + object_events(ps[k].1).len(),
        extra == (object_events(ps[k].0) + object_events(ps[k].1)).take(extra.len() as int),
    ensures
        (pairs_events(ps.take(k)) + extra).len() <= pairs_events(ps).len(),
        pairs_events(ps).take((pairs_events(ps.take(k)) + extra).len() as int) == pairs_events(
            ps.take(k),
        ) + extra,
    decreases ps.len() - k,
{
    lemma_pairs_take(ps, k);
    let a = pairs_events(ps.take(k)) + extra;
    let b = pairs_events(ps.take(k + 1));
    assert(b.take(a.len() as int) =~= a);
    if k + 1 == ps.len() {
        assert(ps.take(k + 1) =~= ps);
    } else {
        assert(Seq::<WriteEvent>::empty() =~= (object_events(ps[k + 1].0) + object_events(
            ps[k + 1].1,
        )).take(0));
        lemma_pairs_prefix(ps, k + 1, Seq::empty());
        assert(pairs_events(ps.take(k + 1)) + Seq::<WriteEvent>::empty() =~= b);
        assert(pairs_events(ps).take(a.len() as int) =~= b.take(a.len() as int));
    }
}

proof fn lemma_named_take(fs: Seq<(String, ObjectValue)>, k: int)
    requires
        0 <= k < fs.len(),
    ensures
        named_events(fs.take(k + 1)) == named_events(fs.take(k)) + seq![WriteEvent::Str(fs[k].0@)]
            + object_events(fs[k].1),
{
    assert(fs.take(k + 1).subrange(0, k) =~= fs.take(k));
}

proof fn lemma_named_prefix(fs: Seq<(String, ObjectValue)>, k: int, extra: Seq<WriteEvent>)
    requires
        0 <= k < fs.len(),
        extra.len() <= 1 + object_events(fs[k].1).len(),
        extra == (seq![WriteEvent::Str(fs[k].0@)] + object_events(fs[k].1)).take(
            extra.len() as int,
        ),
    ensures
        (named_events(fs.take(k)) + extra).len() <= named_events(fs).len(),
        named_events(fs).take((named_events(fs.take(k)) + extra).len() as int) == named_events(
            fs.take(k),
        ) + extra,
    decreases fs.len() - k,
{
    lemma_named_take(fs, k);
    let a = named_events(fs.take(k)) + extra;
    let b = named_events(fs.take(k + 1));
    assert(b.take(a.len() as int) =~= a);
    if k + 1 == fs.len() {
        assert(fs.take(k + 1) =~= fs);
    } else {
        assert(Seq::<WriteEvent>::empty() =~= (seq![WriteEvent::Str(fs[k + 1].0@)]
            + object_events(fs[k + 1].1)).take(0));
        lemma_named_prefix(fs, k + 1, Seq::empty());
        assert(named_events(fs.take(k + 1)) + Seq::<WriteEvent>::empty() =~= b);
        assert(named_events(fs).take(a.len() as int) =~= b.take(a.len() as int));
    }
}

/// Writes the values `vals` with a writer for as many values.
fn write_items(tuple: SizedTupleWriter, vals: &Vec<ObjectValue>) -> (r: Result<(), WriteError>)
    requires
        tuple.remaining == vals.len(),
    ensures
        writes_outcome((*old(tuple.writer))@, items_events(vals@), r, (*final(tuple.writer))@),
    decreases vals,
{
    let ghost w0 = (*tuple.writer)@;
    let mut tw = tuple;
    let mut i: usize = 0;
    assert(vals@.take(0) =~= Seq::<ObjectValue>::empty());
    while i < vals.len()
        invariant
            i <= vals.len(),
            tw.remaining == vals.len() - i,
            write_events(w0, items_events(vals@.take(i as int))) == Some((*tw.writer)@),
            *final(tw.writer) == *final(tuple.writer),
            w0 == (*old(tuple.writer))@,
        decreases vals.len() - i,
    {
        let ghost cur = (*tw.writer)@;
        let vw = tw.write_value();
        proof {
            assert(decreases_to!(vals => vals[i as int]));
            lemma_items_take(vals@, i as int);
            lemma_write_events_concat(w0, items_events(vals@.take(i as int)), object_events(vals@[i as int]));
        }
        match write_object_value(&vals[i], vw) {
            Ok(()) => {},
            Err(e) => {
                proof {
                    lemma_items_prefix(vals@, i + 1);
                    lemma_write_events_prefix_none(
                        w0,
                        items_events(vals@.take(i + 1)),
                        items_events(vals@),
                    );
                }
                return Err(e);
            },
        }
        i = i + 1;
    }
    assert(vals@.take(i as int) =~= vals@);
    Ok(())
}


/// Writing a tag and then the events `rest` is writing the tag, then `rest`.
proof fn lemma_tag_then(w: WriterModel, t: TagModel, rest: Seq<WriteEvent>)
    ensures
        write_events(w, seq![WriteEvent::Tag(t)] + rest) == match w.write_tag(t) {
            Some(w1) => write_events(w1, rest),
            None => None,
        },
{
    lemma_write_one(w, WriteEvent::Tag(t));
    lemma_write_events_concat(w, seq![WriteEvent::Tag(t)], rest);
}

/// Writes the named fields `fields` with a writer for as many fields.
fn write_named(st: SizedStructWriter, fields: &Vec<(String, ObjectValue)>) -> (r: Result<
    (),
    WriteError,
>)
    requires
        st.remaining == fields.len(),
    ensures
        writes_outcome((*old(st.writer))@, named_events(fields@), r, (*final(st.writer))@),
    decreases fields,
{
    let ghost w0 = (*st.writer)@;
    let mut sw = st;
    let mut i: usize = 0;
    assert(fields@.take(0) =~= Seq::<(String, ObjectValue)>::empty());
    while i < fields.len()
        invariant
            i <= fields.len(),
            sw.remaining == fields.len() - i,
            write_events(w0, named_events(fields@.take(i as int))) == Some((*sw.writer)@),
            *final(sw.writer) == *final(st.writer),
            w0 == (*old(st.writer))@,
        decreases fields.len() - i,
    {
        let ghost cur = (*sw.writer)@;
        let ghost name = fields@[i as int].0@;
        let ghost value = fields@[i as int].1;
        proof {
            assert(decreases_to!(fields => fields[i as int]));
            lemma_named_take(fields@, i as int);
            lemma_write_events_concat(w0, named_events(fields@.take(i as int)), seq![WriteEvent::Str(name)] + object_events(value));
            lemma_write_one(cur, WriteEvent::Str(name));
            lemma_write_events_concat(cur, seq![WriteEvent::Str(name)], object_events(value));
            assert(named_events(fields@.take(i as int)) + seq![WriteEvent::Str(name)] + object_events(value)
                =~= named_events(fields@.take(i as int)) + (seq![WriteEvent::Str(name)] + object_events(value)));
        }
        let vw = match sw.write_field(RefArcStr::Str(fields[i].0.as_str())) {
            Ok(vw) => vw,
            Err(e) => {
                proof {
                    let extra = seq![WriteEvent::Str(name)];
                    assert(extra =~= (seq![WriteEvent::Str(name)] + object_events(value)).take(1));
                    lemma_named_prefix(fields@, i as int, extra);
                    lemma_write_events_concat(w0, named_events(fields@.take(i as int)), extra);
                    lemma_write_events_prefix_none(
                        w0,
                        named_events(fields@.take(i as int)) + extra,
                        named_events(fields@),
                    );
                }
                return Err(e);
            },
        };
        match write_object_value(&fields[i].1, vw) {
            Ok(()) => {},
            Err(e) => {
                proof {
                    let extra = seq![WriteEvent::Str(name)] + object_events(value);
                    assert(extra =~= extra.take(extra.len() as int));
                    lemma_named_prefix(fields@, i as int, extra);
                    lemma_write_events_prefix_none(
                        w0,
                        named_events(fields@.take(i as int)) + extra,
                        named_events(fields@),
                    );
                }
                return Err(e);
            },
        }
        i = i + 1;
    }
    assert(fields@.take(i as int) =~= fields@);
    Ok(())
}

/// Writes the values `vals` with an array writer for as many values.
fn write_array_values(array: ArrayWriter, vals: &Vec<ObjectValue>) -> (r: Result<(), WriteError>)
    requires
        array.remaining == Some(vals.len()),
    ensures
        writes_outcome((*old(array.writer))@, items_events(vals@), r, (*final(array.writer))@),
    decreases vals,
{
    let ghost w0 = (*array.writer)@;
    let mut aw = array;
    let mut i: usize = 0;
    assert(vals@.take(0) =~= Seq::<ObjectValue>::empty());
    while i < vals.len()
        invariant
            i <= vals.len(),
            aw.remaining == Some((vals.len() - i) as usize),
            write_events(w0, items_events(vals@.take(i as int))) == Some((*aw.writer)@),
            *final(aw.writer) == *final(array.writer),
            w0 == (*old(array.writer))@,
        decreases vals.len() - i,
    {
        let vw = aw.write_value();
        proof {
            assert(decreases_to!(vals => vals[i as int]));
            lemma_items_take(vals@, i as int);
            lemma_write_events_concat(
                w0,
                items_events(vals@.take(i as int)),
                object_events(vals@[i as int]),
            );
        }
        match write_object_value(&vals[i], vw) {
            Ok(()) => {},
            Err(e) => {
                proof {
                    lemma_items_prefix(vals@, i + 1);
                    lemma_write_events_prefix_none(
                        w0,
                        items_events(vals@.take(i + 1)),
                        items_events(vals@),
                    );
                }
                return Err(e);
            },
        }
        i = i + 1;
    }
    assert(vals@.take(i as int) =~= vals@);
    aw.finish()
}

/// Writes the pairs `pairs` with a map writer for as many pairs.
fn write_pairs(map: MapWriter, pairs: &Vec<(ObjectValue, ObjectValue)>) -> (r: Result<
    (),
    WriteError,
>)
    requires
        map.remaining == Some(pairs.len()),
    ensures
        writes_outcome((*old(map.writer))@, pairs_events(pairs@), r, (*final(map.writer))@),
    decreases pairs,
{
    let ghost w0 = (*map.writer)@;
    let mut mw = map;
    let mut i: usize = 0;
    assert(pairs@.take(0) =~= Seq::<(ObjectValue, ObjectValue)>::empty());
    while i < pairs.len()
        invariant
            i <= pairs.len(),
            mw.remaining == Some((pairs.len() - i) as usize),
            write_events(w0, pairs_events(pairs@.take(i as int))) == Some((*mw.writer)@),
            *final(mw.writer) == *final(map.writer),
            w0 == (*old(map.writer))@,
        decreases pairs.len() - i,
    {
        let ghost cur = (*mw.writer)@;
        let ghost key = pairs@[i as int].0;
        let ghost value = pairs@[i as int].1;
        proof {
            assert(decreases_to!(pairs => pairs[i as int]));
            lemma_pairs_take(pairs@, i as int);
            lemma_write_events_concat(w0, pairs_events(pairs@.take(i as int)), object_events(key) + object_events(value));
            lemma_write_events_concat(cur, object_events(key), object_events(value));
            assert(pairs_events(pairs@.take(i as int)) + object_events(key) + object_events(value)
                =~= pairs_events(pairs@.take(i as int)) + (object_events(key) + object_events(value)));
        }
        let mut pair = mw.write_pair();
        match write_object_value(&pairs[i].0, pair.write_key()) {
            Ok(()) => {},
            Err(e) => {
                proof {
                    let extra = object_events(key);
                    assert(extra =~= (object_events(key) + object_events(value)).take(extra.len() as int));
                    lemma_pairs_prefix(pairs@, i as int, extra);
                    lemma_write_events_concat(w0, pairs_events(pairs@.take(i as int)), extra);
                    lemma_write_events_prefix_none(
                        w0,
                        pairs_events(pairs@.take(i as int)) + extra,
                        pairs_events(pairs@),
                    );
                }
                return Err(e);
            },
        }
        match write_object_value(&pairs[i].1, pair.write_value()) {
            Ok(()) => {},
            Err(e) => {
                proof {
                    let extra = object_events(key) + object_events(value);
                    assert(extra =~= extra.take(extra.len() as int));
                    lemma_pairs_prefix(pairs@, i as int, extra);
                    lemma_write_events_prefix_none(
                        w0,
                        pairs_events(pairs@.take(i as int)) + extra,
                        pairs_events(pairs@),
                    );
                }
                return Err(e);
            },
        }
        i = i + 1;
    }
    assert(pairs@.take(i as int) =~= pairs@);
    mw.finish()
}

/// Writes the fields `sv` of a struct, or of the variant named `variant`.
fn write_struct_value(sv: &StructValue, variant: Option<&String>, writer: ValueWriter) -> (r: Result<
    (),
    WriteError,
>)
    ensures
        writes_outcome(
            (*old(writer.writer))@,
            seq![
                WriteEvent::Tag(
                    match variant {
                        Some(n) => TagModel::Variant(n@, struct_tag_of(*sv)),
                        None => TagModel::Struct(struct_tag_of(*sv)),
                    },
                ),
            ] + fields_events(*sv),
            r,
            (*final(writer.writer))@,
        ),
    decreases sv,
{
    let ghost w0 = (*writer.writer)@;
    let ghost t = match variant {
        Some(n) => TagModel::Variant(n@, struct_tag_of(*sv)),
        None => TagModel::Struct(struct_tag_of(*sv)),
    };
    proof {
        lemma_tag_then(w0, t, fields_events(*sv));
    }
    match sv {
        StructValue::Unit => {
            proof {
                assert(seq![WriteEvent::Tag(t)] + Seq::<WriteEvent>::empty() =~= seq![WriteEvent::Tag(t)]);
                lemma_write_one(w0, WriteEvent::Tag(t));
            }
            match variant {
                Some(n) => writer.write_unit_variant(RefArcStr::Str(n.as_str())),
                None => writer.write_unit_struct(),
            }
        },
        StructValue::Newtype(v) => {
            let vw = match variant {
                Some(n) => writer.write_newtype_variant(RefArcStr::Str(n.as_str())),
                None => writer.write_newtype_struct(),
            };
            match vw {
                Ok(vw) => write_object_value(v, vw),
                Err(e) => Err(e),
            }
        },
        StructValue::Tuple(vs) => {
            let tw = match variant {
                Some(n) => writer.write_tuple_variant(RefArcStr::Str(n.as_str()), vs.len()),
                None => writer.write_tuple_struct(vs.len()),
            };
            match tw {
                Ok(tw) => write_items(tw, vs),
                Err(e) => Err(e),
            }
        },
        StructValue::Struct(fs) => {
            let sw = match variant {
                Some(n) => writer.write_struct_variant(RefArcStr::Str(n.as_str()), fs.len()),
                None => writer.write_struct(fs.len()),
            };
            match sw {
                Ok(sw) => write_named(sw, fs),
                Err(e) => Err(e),
            }
        },
    }
}

/// Writes the value `o`.
pub fn write_object_value(o: &ObjectValue, writer: ValueWriter) -> (r: Result<(), WriteError>)
    ensures
        writes_outcome((*old(writer.writer))@, object_events(*o), r, (*final(writer.writer))@),
    decreases o,
{
    let ghost w0 = (*writer.writer)@;
    match o {
        ObjectValue::Primitive(p) => {
            proof {
                lemma_write_one(w0, WriteEvent::Tag(p.spec_tag_of()));
            }
            writer.write_primitive(*p)
        },
        ObjectValue::String(s) => {
            proof {
                lemma_write_string_events(w0, s@);
            }
            writer.write_string(s.as_ref_arc())
        },
        ObjectValue::Bytes(b) => {
            proof {
                let es = object_events(*o);
                reveal_with_fuel(write_events, 3);
                assert(es.drop_first() =~= seq![WriteEvent::Raw(b@)]);
                assert(es.drop_first().drop_first() =~= Seq::<WriteEvent>::empty());
            }
            writer.write_bytes(b.as_slice())
        },
        ObjectValue::Option(None) => {
            proof {
                lemma_write_one(w0, WriteEvent::Tag(TagModel::Option(OptionTag::Absent)));
            }
            writer.write_none()
        },
        ObjectValue::Option(Some(v)) => {
            proof {
                lemma_tag_then(w0, TagModel::Option(OptionTag::Present), object_events(**v));
            }
            match writer.write_some() {
                Ok(vw) => write_object_value(v, vw),
                Err(e) => Err(e),
            }
        },
        ObjectValue::Struct(sv) => write_struct_value(sv, None, writer),
        ObjectValue::Enum(n, sv) => write_struct_value(sv, Some(n), writer),
        ObjectValue::Tuple(t) => {
            proof {
                lemma_tag_then(w0, TagModel::Tuple(t.len()), items_events(t@));
            }
            match writer.write_tuple(t.len()) {
                Ok(tw) => write_items(tw, t),
                Err(e) => Err(e),
            }
        },
        ObjectValue::Array(a) => {
            proof {
                lemma_tag_then(w0, TagModel::Array(Some(a.len())), items_events(a@));
            }
            match writer.write_array(Some(a.len())) {
                Ok(aw) => write_array_values(aw, a),
                Err(e) => Err(e),
            }
        },
        ObjectValue::Mapping(m) => {
            proof {
                lemma_tag_then(w0, TagModel::Mapping(Some(m.len())), pairs_events(m@));
            }
            match writer.write_map(Some(m.len())) {
                Ok(mw) => write_pairs(mw, m),
                Err(e) => Err(e),
            }
        },
    }
}

impl SmolWrite for ObjectValue {
    open spec fn written_events(&self) -> Seq<WriteEvent> {
        object_events(*self)
    }

    /// Writes the value: the events [`object_events`] gives.
    fn write(&self, writer: ValueWriter) -> (r: Result<(), WriteError>)
        ensures
            writes_outcome((*old(writer.writer))@, object_events(*self), r, (*final(writer.writer))@),
    {
        write_object_value(self, writer)
    }
}

/// The events `es` are a string value holding `s`: the empty-string tag for
/// the empty string, a tag that holds `s`, or a length and as many bytes that
/// are the UTF-8 encoding of `s`.
pub open spec fn string_decodes(es: Seq<WriteEvent>, s: Seq<char>) -> bool {
    ||| es == seq![WriteEvent::Tag(TagModel::EmptyStr)] && s.len() == 0
    ||| es == seq![WriteEvent::Tag(TagModel::Str(s))]
    ||| es.len() == 2 && match (es[0], es[1]) {
        (WriteEvent::Tag(TagModel::StrDirect(n)), WriteEvent::Raw(b)) => b.len() == n
            && valid_utf8(b) && decode_utf8(b) == s,
        _ => false,
    }
}

/// The first position in `fs` of a field named `name`.
pub open spec fn index_of_name(fs: Seq<(Seq<char>, ObjectValue)>, name: Seq<char>) -> Option<int>
    decreases fs.len(),
{
    if fs.len() == 0 {
        None
    } else {
        match index_of_name(fs.drop_last(), name) {
            Some(i) => Some(i),
            None => if fs.last().0 == name {
                Some(fs.len() - 1)
            } else {
                None
            },
        }
    }
}

/// The fields `fs` with the field `name` set to `v`: in its place where a field
/// has that name, else added last.
pub open spec fn insert_field(fs: Seq<(Seq<char>, ObjectValue)>, name: Seq<char>, v: ObjectValue) -> Seq<
    (Seq<char>, ObjectValue),
> {
    match index_of_name(fs, name) {
        Some(i) => fs.update(i, (name, v)),
        None => fs.push((name, v)),
    }
}

/// The fields that the fields `raw`, read in order, make: one per name, with
/// the value read last for it, in the order the names first came.
pub open spec fn fields_by_name(raw: Seq<(Seq<char>, ObjectValue)>) -> Seq<(Seq<char>, ObjectValue)>
    decreases raw.len(),
{
    if raw.len() == 0 {
        Seq::empty()
    } else {
        insert_field(fields_by_name(raw.drop_last()), raw.last().0, raw.last().1)
    }
}

/// The named fields `fs`, names as their characters.
pub open spec fn named_view(fs: Seq<(String, ObjectValue)>) -> Seq<(Seq<char>, ObjectValue)> {
    fs.map_values(|f: (String, ObjectValue)| (f.0@, f.1))
}

/// The events `es` are the value `o`, as a reader builds it: a value of a
/// primitive type from its tag; a string in any of its forms; bytes as their
/// length and the bytes; an option, a struct, a variant, a tuple, an array or a
/// map as its tag and its contents, an array or a map with a length as that many
/// values or pairs, with none as values or pairs up to an end marker.
pub open spec fn decodes(es: Seq<WriteEvent>, o: ObjectValue) -> bool
    decreases es.len(), 1int,
{
    if es.len() == 0 {
        false
    } else {
        let body = es.drop_first();
        match o {
            ObjectValue::Primitive(p) => es == seq![WriteEvent::Tag(p.spec_tag_of())],
            ObjectValue::String(s) => string_decodes(es, s@),
            ObjectValue::Bytes(b) => es == seq![
                WriteEvent::Tag(TagModel::Bytes(b.len())),
                WriteEvent::Raw(b@),
            ],
            ObjectValue::Option(None) => es == seq![
                WriteEvent::Tag(TagModel::Option(OptionTag::Absent)),
            ],
            ObjectValue::Option(Some(v)) => es[0] == WriteEvent::Tag(
                TagModel::Option(OptionTag::Present),
            ) && decodes(body, *v),
            ObjectValue::Struct(sv) => match es[0] {
                WriteEvent::Tag(TagModel::Struct(st)) => struct_decodes(body, st, sv),
                _ => false,
            },
            ObjectValue::Enum(name, sv) => match es[0] {
                WriteEvent::Tag(TagModel::Variant(n, st)) => n == name@ && struct_decodes(
                    body,
                    st,
                    sv,
                ),
                _ => false,
            },
            ObjectValue::Tuple(vs) => es[0] == WriteEvent::Tag(TagModel::Tuple(vs.len()))
                && items_decode(body, vs@),
            ObjectValue::Array(vs) => match es[0] {
                WriteEvent::Tag(TagModel::Array(len)) => counted_items_decode(body, len, vs@),
                _ => false,
            },
            ObjectValue::Mapping(ps) => match es[0] {
                WriteEvent::Tag(TagModel::Mapping(len)) => counted_pairs_decode(body, len, ps@),
                _ => false,
            },
        }
    }
}

/// The events `es` after a struct or variant tag of shape `st` are the fields
/// `sv`.
pub open spec fn struct_decodes(es: Seq<WriteEvent>, st: StructTag, sv: StructValue) -> bool
    decreases es.len(), 4 + match st {
        StructTag::Tuple { len } => len as int,
        StructTag::Struct { len } => len as int,
        _ => 0,
    },
{
    match (st, sv) {
        (StructTag::Unit, StructValue::Unit) => es.len() == 0,
        (StructTag::Newtype, StructValue::Newtype(v)) => decodes(es, *v),
        (StructTag::Tuple { len }, StructValue::Tuple(vs)) => len == vs.len() && items_decode(
            es,
            vs@,
        ),
        (StructTag::Struct { len }, StructValue::Struct(fs)) => exists|
            raw: Seq<(Seq<char>, ObjectValue)>,
        |
            #![trigger fields_by_name(raw)]
            raw.len() == len && fields_decode(es, raw) && named_view(fs@) == fields_by_name(raw),
        _ => false,
    }
}

/// The events `es` are the values `vs` of an array of length `len`: that many
/// values, or, with no length, values up to an end marker.
pub open spec fn counted_items_decode(es: Seq<WriteEvent>, len: Option<usize>, vs: Seq<ObjectValue>) -> bool
    decreases es.len(), vs.len() + 4,
{
    match len {
        Some(n) => n == vs.len() && items_decode(es, vs),
        None => es.len() > 0 && es.last() == WriteEvent::End && items_decode(es.drop_last(), vs),
    }
}

/// The events `es` are the pairs `ps` of a map of length `len`: that many
/// pairs, or, with no length, pairs up to an end marker.
pub open spec fn counted_pairs_decode(
    es: Seq<WriteEvent>,
    len: Option<usize>,
    ps: Seq<(ObjectValue, ObjectValue)>,
) -> bool
    decreases es.len(), ps.len() + 4,
{
    match len {
        Some(n) => n == ps.len() && pairs_decode(es, ps),
        None => es.len() > 0 && es.last() == WriteEvent::End && pairs_decode(es.drop_last(), ps),
    }
}

/// The events `es` are the values `vs`, one after another.
pub open spec fn items_decode(es: Seq<WriteEvent>, vs: Seq<ObjectValue>) -> bool
    decreases es.len(), vs.len() + 3,
{
    if vs.len() == 0 {
        es.len() == 0
    } else {
        exists|k: int|
            #![trigger es.take(k), es.skip(k)]
            0 <= k <= es.len() && items_decode(es.take(k), vs.drop_last()) && decodes(
                es.skip(k),
                vs.last(),
            )
    }
}

/// The events `es` are the pairs `ps`, one after another, each key before its
/// value.
pub open spec fn pairs_decode(es: Seq<WriteEvent>, ps: Seq<(ObjectValue, ObjectValue)>) -> bool
    decreases es.len(), ps.len() + 3,
{
    if ps.len() == 0 {
        es.len() == 0
    } else {
        exists|k: int, j: int|
            #![trigger es.take(k), es.subrange(k, j), es.skip(j)]
            0 <= k <= j <= es.len() && pairs_decode(es.take(k), ps.drop_last()) && decodes(
                es.subrange(k, j),
                ps.last().0,
            ) && decodes(es.skip(j), ps.last().1)
    }
}

/// The events `es` are the named fields `raw`, one after another, each a field
/// name and then its value.
pub open spec fn fields_decode(es: Seq<WriteEvent>, raw: Seq<(Seq<char>, ObjectValue)>) -> bool
    decreases es.len(), raw.len() + 3,
{
    if raw.len() == 0 {
        es.len() == 0
    } else {
        exists|k: int|
            #![trigger es.take(k), es.skip(k + 1)]
            0 <= k < es.len() && fields_decode(es.take(k), raw.drop_last()) && es[k]
                == WriteEvent::Str(raw.last().0) && decodes(es.skip(k + 1), raw.last().1)
    }
}

/// The reader `b` is `a`, or comes after it.
pub open spec fn not_behind(a: ReaderModel, b: ReaderModel) -> bool {
    b == a || progressed(a, b)
}

proof fn lemma_not_behind_trans(a: ReaderModel, b: ReaderModel, c: ReaderModel)
    requires
        not_behind(a, b),
        not_behind(b, c),
    ensures
        not_behind(a, c),
        progressed(a, b) || progressed(b, c) ==> progressed(a, c),
{
    if a != b && b != c {
        lemma_progress_trans(a, b, c);
    }
}

/// Reading one run of events and then another reads them one after another.
pub(crate) proof fn lemma_read_all_concat(
    r: ReaderModel,
    a: Seq<WriteEvent>,
    r1: ReaderModel,
    b: Seq<WriteEvent>,
    r2: ReaderModel,
)
    requires
        read_all(r, a) == Some((a, r1)),
        read_all(r1, b) == Some((b, r2)),
    ensures
        read_all(r, a + b) == Some((a + b, r2)),
    decreases a.len(),
{
    if a.len() == 0 {
        assert(a + b =~= b);
    } else {
        let (e1, m) = read_step(r, a[0]).unwrap();
        let (rest, _) = read_all(m, a.drop_first()).unwrap();
        assert((seq![e1] + rest).drop_first() =~= rest);
        assert(rest == a.drop_first());
        lemma_read_all_concat(m, a.drop_first(), r1, b, r2);
        assert((a + b)[0] == a[0]);
        assert((a + b).drop_first() =~= a.drop_first() + b);
        assert(seq![e1] + (a.drop_first() + b) =~= a + b);
    }
}

/// Reading one tag is reading the next tag.
pub(crate) proof fn lemma_read_tag_event(r: ReaderModel)
    requires
        r.next_tag() is Ok,
    ensures
        read_all(r, seq![WriteEvent::Tag(r.next_tag().unwrap().0)]) == Some(
            (seq![WriteEvent::Tag(r.next_tag().unwrap().0)], r.next_tag().unwrap().1),
        ),
{
    lemma_read_one(r, WriteEvent::Tag(r.next_tag().unwrap().0), r.next_tag().unwrap().1);
}

/// Reading one event `e` that the reader reads as it is.
pub(crate) proof fn lemma_read_one(r: ReaderModel, e: WriteEvent, r2: ReaderModel)
    requires
        read_step(r, e) == Some((e, r2)),
    ensures
        read_all(r, seq![e]) == Some((seq![e], r2)),
{
    reveal_with_fuel(read_all, 2);
    assert(seq![e].drop_first() =~= Seq::<WriteEvent>::empty());
    assert(seq![e] + Seq::<WriteEvent>::empty() =~= seq![e]);
}

/// Where looking for an end marker finds a tag, what starts with a tag reads
/// as it would have.
pub(crate) proof fn lemma_read_all_after_peek(cur: ReaderModel, mid: ReaderModel, es: Seq<WriteEvent>)
    requires
        cur.wf(),
        cur.next_seq_end() == Ok::<(bool, ReaderModel), ReadError>((false, mid)),
        es.len() > 0,
        es[0] is Tag,
    ensures
        read_all(cur, es) == read_all(mid, es),
{
    lemma_seq_end_then_tag(cur);
}

/// The events of a value start with a tag.
proof fn lemma_decodes_first(es: Seq<WriteEvent>, o: ObjectValue)
    requires
        decodes(es, o),
    ensures
        es.len() > 0,
        es[0] is Tag,
{
}

/// Reading a field name moves the reader on.
proof fn lemma_next_str_progress(r: ReaderModel)
    requires
        r.next_str() is Ok,
    ensures
        progressed(r, r.next_str().unwrap().1),
{
}

/// Reading an end marker moves the reader on.
proof fn lemma_seq_end_true_progress(r: ReaderModel)
    requires
        r.next_seq_end() matches Ok((b, _)) && b,
    ensures
        progressed(r, r.next_seq_end().unwrap().1),
{
}

/// The measure of a reader's peek, for termination.
pub open spec fn peek_measure(r: ReaderModel) -> int {
    if r.peeked {
        1
    } else {
        0
    }
}

/// `es` was read from `r0` to `r1`, as it is, and is the value `o`.
pub open spec fn read_as(r0: ReaderModel, es: Seq<WriteEvent>, o: ObjectValue, r1: ReaderModel) -> bool {
    &&& decodes(es, o)
    &&& read_all(r0, es) == Some((es, r1))
}

/// The events `es` are read from `r` as they are.
pub open spec fn reads_through(r: ReaderModel, es: Seq<WriteEvent>) -> bool {
    &&& read_all(r, es) is Some
    &&& read_all(r, es).unwrap().0 == es
}

/// Reads the values of a tuple.
fn read_items(tuple: TupleReader) -> (r: ReadResult<Vec<ObjectValue>>)
    ensures
        (exists|es: Seq<WriteEvent>, vs: Seq<ObjectValue>|
            #[trigger] items_decode(es, vs) && vs.len() == tuple.remaining && reads_through(
                (*old(tuple.reader))@,
                es,
            )) ==> r is Ok,
        r matches Ok(vs) ==> {
            &&& vs.len() == tuple.remaining
            &&& not_behind((*old(tuple.reader))@, (*final(tuple.reader))@)
            &&& exists|es: Seq<WriteEvent>|
                #[trigger] items_decode(es, vs@) && read_all((*old(tuple.reader))@, es) == Some(
                    (es, (*final(tuple.reader))@),
                )
        },
    decreases
        usize::MAX - (*tuple.reader)@.pos,
        (*tuple.reader)@.repeat,
        peek_measure((*tuple.reader)@),
        1int,
{
    let ghost r0 = (*tuple.reader)@;
    let ghost owed = exists|es: Seq<WriteEvent>, vs: Seq<ObjectValue>|
        #[trigger] items_decode(es, vs) && vs.len() == tuple.remaining && reads_through(r0, es);
    let n = tuple.remaining;
    let mut tr = tuple;
    let mut vec: Vec<ObjectValue> = Vec::new();
    let ghost mut done: Seq<WriteEvent> = Seq::empty();
    proof {
        assert(read_all(r0, done) == Some((done, r0)));
        assert(vec@ =~= Seq::<ObjectValue>::empty());
    }
    loop
        invariant
            *final(tr.reader) == *final(tuple.reader),
            r0 == (*old(tuple.reader))@,
            n == tuple.remaining,
            vec.len() + tr.remaining == n,
            read_all(r0, done) == Some((done, (*tr.reader)@)),
            items_decode(done, vec@),
            not_behind(r0, (*tr.reader)@),
            owed ==> exists|ws: Seq<WriteEvent>, vs: Seq<ObjectValue>|
                #[trigger] items_decode(ws, vs) && vs.len() == tr.remaining && reads_through(
                    (*tr.reader)@,
                    ws,
                ),
            owed == exists|es: Seq<WriteEvent>, vs: Seq<ObjectValue>|
                #[trigger] items_decode(es, vs) && vs.len() == tuple.remaining && reads_through(r0, es),
        ensures
            *final(tr.reader) == *final(tuple.reader),
            vec.len() == n,
            read_all(r0, done) == Some((done, (*tr.reader)@)),
            items_decode(done, vec@),
            not_behind(r0, (*tr.reader)@),
        decreases tr.remaining,
    {
        let ghost cur = (*tr.reader)@;
        let ghost (ws, wvs) = choose|ws: Seq<WriteEvent>, vs: Seq<ObjectValue>|
            #[trigger] items_decode(ws, vs) && vs.len() == tr.remaining && reads_through(cur, ws);
        let ghost mut k: int = 0;
        let ghost mut mid = cur;
        match tr.read_value() {
            Some(vr) => {
                vr.reader.well_formed();
                proof {
                    if owed {
                        k = lemma_items_front(ws, wvs);
                        assert(ws.take(k) + ws.skip(k) =~= ws);
                        mid = lemma_read_all_split(cur, ws.take(k), ws.skip(k));
                        assert(read_as(cur, ws.take(k), wvs[0], mid));
                    }
                }
                let v = match read_object_value(vr) {
                    Ok(v) => v,
                    Err(e) => {
                        return Err(e);
                    },
                };
                let ghost new = (*tr.reader)@;
                let ghost es = choose|es: Seq<WriteEvent>| #[trigger] read_as(cur, es, v, new);
                proof {
                    if owed {
                        lemma_read_as_unique(cur, ws.take(k), wvs[0], mid, es, v, new);
                        assert(items_decode(ws.skip(k), wvs.drop_first()) && wvs.drop_first().len()
                            == tr.remaining && reads_through(new, ws.skip(k)));
                    }
                }
                proof {
                    lemma_read_all_concat(r0, done, cur, es, new);
                    let d2 = done + es;
                    assert(d2.take(done.len() as int) =~= done);
                    assert(d2.skip(done.len() as int) =~= es);
                    assert(vec@.push(v).drop_last() =~= vec@);
                    lemma_not_behind_trans(r0, cur, new);
                    done = d2;
                }
                vec.push(v);
            },
            None => {
                break;
            },
        }
    }
    Ok(vec)
}

/// The fields `sv` of a struct or variant of shape `st` were read from `r0` to
/// `r1`.
pub open spec fn struct_read(r0: ReaderModel, st: StructTag, sv: StructValue, r1: ReaderModel) -> bool {
    &&& not_behind(r0, r1)
    &&& exists|es: Seq<WriteEvent>|
        #[trigger] struct_decodes(es, st, sv) && read_all(r0, es) == Some((es, r1))
}

/// The values `vs` of an array of length `len` were read from `r0` to `r1`.
pub open spec fn array_read(r0: ReaderModel, len: Option<usize>, vs: Seq<ObjectValue>, r1: ReaderModel) -> bool {
    exists|es: Seq<WriteEvent>|
        #[trigger] counted_items_decode(es, len, vs) && read_all(r0, es) == Some((es, r1))
}

/// The pairs `ps` of a map of length `len` were read from `r0` to `r1`.
pub open spec fn map_read(
    r0: ReaderModel,
    len: Option<usize>,
    ps: Seq<(ObjectValue, ObjectValue)>,
    r1: ReaderModel,
) -> bool {
    exists|es: Seq<WriteEvent>|
        #[trigger] counted_pairs_decode(es, len, ps) && read_all(r0, es) == Some((es, r1))
}

/// One value of an array that is owed: where it starts, once an end marker
/// was looked for, the events of its value, where they end, and the values of
/// the array after it.
proof fn lemma_array_step(
    cur: ReaderModel,
    rem: Option<usize>,
    ws: Seq<WriteEvent>,
    wvs: Seq<ObjectValue>,
) -> (step: (Seq<WriteEvent>, ReaderModel, ReaderModel, Seq<WriteEvent>))
    requires
        cur.wf(),
        counted_items_decode(ws, rem, wvs),
        reads_through(cur, ws),
        wvs.len() > 0,
    ensures
        rem is None ==> cur.next_seq_end() == Ok::<(bool, ReaderModel), ReadError>((false, step.1)),
        rem is Some ==> step.1 == cur,
        read_as(step.1, step.0, wvs[0], step.2),
        counted_items_decode(
            step.3,
            match rem {
                Some(n) => Some((n - 1) as usize),
                None => None,
            },
            wvs.drop_first(),
        ),
        reads_through(step.2, step.3),
{
    let items = if rem is None {
        ws.drop_last()
    } else {
        ws
    };
    let k = lemma_items_front(items, wvs);
    let chunk = items.take(k);
    lemma_decodes_first(chunk, wvs[0]);
    if rem is None {
        let tail = items.skip(k) + seq![WriteEvent::End];
        assert(ws =~= items + seq![WriteEvent::End]);
        assert(ws[0] == chunk[0]);
        assert(read_step(cur, ws[0]) is Some);
        lemma_tag_not_end(cur);
        let m = cur.next_seq_end().unwrap().1;
        lemma_read_all_after_peek(cur, m, ws);
        assert(chunk + tail =~= ws);
        let vend = lemma_read_all_split(m, chunk, tail);
        assert(tail.drop_last() =~= items.skip(k));
        (chunk, m, vend, tail)
    } else {
        let tail = items.skip(k);
        assert(chunk + tail =~= ws);
        let vend = lemma_read_all_split(cur, chunk, tail);
        (chunk, cur, vend, tail)
    }
}

/// Where an array up to an end marker has no more values owed, the end
/// marker comes next.
proof fn lemma_array_end(cur: ReaderModel, ws: Seq<WriteEvent>, wvs: Seq<ObjectValue>)
    requires
        counted_items_decode(ws, None, wvs),
        reads_through(cur, ws),
        wvs.len() == 0,
    ensures
        cur.next_seq_end() matches Ok((b, _)) && b,
{
    assert(ws.drop_last().len() == 0);
    assert(ws =~= seq![WriteEvent::End]);
    assert(read_step(cur, ws[0]) is Some);
}

/// Reads the values of an array.
fn read_array(array: ArrayReader) -> (r: ReadResult<Vec<ObjectValue>>)
    ensures
        (exists|es: Seq<WriteEvent>, vs: Seq<ObjectValue>|
            #[trigger] counted_items_decode(es, array.remaining, vs) && reads_through(
                (*old(array.reader))@,
                es,
            )) ==> r is Ok,
        r matches Ok(vs) ==> {
            &&& not_behind((*old(array.reader))@, (*final(array.reader))@)
            &&& array_read(
                (*old(array.reader))@,
                array.remaining,
                vs@,
                (*final(array.reader))@,
            )
        },
    decreases
        usize::MAX - (*array.reader)@.pos,
        (*array.reader)@.repeat,
        peek_measure((*array.reader)@),
        1int,
{
    let ghost r0 = (*array.reader)@;
    let ghost len = array.remaining;
    let ghost owed = exists|es: Seq<WriteEvent>, vs: Seq<ObjectValue>|
        #[trigger] counted_items_decode(es, len, vs) && reads_through(r0, es);
    let mut ar = array;
    let mut vec: Vec<ObjectValue> = Vec::new();
    let ghost mut done: Seq<WriteEvent> = Seq::empty();
    proof {
        assert(read_all(r0, done) == Some((done, r0)));
        assert(vec@ =~= Seq::<ObjectValue>::empty());
    }
    loop
        invariant_except_break
            match len {
                Some(n) => ar.remaining == Some((n - vec.len()) as usize) && vec.len() <= n,
                None => ar.remaining is None,
            },
            read_all(r0, done) == Some((done, (*ar.reader)@)),
            items_decode(done, vec@),
            not_behind(r0, (*ar.reader)@),
            owed ==> exists|ws: Seq<WriteEvent>, vs: Seq<ObjectValue>|
                #[trigger] counted_items_decode(ws, ar.remaining, vs) && reads_through(
                    (*ar.reader)@,
                    ws,
                ),
        invariant
            *final(ar.reader) == *final(array.reader),
            r0 == (*old(array.reader))@,
            len == array.remaining,
            owed == exists|es: Seq<WriteEvent>, vs: Seq<ObjectValue>|
                #[trigger] counted_items_decode(es, len, vs) && reads_through(r0, es),
        ensures
            *final(ar.reader) == *final(array.reader),
            exists|es: Seq<WriteEvent>|
                #[trigger] counted_items_decode(es, len, vec@) && read_all(r0, es) == Some(
                    (es, (*ar.reader)@),
                ),
            not_behind(r0, (*ar.reader)@),
        decreases
            usize::MAX - (*ar.reader)@.pos,
            (*ar.reader)@.repeat,
            peek_measure((*ar.reader)@),
    {
        ar.reader.well_formed();
        let ghost cur = (*ar.reader)@;
        let ghost rem = ar.remaining;
        let ghost (ws, wvs) = choose|ws: Seq<WriteEvent>, vs: Seq<ObjectValue>|
            #[trigger] counted_items_decode(ws, rem, vs) && reads_through(cur, ws);
        let ghost mut step: (Seq<WriteEvent>, ReaderModel, ReaderModel, Seq<WriteEvent>) = (
            ws,
            cur,
            cur,
            ws,
        );
        proof {
            if owed {
                if wvs.len() > 0 {
                    step = lemma_array_step(cur, rem, ws, wvs);
                } else if rem is None {
                    lemma_array_end(cur, ws, wvs);
                }
            }
        }
        match ar.read_value() {
            Ok(Some(vr)) => {
                let ghost mid = (*vr.reader)@;
                vr.reader.well_formed();
                proof {
                    lemma_seq_end_progress(cur);
                }
                let v = match read_object_value(vr) {
                    Ok(v) => v,
                    Err(e) => {
                        return Err(e);
                    },
                };
                ar.reader.well_formed();
                let ghost new = (*ar.reader)@;
                let ghost es = choose|es: Seq<WriteEvent>| #[trigger] read_as(mid, es, v, new);
                proof {
                    if owed {
                        lemma_read_as_unique(mid, step.0, wvs[0], step.2, es, v, new);
                    }
                }
                proof {
                    lemma_decodes_first(es, v);
                    if len is None {
                        lemma_read_all_after_peek(cur, mid, es);
                    }
                    lemma_read_all_concat(r0, done, cur, es, new);
                    let d2 = done + es;
                    assert(d2.take(done.len() as int) =~= done);
                    assert(d2.skip(done.len() as int) =~= es);
                    assert(vec@.push(v).drop_last() =~= vec@);
                    lemma_not_behind_trans(cur, mid, new);
                    lemma_not_behind_trans(r0, cur, new);
                    done = d2;
                }
                vec.push(v);
            },
            Ok(None) => {
                proof {
                    match len {
                        Some(n) => {
                            assert(counted_items_decode(done, len, vec@));
                        },
                        None => {
                            let new = (*ar.reader)@;
                            lemma_seq_end_true_progress(cur);
                            lemma_read_one(cur, WriteEvent::End, new);
                            lemma_read_all_concat(r0, done, cur, seq![WriteEvent::End], new);
                            let d2 = done + seq![WriteEvent::End];
                            assert(d2.drop_last() =~= done);
                            assert(counted_items_decode(d2, len, vec@));
                            lemma_not_behind_trans(r0, cur, new);
                        },
                    }
                }
                break;
            },
            Err(e) => {
                return Err(e);
            },
        }
    }
    let ghost es = choose|es: Seq<WriteEvent>|
        #[trigger] counted_items_decode(es, len, vec@) && read_all(r0, es) == Some((es, (*ar.reader)@));
    assert(counted_items_decode(es, array.remaining, vec@));
    assert(array_read(r0, array.remaining, vec@, (*ar.reader)@));
    Ok(vec)
}

/// One pair of a map that is owed: where it starts, once an end marker was
/// looked for, the events of its key, where they end, the events of its value,
/// where they end, and the pairs of the map after it.
proof fn lemma_pairs_step(
    cur: ReaderModel,
    rem: Option<usize>,
    ws: Seq<WriteEvent>,
    wps: Seq<(ObjectValue, ObjectValue)>,
) -> (step: (Seq<WriteEvent>, ReaderModel, ReaderModel, Seq<WriteEvent>, ReaderModel, Seq<WriteEvent>))
    requires
        cur.wf(),
        counted_pairs_decode(ws, rem, wps),
        reads_through(cur, ws),
        wps.len() > 0,
    ensures
        rem is None ==> cur.next_seq_end() == Ok::<(bool, ReaderModel), ReadError>((false, step.1)),
        rem is Some ==> step.1 == cur,
        read_as(step.1, step.0, wps[0].0, step.2),
        read_as(step.2, step.3, wps[0].1, step.4),
        counted_pairs_decode(
            step.5,
            match rem {
                Some(n) => Some((n - 1) as usize),
                None => None,
            },
            wps.drop_first(),
        ),
        reads_through(step.4, step.5),
{
    let pairs = if rem is None {
        ws.drop_last()
    } else {
        ws
    };
    let (k, j) = lemma_pairs_front(pairs, wps);
    let key = pairs.take(k);
    let val = pairs.subrange(k, j);
    lemma_decodes_first(key, wps[0].0);
    let (m, tail) = if rem is None {
        let tail = pairs.skip(j) + seq![WriteEvent::End];
        assert(ws =~= pairs + seq![WriteEvent::End]);
        assert(ws[0] == key[0]);
        assert(read_step(cur, ws[0]) is Some);
        lemma_tag_not_end(cur);
        let m = cur.next_seq_end().unwrap().1;
        lemma_read_all_after_peek(cur, m, ws);
        assert(tail.drop_last() =~= pairs.skip(j));
        (m, tail)
    } else {
        (cur, pairs.skip(j))
    };
    assert(key + (val + tail) =~= ws);
    let kend = lemma_read_all_split(m, key, val + tail);
    let vend = lemma_read_all_split(kend, val, tail);
    (key, m, kend, val, vend, tail)
}

/// Where a map up to an end marker has no more pairs owed, the end marker
/// comes next.
proof fn lemma_pairs_end(cur: ReaderModel, ws: Seq<WriteEvent>, wps: Seq<(ObjectValue, ObjectValue)>)
    requires
        counted_pairs_decode(ws, None, wps),
        reads_through(cur, ws),
        wps.len() == 0,
    ensures
        cur.next_seq_end() matches Ok((b, _)) && b,
{
    assert(ws.drop_last().len() == 0);
    assert(ws =~= seq![WriteEvent::End]);
    assert(read_step(cur, ws[0]) is Some);
}

/// Reads the pairs of a map.
fn read_pairs(map: MapReader) -> (r: ReadResult<Vec<(ObjectValue, ObjectValue)>>)
    ensures
        (exists|es: Seq<WriteEvent>, ps: Seq<(ObjectValue, ObjectValue)>|
            #[trigger] counted_pairs_decode(es, map.remaining, ps) && reads_through(
                (*old(map.reader))@,
                es,
            )) ==> r is Ok,
        r matches Ok(ps) ==> {
            &&& not_behind((*old(map.reader))@, (*final(map.reader))@)
            &&& map_read((*old(map.reader))@, map.remaining, ps@, (*final(map.reader))@)
        },
    decreases
        usize::MAX - (*map.reader)@.pos,
        (*map.reader)@.repeat,
        peek_measure((*map.reader)@),
        1int,
{
    let ghost r0 = (*map.reader)@;
    let ghost len = map.remaining;
    let ghost owed = exists|es: Seq<WriteEvent>, ps: Seq<(ObjectValue, ObjectValue)>|
        #[trigger] counted_pairs_decode(es, len, ps) && reads_through(r0, es);
    let mut mr = map;
    let mut vec: Vec<(ObjectValue, ObjectValue)> = Vec::new();
    let ghost mut done: Seq<WriteEvent> = Seq::empty();
    proof {
        assert(read_all(r0, done) == Some((done, r0)));
        assert(vec@ =~= Seq::<(ObjectValue, ObjectValue)>::empty());
    }
    loop
        invariant_except_break
            match len {
                Some(n) => mr.remaining == Some((n - vec.len()) as usize) && vec.len() <= n,
                None => mr.remaining is None,
            },
            read_all(r0, done) == Some((done, (*mr.reader)@)),
            pairs_decode(done, vec@),
            not_behind(r0, (*mr.reader)@),
            owed ==> exists|ws: Seq<WriteEvent>, ps: Seq<(ObjectValue, ObjectValue)>|
                #[trigger] counted_pairs_decode(ws, mr.remaining, ps) && reads_through(
                    (*mr.reader)@,
                    ws,
                ),
        invariant
            *final(mr.reader) == *final(map.reader),
            r0 == (*old(map.reader))@,
            len == map.remaining,
            owed == exists|es: Seq<WriteEvent>, ps: Seq<(ObjectValue, ObjectValue)>|
                #[trigger] counted_pairs_decode(es, len, ps) && reads_through(r0, es),
        ensures
            *final(mr.reader) == *final(map.reader),
            exists|es: Seq<WriteEvent>|
                #[trigger] counted_pairs_decode(es, len, vec@) && read_all(r0, es) == Some(
                    (es, (*mr.reader)@),
                ),
            not_behind(r0, (*mr.reader)@),
        decreases
            usize::MAX - (*mr.reader)@.pos,
            (*mr.reader)@.repeat,
            peek_measure((*mr.reader)@),
    {
        mr.reader.well_formed();
        let ghost cur = (*mr.reader)@;
        let ghost rem = mr.remaining;
        let ghost (ws, wps) = choose|ws: Seq<WriteEvent>, ps: Seq<(ObjectValue, ObjectValue)>|
            #[trigger] counted_pairs_decode(ws, rem, ps) && reads_through(cur, ws);
        let ghost mut step: (Seq<WriteEvent>, ReaderModel, ReaderModel, Seq<WriteEvent>, ReaderModel, Seq<WriteEvent>) = (
            ws,
            cur,
            cur,
            ws,
            cur,
            ws,
        );
        proof {
            if owed {
                if wps.len() > 0 {
                    step = lemma_pairs_step(cur, rem, ws, wps);
                } else if rem is None {
                    lemma_pairs_end(cur, ws, wps);
                }
            }
        }
        match mr.read_pair() {
            Ok(Some(pr)) => {
                let mut pr = pr;
                let ghost mid = (*pr.reader)@;
                pr.reader.well_formed();
                proof {
                    lemma_seq_end_progress(cur);
                }
                let kr = pr.read_key();
                let k = match read_object_value(kr) {
                    Ok(k) => k,
                    Err(e) => {
                        return Err(e);
                    },
                };
                pr.reader.well_formed();
                let ghost mid2 = (*pr.reader)@;
                proof {
                    if owed {
                        let ek = choose|es: Seq<WriteEvent>| #[trigger] read_as(mid, es, k, mid2);
                        lemma_read_as_unique(mid, step.0, wps[0].0, step.2, ek, k, mid2);
                    }
                }
                let v = match read_object_value(pr.read_value()) {
                    Ok(v) => v,
                    Err(e) => {
                        return Err(e);
                    },
                };
                mr.reader.well_formed();
                let ghost new = (*mr.reader)@;
                let ghost ek = choose|es: Seq<WriteEvent>| #[trigger] read_as(mid, es, k, mid2);
                let ghost ev = choose|es: Seq<WriteEvent>| #[trigger] read_as(mid2, es, v, new);
                proof {
                    if owed {
                        lemma_read_as_unique(mid2, step.3, wps[0].1, step.4, ev, v, new);
                    }
                }
                proof {
                    lemma_decodes_first(ek, k);
                    if len is None {
                        lemma_read_all_after_peek(cur, mid, ek);
                    }
                    lemma_read_all_concat(r0, done, cur, ek, mid2);
                    lemma_read_all_concat(r0, done + ek, mid2, ev, new);
                    let d2 = done + ek + ev;
                    let a = done.len() as int;
                    let b = (done.len() + ek.len()) as int;
                    assert(d2.take(a) =~= done);
                    assert(d2.subrange(a, b) =~= ek);
                    assert(d2.skip(b) =~= ev);
                    assert(vec@.push((k, v)).drop_last() =~= vec@);
                    lemma_not_behind_trans(cur, mid, mid2);
                    lemma_not_behind_trans(cur, mid2, new);
                    lemma_not_behind_trans(r0, cur, new);
                    done = d2;
                }
                vec.push((k, v));
            },
            Ok(None) => {
                proof {
                    match len {
                        Some(n) => {
                            assert(counted_pairs_decode(done, len, vec@));
                        },
                        None => {
                            let new = (*mr.reader)@;
                            lemma_seq_end_true_progress(cur);
                            lemma_read_one(cur, WriteEvent::End, new);
                            lemma_read_all_concat(r0, done, cur, seq![WriteEvent::End], new);
                            let d2 = done + seq![WriteEvent::End];
                            assert(d2.drop_last() =~= done);
                            assert(counted_pairs_decode(d2, len, vec@));
                            lemma_not_behind_trans(r0, cur, new);
                        },
                    }
                }
                break;
            },
            Err(e) => {
                return Err(e);
            },
        }
    }
    let ghost es = choose|es: Seq<WriteEvent>|
        #[trigger] counted_pairs_decode(es, len, vec@) && read_all(r0, es) == Some((es, (*mr.reader)@));
    assert(counted_pairs_decode(es, map.remaining, vec@));
    assert(map_read(r0, map.remaining, vec@, (*mr.reader)@));
    Ok(vec)
}

/// A field name found at one position of a prefix is found there in the whole.
proof fn lemma_index_of_name_prefix(fs: Seq<(Seq<char>, ObjectValue)>, n: int, name: Seq<char>)
    requires
        0 <= n <= fs.len(),
        index_of_name(fs.take(n), name) is Some,
    ensures
        index_of_name(fs, name) == index_of_name(fs.take(n), name),
    decreases fs.len() - n,
{
    if n < fs.len() {
        assert(fs.take(n + 1).drop_last() =~= fs.take(n));
        lemma_index_of_name_prefix(fs, n + 1, name);
    } else {
        assert(fs.take(n) =~= fs);
    }
}

/// The position of the field named `name`, the first one with that name.
fn find_field(fields: &Vec<(String, ObjectValue)>, name: &str) -> (r: Option<usize>)
    ensures
        r matches Some(i) ==> i < fields.len() && index_of_name(named_view(fields@), name@) == Some(
            i as int,
        ),
        r is None ==> index_of_name(named_view(fields@), name@) is None,
{
    let ghost nv = named_view(fields@);
    let mut i: usize = 0;
    assert(nv.take(0) =~= Seq::<(Seq<char>, ObjectValue)>::empty());
    while i < fields.len()
        invariant
            i <= fields.len(),
            nv == named_view(fields@),
            index_of_name(nv.take(i as int), name@) is None,
        decreases fields.len() - i,
    {
        assert(nv.take(i + 1).drop_last() =~= nv.take(i as int));
        assert(nv[i as int].0 == fields@[i as int].0@);
        if str_eq(fields[i].0.as_str(), name) {
            proof {
                lemma_index_of_name_prefix(nv, i + 1, name@);
            }
            return Some(i);
        }
        i = i + 1;
    }
    assert(nv.take(i as int) =~= nv);
    None
}

/// One field that is owed: where its value starts, the events of its value,
/// where they end, and the fields after it.
proof fn lemma_fields_step(
    cur: ReaderModel,
    ws: Seq<WriteEvent>,
    wraw: Seq<(Seq<char>, ObjectValue)>,
) -> (step: (ReaderModel, Seq<WriteEvent>, ReaderModel, Seq<WriteEvent>))
    requires
        fields_decode(ws, wraw),
        reads_through(cur, ws),
        wraw.len() > 0,
    ensures
        cur.next_str() == Ok::<(Seq<char>, ReaderModel), ReadError>((wraw[0].0, step.0)),
        read_as(step.0, step.1, wraw[0].1, step.2),
        fields_decode(step.3, wraw.drop_first()),
        reads_through(step.2, step.3),
{
    let k = lemma_fields_front(ws, wraw);
    let chunk = ws.subrange(1, k);
    let tail = ws.skip(k);
    assert(seq![ws[0]] + (chunk + tail) =~= ws);
    let m = lemma_read_all_split(cur, seq![ws[0]], chunk + tail);
    reveal_with_fuel(read_all, 2);
    assert(seq![ws[0]].drop_first() =~= Seq::<WriteEvent>::empty());
    let vend = lemma_read_all_split(m, chunk, tail);
    (m, chunk, vend, tail)
}

/// Reads the named fields of a struct or variant: one field per name, with the
/// value read last for it.
fn read_fields(st: StructReader) -> (r: ReadResult<Vec<(String, ObjectValue)>>)
    ensures
        (exists|es: Seq<WriteEvent>, raw: Seq<(Seq<char>, ObjectValue)>|
            #[trigger] fields_decode(es, raw) && raw.len() == st.remaining && reads_through(
                (*old(st.reader))@,
                es,
            )) ==> r is Ok,
        r matches Ok(fs) ==> {
            &&& not_behind((*old(st.reader))@, (*final(st.reader))@)
            &&& exists|es: Seq<WriteEvent>, raw: Seq<(Seq<char>, ObjectValue)>|
                #[trigger] fields_decode(es, raw) && raw.len() == st.remaining && named_view(fs@)
                    == fields_by_name(raw) && read_all((*old(st.reader))@, es) == Some(
                    (es, (*final(st.reader))@),
                )
        },
    decreases
        usize::MAX - (*st.reader)@.pos,
        (*st.reader)@.repeat,
        peek_measure((*st.reader)@),
        1int,
{
    let ghost r0 = (*st.reader)@;
    let ghost owed = exists|es: Seq<WriteEvent>, raw: Seq<(Seq<char>, ObjectValue)>|
        #[trigger] fields_decode(es, raw) && raw.len() == st.remaining && reads_through(r0, es);
    let n = st.remaining;
    let mut sr = st;
    let mut vec: Vec<(String, ObjectValue)> = Vec::new();
    let ghost mut done: Seq<WriteEvent> = Seq::empty();
    let ghost mut raw: Seq<(Seq<char>, ObjectValue)> = Seq::empty();
    proof {
        assert(read_all(r0, done) == Some((done, r0)));
        assert(named_view(vec@) =~= Seq::<(Seq<char>, ObjectValue)>::empty());
    }
    loop
        invariant
            *final(sr.reader) == *final(st.reader),
            r0 == (*old(st.reader))@,
            n == st.remaining,
            raw.len() + sr.remaining == n,
            read_all(r0, done) == Some((done, (*sr.reader)@)),
            fields_decode(done, raw),
            named_view(vec@) == fields_by_name(raw),
            not_behind(r0, (*sr.reader)@),
            owed ==> exists|ws: Seq<WriteEvent>, wraw: Seq<(Seq<char>, ObjectValue)>|
                #[trigger] fields_decode(ws, wraw) && wraw.len() == sr.remaining && reads_through(
                    (*sr.reader)@,
                    ws,
                ),
            owed == exists|es: Seq<WriteEvent>, raw: Seq<(Seq<char>, ObjectValue)>|
                #[trigger] fields_decode(es, raw) && raw.len() == st.remaining && reads_through(r0, es),
        ensures
            *final(sr.reader) == *final(st.reader),
            raw.len() == n,
            read_all(r0, done) == Some((done, (*sr.reader)@)),
            fields_decode(done, raw),
            named_view(vec@) == fields_by_name(raw),
            not_behind(r0, (*sr.reader)@),
        decreases sr.remaining,
    {
        let ghost cur = (*sr.reader)@;
        let ghost (ws, wraw) = choose|ws: Seq<WriteEvent>, wraw: Seq<(Seq<char>, ObjectValue)>|
            #[trigger] fields_decode(ws, wraw) && wraw.len() == sr.remaining && reads_through(cur, ws);
        let ghost mut step: (ReaderModel, Seq<WriteEvent>, ReaderModel, Seq<WriteEvent>) = (
            cur,
            ws,
            cur,
            ws,
        );
        proof {
            if owed && wraw.len() > 0 {
                step = lemma_fields_step(cur, ws, wraw);
            }
        }
        match sr.read_field() {
            Ok(Some((name, vr))) => {
                let ghost mid = (*vr.reader)@;
                vr.reader.well_formed();
                proof {
                    lemma_next_str_progress(cur);
                }
                let v = match read_object_value(vr) {
                    Ok(v) => v,
                    Err(e) => {
                        return Err(e);
                    },
                };
                let ghost new = (*sr.reader)@;
                let ghost es = choose|es: Seq<WriteEvent>| #[trigger] read_as(mid, es, v, new);
                proof {
                    if owed {
                        lemma_read_as_unique(mid, step.1, wraw[0].1, step.2, es, v, new);
                        assert(wraw.drop_first().len() == sr.remaining);
                    }
                }
                let ghost old_raw = raw;
                proof {
                    let head = seq![WriteEvent::Str(name@)];
                    lemma_read_one(cur, WriteEvent::Str(name@), mid);
                    lemma_read_all_concat(r0, done, cur, head, mid);
                    lemma_read_all_concat(r0, done + head, mid, es, new);
                    let d2 = done + head + es;
                    let k = done.len() as int;
                    assert(d2.take(k) =~= done);
                    assert(d2[k] == WriteEvent::Str(name@));
                    assert(d2.skip(k + 1) =~= es);
                    let raw2 = raw.push((name@, v));
                    assert(raw2.drop_last() =~= raw);
                    assert(fields_decode(d2, raw2));
                    lemma_not_behind_trans(cur, mid, new);
                    lemma_not_behind_trans(r0, cur, new);
                    done = d2;
                    raw = raw2;
                }
                let ghost nv = named_view(vec@);
                let ghost gname = name@;
                let ghost gv = v;
                proof {
                    assert(raw.drop_last() == old_raw);
                    assert(nv == fields_by_name(old_raw));
                    assert(fields_by_name(raw) == insert_field(
                        fields_by_name(raw.drop_last()),
                        gname,
                        gv,
                    ));
                }
                let found = find_field(&vec, name.as_str());
                proof {
                    assert(nv == named_view(vec@));
                }
                match found {
                    Some(i) => {
                        proof {
                            assert(index_of_name(nv, gname) == Some(i as int));
                            assert(insert_field(nv, gname, gv) == nv.update(i as int, (gname, gv)));
                        }
                        vec.set(i, (name, v));
                        proof {
                            assert(named_view(vec@) =~= nv.update(i as int, (gname, gv)));
                        }
                    },
                    None => {
                        proof {
                            assert(index_of_name(nv, gname) is None);
                            assert(insert_field(nv, gname, gv) == nv.push((gname, gv)));
                        }
                        vec.push((name, v));
                        proof {
                            assert(named_view(vec@) =~= nv.push((gname, gv)));
                        }
                    },
                }
            },
            Ok(None) => {
                break;
            },
            Err(e) => {
                return Err(e);
            },
        }
    }
    Ok(vec)
}

/// A tag read and then the events `es` are read as one run.
proof fn lemma_head_then(r0: ReaderModel, t: TagModel, m: ReaderModel, es: Seq<WriteEvent>, fin: ReaderModel)
    requires
        r0.next_tag() == Ok::<(TagModel, ReaderModel), ReadError>((t, m)),
        read_all(m, es) == Some((es, fin)),
        not_behind(m, fin),
    ensures
        read_all(r0, seq![WriteEvent::Tag(t)] + es) == Some((seq![WriteEvent::Tag(t)] + es, fin)),
        (seq![WriteEvent::Tag(t)] + es).drop_first() == es,
        (seq![WriteEvent::Tag(t)] + es)[0] == WriteEvent::Tag(t),
        progressed(r0, fin),
{
    lemma_read_tag_event(r0);
    lemma_read_all_concat(r0, seq![WriteEvent::Tag(t)], m, es, fin);
    assert((seq![WriteEvent::Tag(t)] + es).drop_first() =~= es);
    lemma_next_tag_progress(r0);
    lemma_not_behind_trans(r0, m, fin);
}

/// Named fields read as `raw` make the fields of a struct of their number.
proof fn lemma_struct_fields_decode(
    es: Seq<WriteEvent>,
    len: usize,
    fs: Vec<(String, ObjectValue)>,
    raw: Seq<(Seq<char>, ObjectValue)>,
)
    requires
        raw.len() == len,
        fields_decode(es, raw),
        named_view(fs@) == fields_by_name(raw),
    ensures
        struct_decodes(es, StructTag::Struct { len }, StructValue::Struct(fs)),
{
}

/// Reads the fields of a struct or variant of shape `st`, whose tag left the
/// reader at `m`.
fn read_struct_fields(
    reading: StructReading,
    Ghost(st): Ghost<StructTag>,
    Ghost(m): Ghost<ReaderModel>,
) -> (r: ReadResult<StructValue>)
    requires
        reading.fits(st),
        m.wf(),
        match reading {
            StructReading::Unit => true,
            StructReading::Newtype(x) => (*x.reader)@ == m,
            StructReading::Tuple(x) => (*x.reader)@ == m,
            StructReading::Struct(x) => (*x.reader)@ == m,
        },
    ensures
        (exists|es: Seq<WriteEvent>, sv: StructValue|
            #[trigger] struct_decodes(es, st, sv) && reads_through(m, es)) ==> r is Ok,
        r matches Ok(sv) ==> match reading {
            StructReading::Unit => sv == StructValue::Unit && struct_decodes(Seq::empty(), st, sv),
            StructReading::Newtype(x) => struct_read(m, st, sv, (*final(x.reader))@),
            StructReading::Tuple(x) => struct_read(m, st, sv, (*final(x.reader))@),
            StructReading::Struct(x) => struct_read(m, st, sv, (*final(x.reader))@),
        },
    decreases
        usize::MAX - m.pos,
        m.repeat,
        peek_measure(m),
        2int,
{
    let ghost owed = exists|es: Seq<WriteEvent>, sv: StructValue|
        #[trigger] struct_decodes(es, st, sv) && reads_through(m, es);
    let ghost (wes, wsv) = choose|es: Seq<WriteEvent>, sv: StructValue|
        #[trigger] struct_decodes(es, st, sv) && reads_through(m, es);
    let ghost wend = read_all(m, wes).unwrap().1;
    match reading {
        StructReading::Unit => Ok(StructValue::Unit),
        StructReading::Newtype(vr) => {
            proof {
                if owed {
                    let v = wsv->Newtype_0;
                    assert(read_as(m, wes, *v, wend));
                }
            }
            let v = match read_object_value(vr) {
                Ok(v) => v,
                Err(e) => {
                    return Err(e);
                },
            };
            let sv = StructValue::Newtype(Box::new(v));
            proof {
                let fin = (*final(vr.reader))@;
                let es = choose|es: Seq<WriteEvent>| #[trigger] read_as(m, es, v, fin);
                assert(struct_decodes(es, st, sv));
            }
            Ok(sv)
        },
        StructReading::Tuple(tr) => {
            proof {
                if owed {
                    let vs = wsv->Tuple_0;
                    assert(items_decode(wes, vs@) && vs@.len() == tr.remaining);
                }
            }
            let vs = match read_items(tr) {
                Ok(vs) => vs,
                Err(e) => {
                    return Err(e);
                },
            };
            let sv = StructValue::Tuple(vs);
            proof {
                let fin = (*final(tr.reader))@;
                let es = choose|es: Seq<WriteEvent>| #[trigger] items_decode(es, vs@) && read_all(m, es) == Some((es, fin));
                assert(struct_decodes(es, st, sv));
            }
            Ok(sv)
        },
        StructReading::Struct(sr) => {
            proof {
                if owed {
                    let raw = choose|raw: Seq<(Seq<char>, ObjectValue)>|
                        #![trigger fields_by_name(raw)]
                        raw.len() == sr.remaining && fields_decode(wes, raw) && named_view(
                            wsv->Struct_0@,
                        ) == fields_by_name(raw);
                    assert(fields_decode(wes, raw) && raw.len() == sr.remaining);
                }
            }
            let fs = match read_fields(sr) {
                Ok(fs) => fs,
                Err(e) => {
                    return Err(e);
                },
            };
            let sv = StructValue::Struct(fs);
            proof {
                let fin = (*final(sr.reader))@;
                let (es, raw) = choose|es: Seq<WriteEvent>, raw: Seq<(Seq<char>, ObjectValue)>| #[trigger] fields_decode(es, raw) && raw.len() == sr.remaining && named_view(fs@) == fields_by_name(raw) && read_all(m, es) == Some((es, fin));
                lemma_struct_fields_decode(es, sr.remaining, fs, raw);
            }
            Ok(sv)
        },
    }
}

/// A value owed to a reader: its tag comes next, and the rest of its events
/// are read after the tag as they are.
proof fn lemma_value_head(r0: ReaderModel, es: Seq<WriteEvent>, o: ObjectValue, r1: ReaderModel) -> (m: ReaderModel)
    requires
        read_as(r0, es, o, r1),
    ensures
        es.len() > 0,
        es[0] is Tag,
        r0.next_tag() == Ok::<(TagModel, ReaderModel), ReadError>((es[0]->Tag_0, m)),
        read_all(m, es.drop_first()) == Some((es.drop_first(), r1)),
{
    lemma_decodes_first(es, o);
    assert(seq![es[0]] + es.drop_first() =~= es);
    let m = lemma_read_all_split(r0, seq![es[0]], es.drop_first());
    reveal_with_fuel(read_all, 2);
    assert(seq![es[0]].drop_first() =~= Seq::<WriteEvent>::empty());
    m
}

/// What follows the tag of a value, by its tag.
proof fn lemma_value_body(es: Seq<WriteEvent>, o: ObjectValue)
    requires
        decodes(es, o),
    ensures
        es[0] matches WriteEvent::Tag(TagModel::Option(OptionTag::Present)) ==> (o matches ObjectValue::Option(Some(v))
            && decodes(es.drop_first(), *v)),
        es[0] matches WriteEvent::Tag(TagModel::Tuple(n)) ==> (o matches ObjectValue::Tuple(vs)
            && vs@.len() == n && items_decode(es.drop_first(), vs@)),
        es[0] matches WriteEvent::Tag(TagModel::Array(len)) ==> (o matches ObjectValue::Array(vs)
            && counted_items_decode(es.drop_first(), len, vs@)),
        es[0] matches WriteEvent::Tag(TagModel::Mapping(len)) ==> (o matches ObjectValue::Mapping(ps)
            && counted_pairs_decode(es.drop_first(), len, ps@)),
        es[0] matches WriteEvent::Tag(TagModel::Struct(st)) ==> (o matches ObjectValue::Struct(sv)
            && struct_decodes(es.drop_first(), st, sv)),
        es[0] matches WriteEvent::Tag(TagModel::Variant(_, st)) ==> (o matches ObjectValue::Enum(_, sv)
            && struct_decodes(es.drop_first(), st, sv)),
        es[0] matches WriteEvent::Tag(TagModel::StrDirect(n)) ==> es.len() == 2 && (es[1] matches WriteEvent::Raw(b)
            && b.len() == n && valid_utf8(b)),
        es[0] matches WriteEvent::Tag(TagModel::Bytes(n)) ==> es.len() == 2 && (es[1] matches WriteEvent::Raw(b)
            && b.len() == n),
{
    match o {
        ObjectValue::Primitive(p) => {
            assert(es[0] == WriteEvent::Tag(p.spec_tag_of()));
        },
        _ => {},
    }
}

/// Reads a value of any type.
#[verifier::rlimit(100)]
#[verifier::spinoff_prover]
pub fn read_object_value(reader: ValueReader) -> (r: ReadResult<ObjectValue>)
    ensures
        r matches Ok(o) ==> {
            &&& progressed((*old(reader.reader))@, (*final(reader.reader))@)
            &&& exists|es: Seq<WriteEvent>|
                #[trigger] read_as((*old(reader.reader))@, es, o, (*final(reader.reader))@)
        },
        (exists|es: Seq<WriteEvent>, o: ObjectValue, r1: ReaderModel|
            #[trigger] read_as((*old(reader.reader))@, es, o, r1)) ==> r is Ok,
    decreases
        usize::MAX - (*reader.reader)@.pos,
        (*reader.reader)@.repeat,
        peek_measure((*reader.reader)@),
        0int,
{
    reader.reader.well_formed();
    let ghost r0 = (*reader.reader)@;
    let ghost owed = exists|es: Seq<WriteEvent>, o: ObjectValue, r1: ReaderModel|
        #[trigger] read_as(r0, es, o, r1);
    let ghost (wes, wo, wr1) = choose|es: Seq<WriteEvent>, o: ObjectValue, r1: ReaderModel|
        #[trigger] read_as(r0, es, o, r1);
    let ghost wbody = wes.drop_first();
    proof {
        if owed {
            let _ = lemma_value_head(r0, wes, wo, wr1);
            lemma_value_body(wes, wo);
        }
    }
    let reading = match reader.read() {
        Ok(x) => x,
        Err(e) => {
            return Err(e);
        },
    };
    let ghost t = r0.next_tag().unwrap().0;
    let ghost m = r0.next_tag().unwrap().1;
    let ghost head = seq![WriteEvent::Tag(t)];
    proof {
        lemma_next_tag_progress(r0);
        lemma_read_tag_event(r0);
    }
    match reading {
        ValueReading::Primitive(p) => {
            proof {
                assert(read_as(r0, head, ObjectValue::Primitive(p), m));
            }
            Ok(ObjectValue::Primitive(p))
        },
        ValueReading::Option(None) => {
            proof {
                assert(read_as(r0, head, ObjectValue::Option(None), m));
            }
            Ok(ObjectValue::Option(None))
        },
        ValueReading::Option(Some(vr)) => {
            vr.reader.well_formed();
            proof {
                if owed {
                    assert(read_as(m, wbody, *(wo->Option_0->Some_0), wr1));
                }
            }
            let v = match read_object_value(vr) {
                Ok(v) => v,
                Err(e) => {
                    return Err(e);
                },
            };
            let ghost fin = (*final(reader.reader))@;
            let ghost es = choose|es: Seq<WriteEvent>| #[trigger] read_as(m, es, v, fin);
            let o = ObjectValue::Option(Some(Box::new(v)));
            proof {
                lemma_read_all_concat(r0, head, m, es, fin);
                assert((head + es).drop_first() =~= es);
                assert(read_as(r0, head + es, o, fin));
                lemma_progress_trans(r0, m, fin);
            }
            Ok(o)
        },
        ValueReading::Tuple(tr) => {
            tr.reader.well_formed();
            proof {
                if owed {
                    assert(items_decode(wbody, wo->Tuple_0@) && wo->Tuple_0@.len() == tr.remaining
                        && reads_through(m, wbody));
                }
            }
            let vs = match read_items(tr) {
                Ok(vs) => vs,
                Err(e) => {
                    return Err(e);
                },
            };
            let ghost fin = (*final(reader.reader))@;
            let ghost es = choose|es: Seq<WriteEvent>| #[trigger] items_decode(es, vs@) && read_all(m, es) == Some((es, fin));
            let o = ObjectValue::Tuple(vs);
            proof {
                lemma_head_then(r0, t, m, es, fin);
                assert(read_as(r0, head + es, o, fin));
            }
            Ok(o)
        },
        ValueReading::String(sr) => {
            let ghost ty = sr.ty;
            proof {
                if owed {
                    if ty is Direct {
                        assert(wbody[0] == wes[1]);
                        assert(read_step(m, wbody[0]) is Some);
                    }
                }
            }
            let st = match sr.read() {
                Ok(st) => st,
                Err(e) => {
                    return Err(e);
                },
            };
            let ghost fin = (*final(reader.reader))@;
            let o = ObjectValue::String(st);
            proof {
                match ty {
                    StringReaderType::Direct(n) => {
                        let (bytes, m2) = m.next_raw(n as nat).unwrap();
                        lemma_read_one(m, WriteEvent::Raw(bytes), m2);
                        lemma_read_all_concat(r0, head, m, seq![WriteEvent::Raw(bytes)], m2);
                        let es = head + seq![WriteEvent::Raw(bytes)];
                        assert(es[0] == WriteEvent::Tag(t) && es[1] == WriteEvent::Raw(bytes));
                        assert(read_as(r0, es, o, fin));
                    },
                    _ => {
                        assert(read_as(r0, head, o, fin));
                    },
                }
            }
            Ok(o)
        },
        ValueReading::Bytes(br) => {
            proof {
                if owed {
                    assert(wbody[0] == wes[1]);
                    assert(read_step(m, wbody[0]) is Some);
                }
            }
            let b = match br.read() {
                Ok(b) => b,
                Err(e) => {
                    return Err(e);
                },
            };
            let ghost fin = (*final(reader.reader))@;
            let o = ObjectValue::Bytes(b);
            proof {
                lemma_read_one(m, WriteEvent::Raw(b@), fin);
                lemma_read_all_concat(r0, head, m, seq![WriteEvent::Raw(b@)], fin);
                let es = head + seq![WriteEvent::Raw(b@)];
                assert(es =~= seq![WriteEvent::Tag(TagModel::Bytes(b.len())), WriteEvent::Raw(b@)]);
                assert(read_as(r0, es, o, fin));
                lemma_not_behind_trans(r0, m, fin);
            }
            Ok(o)
        },
        ValueReading::Struct(sr) => {
            let ghost st = match t {
                TagModel::Struct(st) => st,
                _ => StructTag::Unit,
            };
            proof {
                if owed {
                    assert(struct_decodes(wbody, st, wo->Struct_0) && reads_through(m, wbody));
                }
            }
            let sv = match read_struct_fields(sr, Ghost(st), Ghost(m)) {
                Ok(sv) => sv,
                Err(e) => {
                    return Err(e);
                },
            };
            let ghost fin = (*final(reader.reader))@;
            let ghost es = choose|es: Seq<WriteEvent>| #[trigger] struct_decodes(es, st, sv) && read_all(m, es) == Some((es, fin));
            let o = ObjectValue::Struct(sv);
            proof {
                lemma_head_then(r0, t, m, es, fin);
                assert(read_as(r0, head + es, o, fin));
            }
            Ok(o)
        },
        ValueReading::Enum(er) => {
            let (name, sr) = match er.read_variant() {
                Ok(x) => x,
                Err(e) => {
                    return Err(e);
                },
            };
            let ghost st = match t {
                TagModel::Variant(_, st) => st,
                _ => StructTag::Unit,
            };
            proof {
                if owed {
                    assert(struct_decodes(wbody, st, wo->Enum_1) && reads_through(m, wbody));
                }
            }
            let sv = match read_struct_fields(sr, Ghost(st), Ghost(m)) {
                Ok(sv) => sv,
                Err(e) => {
                    return Err(e);
                },
            };
            let ghost fin = (*final(reader.reader))@;
            let ghost es = choose|es: Seq<WriteEvent>| #[trigger] struct_decodes(es, st, sv) && read_all(m, es) == Some((es, fin));
            let o = ObjectValue::Enum(name, sv);
            proof {
                lemma_head_then(r0, t, m, es, fin);
                assert(read_as(r0, head + es, o, fin));
            }
            Ok(o)
        },
        ValueReading::Array(ar) => {
            ar.reader.well_formed();
            let ghost len = ar.remaining;
            proof {
                if owed {
                    assert(counted_items_decode(wbody, len, wo->Array_0@) && reads_through(m, wbody));
                }
            }
            let vs = match read_array(ar) {
                Ok(vs) => vs,
                Err(e) => {
                    return Err(e);
                },
            };
            let ghost fin = (*final(reader.reader))@;
            let ghost es = choose|es: Seq<WriteEvent>| #[trigger] counted_items_decode(es, len, vs@) && read_all(m, es) == Some((es, fin));
            let o = ObjectValue::Array(vs);
            proof {
                lemma_head_then(r0, t, m, es, fin);
                assert(read_as(r0, head + es, o, fin));
            }
            Ok(o)
        },
        ValueReading::Mapping(mr) => {
            mr.reader.well_formed();
            let ghost len = mr.remaining;
            proof {
                if owed {
                    assert(counted_pairs_decode(wbody, len, wo->Mapping_0@) && reads_through(m, wbody));
                }
            }
            let ps = match read_pairs(mr) {
                Ok(ps) => ps,
                Err(e) => {
                    return Err(e);
                },
            };
            let ghost fin = (*final(reader.reader))@;
            let ghost es = choose|es: Seq<WriteEvent>| #[trigger] counted_pairs_decode(es, len, ps@) && read_all(m, es) == Some((es, fin));
            let o = ObjectValue::Mapping(ps);
            proof {
                lemma_head_then(r0, t, m, es, fin);
                assert(read_as(r0, head + es, o, fin));
            }
            Ok(o)
        },
    }
}

impl SmolRead for ObjectValue {
    open spec fn decoded_from(es: Seq<WriteEvent>, v: Self) -> bool {
        decodes(es, v)
    }

    /// Reads a value of any type: the events read are the value, as
    /// [`decodes`] says.
    fn read(reader: ValueReader) -> (r: ReadResult<Self>)
        ensures
            r matches Ok(o) ==> exists|es: Seq<WriteEvent>|
                #[trigger] read_as((*old(reader.reader))@, es, o, (*final(reader.reader))@),
            (exists|es: Seq<WriteEvent>, o: ObjectValue, r1: ReaderModel|
                #[trigger] read_as((*old(reader.reader))@, es, o, r1)) ==> r is Ok,
    {
        read_object_value(reader)
    }
}

impl ObjectValue {
    /// Reads a value from the bytes of a raw value.
    pub fn read_from_raw(raw: &RawValue) -> (r: ReadResult<Self>)
        ensures
            r matches Ok(o) ==> exists|es: Seq<WriteEvent>, rd: ReaderModel|
                #[trigger] read_as(fresh_reader(raw@, 0, FORMAT_VERSION), es, o, rd),
            (exists|es: Seq<WriteEvent>, o: ObjectValue, rd: ReaderModel|
                #[trigger] read_as(fresh_reader(raw@, 0, FORMAT_VERSION), es, o, rd)) ==> r is Ok,
    {
        let mut reader = Reader::new_headerless(raw.bytes(), FORMAT_VERSION);
        let obj = read_object_value(reader.read());
        let _ = reader.finish();
        obj
    }

    /// Writes the value into a raw value: the bytes of its events, written
    /// alone.
    pub fn write_into_raw(&self) -> (r: Result<RawValue, WriteError>)
        ensures
            match object_bytes(object_events(*self)) {
                Some(b) => r matches Ok(v) && v@ == b,
                None => r is Err,
            },
    {
        let mut writer = Writer::new_headerless();
        match write_object_value(self, writer.write()) {
            Ok(()) => {},
            Err(e) => {
                return Err(e);
            },
        }
        let ghost w1 = writer@;
        let out = writer.finish();
        assert(writer@ == w1);
        Ok(RawValue::from_vec(out))
    }
}

} // verus!
