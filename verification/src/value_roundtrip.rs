use vstd::prelude::*;
use vstd::utf8::{encode_utf8, encode_utf8_decode_utf8, encode_utf8_valid_utf8};

use crate::object::{
    counted_items_decode,
    counted_pairs_decode,
    decodes,
    fields_by_name,
    fields_decode,
    fields_events,
    index_of_name,
    items_decode,
    items_events,
    named_events,
    named_view,
    object_events,
    pairs_decode,
    pairs_events,
    read_as,
    string_decodes,
    struct_decodes,
    struct_tag_of,
    ObjectValue,
    StructValue,
};
use crate::raw::{empty_writer, lemma_write_all_is_write_events, object_bytes};
use crate::reader::{fresh_reader, ReaderModel};
use crate::roundtrip::{
    event_matches,
    events_match,
    final_bytes,
    lemma_stream_roundtrip,
    read_all,
    read_step,
    write_all,
    WriteEvent,
};
use crate::tag::{f32_bits_is_nan, f64_bits_is_nan, OptionTag, TagModel};
use crate::writer::{WriterModel, MAX_OPT_STR_LEN};
use crate::FORMAT_VERSION;

verus! {

broadcast use vstd::std_specs::vec::group_vec_axioms;

/// The named fields `fs` have no two fields with one name.
pub open spec fn names_unique(fs: Seq<(Seq<char>, ObjectValue)>) -> bool {
    forall|i: int, j: int|
        0 <= i < fs.len() && 0 <= j < fs.len() && i != j ==> #[trigger] fs[i].0 != #[trigger] fs[j].0
}

/// The value `o` holds no struct or variant with two fields of one name, as
/// the fields of a struct value are meant to be.
pub open spec fn well_named(o: ObjectValue) -> bool
    decreases o,
{
    match o {
        ObjectValue::Option(Some(v)) => well_named(*v),
        ObjectValue::Struct(sv) => fields_well_named(sv),
        ObjectValue::Enum(_, sv) => fields_well_named(sv),
        ObjectValue::Tuple(vs) => items_well_named(vs@),
        ObjectValue::Array(vs) => items_well_named(vs@),
        ObjectValue::Mapping(ps) => pairs_well_named(ps@),
        _ => true,
    }
}

/// The fields `sv` and the values in them are well named.
pub open spec fn fields_well_named(sv: StructValue) -> bool
    decreases sv,
{
    match sv {
        StructValue::Unit => true,
        StructValue::Newtype(v) => well_named(*v),
        StructValue::Tuple(vs) => items_well_named(vs@),
        StructValue::Struct(fs) => names_unique(named_view(fs@)) && named_well_named(fs@),
    }
}

/// The values `vs` are well named.
pub open spec fn items_well_named(vs: Seq<ObjectValue>) -> bool
    decreases vs,
{
    vs.len() == 0 || (items_well_named(vs.subrange(0, vs.len() - 1)) && well_named(
        vs[vs.len() - 1],
    ))
}

/// The keys and values of the pairs `ps` are well named.
pub open spec fn pairs_well_named(ps: Seq<(ObjectValue, ObjectValue)>) -> bool
    decreases ps,
{
    ps.len() == 0 || (pairs_well_named(ps.subrange(0, ps.len() - 1)) && well_named(
        ps[ps.len() - 1].0,
    ) && well_named(ps[ps.len() - 1].1))
}

/// The values of the named fields `fs` are well named.
pub open spec fn named_well_named(fs: Seq<(String, ObjectValue)>) -> bool
    decreases fs,
{
    fs.len() == 0 || (named_well_named(fs.subrange(0, fs.len() - 1)) && well_named(
        fs[fs.len() - 1].1,
    ))
}

/// Reading gives as many events as it reads.
proof fn lemma_read_all_len(r: ReaderModel, es: Seq<WriteEvent>)
    requires
        read_all(r, es) is Some,
    ensures
        read_all(r, es).unwrap().0.len() == es.len(),
    decreases es.len(),
{
    if es.len() > 0 {
        let (_, r2) = read_step(r, es[0]).unwrap();
        lemma_read_all_len(r2, es.drop_first());
    }
}

/// Reading one run of events after another reads the first run, then the
/// second from where the first left the reader.
proof fn lemma_read_all_split(r: ReaderModel, a: Seq<WriteEvent>, b: Seq<WriteEvent>)
    requires
        read_all(r, a + b) is Some,
    ensures
        read_all(r, a) is Some,
        read_all(read_all(r, a).unwrap().1, b) is Some,
        read_all(r, a + b).unwrap() == (
            read_all(r, a).unwrap().0 + read_all(read_all(r, a).unwrap().1, b).unwrap().0,
            read_all(read_all(r, a).unwrap().1, b).unwrap().1,
        ),
    decreases a.len(),
{
    if a.len() == 0 {
        assert(a + b =~= b);
        assert(Seq::<WriteEvent>::empty() + read_all(r, b).unwrap().0 =~= read_all(r, b).unwrap().0);
    } else {
        assert((a + b)[0] == a[0]);
        assert((a + b).drop_first() =~= a.drop_first() + b);
        let (e1, r1) = read_step(r, a[0]).unwrap();
        lemma_read_all_split(r1, a.drop_first(), b);
        let (xa, m) = read_all(r1, a.drop_first()).unwrap();
        let (xb, r2) = read_all(m, b).unwrap();
        assert(seq![e1] + (xa + xb) =~= (seq![e1] + xa) + xb);
    }
}

/// Matching runs of events, one after another, match.
proof fn lemma_events_match_concat(
    a: Seq<WriteEvent>,
    x: Seq<WriteEvent>,
    b: Seq<WriteEvent>,
    y: Seq<WriteEvent>,
)
    requires
        events_match(a, x),
        events_match(b, y),
    ensures
        events_match(a + b, x + y),
{
    assert forall|i: int| 0 <= i < (a + b).len() implies event_matches(
        (a + b)[i],
        #[trigger] (x + y)[i],
    ) by {
        if i < a.len() {
            assert((x + y)[i] == x[i]);
        } else {
            assert((x + y)[i] == y[i - a.len()]);
        }
    }
}

/// Events that match a run made of two runs are made of two matching runs.
proof fn lemma_events_match_split(a: Seq<WriteEvent>, b: Seq<WriteEvent>, x: Seq<WriteEvent>)
    requires
        events_match(a + b, x),
    ensures
        x == x.take(a.len() as int) + x.skip(a.len() as int),
        events_match(a, x.take(a.len() as int)),
        events_match(b, x.skip(a.len() as int)),
{
    assert(x =~= x.take(a.len() as int) + x.skip(a.len() as int));
    assert forall|i: int| 0 <= i < a.len() implies event_matches(
        a[i],
        #[trigger] x.take(a.len() as int)[i],
    ) by {
        assert((a + b)[i] == a[i]);
        assert(event_matches((a + b)[i], x[i]));
    }
    assert forall|i: int| 0 <= i < b.len() implies event_matches(
        b[i],
        #[trigger] x.skip(a.len() as int)[i],
    ) by {
        assert((a + b)[a.len() + i] == b[i]);
        assert(event_matches((a + b)[a.len() + i], x[a.len() + i]));
    }
}

/// A run read as it is, cut in two, is two runs read as they are.
proof fn lemma_read_self_split(r: ReaderModel, es: Seq<WriteEvent>, r1: ReaderModel, k: int)
    requires
        read_all(r, es) == Some((es, r1)),
        0 <= k <= es.len(),
    ensures
        read_all(r, es.take(k)) matches Some((x, m)) && x == es.take(k) && read_all(m, es.skip(k))
            == Some((es.skip(k), r1)),
{
    assert(es =~= es.take(k) + es.skip(k));
    lemma_read_all_split(r, es.take(k), es.skip(k));
    lemma_read_all_len(r, es.take(k));
    let (x, m) = read_all(r, es.take(k)).unwrap();
    let (y, _) = read_all(m, es.skip(k)).unwrap();
    assert(x =~= (x + y).take(k));
    assert(y =~= (x + y).skip(k));
}

/// Where no field has the name, none is found.
proof fn lemma_index_of_name_none(fs: Seq<(Seq<char>, ObjectValue)>, name: Seq<char>)
    requires
        forall|i: int| 0 <= i < fs.len() ==> fs[i].0 != name,
    ensures
        index_of_name(fs, name) is None,
    decreases fs.len(),
{
    if fs.len() > 0 {
        lemma_index_of_name_none(fs.drop_last(), name);
    }
}

/// Fields read with no two of one name are kept as read.
proof fn lemma_fields_by_name_unique(raw: Seq<(Seq<char>, ObjectValue)>)
    requires
        names_unique(raw),
    ensures
        fields_by_name(raw) == raw,
    decreases raw.len(),
{
    if raw.len() > 0 {
        let prev = raw.drop_last();
        assert(names_unique(prev)) by {
            assert forall|i: int, j: int|
                0 <= i < prev.len() && 0 <= j < prev.len() && i != j implies #[trigger] prev[i].0
                != #[trigger] prev[j].0 by {
                assert(prev[i] == raw[i] && prev[j] == raw[j]);
            }
        }
        lemma_fields_by_name_unique(prev);
        assert forall|i: int| 0 <= i < prev.len() implies prev[i].0 != raw.last().0 by {
            assert(prev[i] == raw[i]);
            assert(raw[i].0 != raw[raw.len() - 1].0);
        }
        lemma_index_of_name_none(prev, raw.last().0);
        assert(prev.push((raw.last().0, raw.last().1)) =~= raw);
    }
}

/// The empty string is the only one with no bytes.
proof fn lemma_no_bytes_empty(s: Seq<char>)
    requires
        encode_utf8(s).len() == 0,
    ensures
        s.len() == 0,
{
    encode_utf8_decode_utf8(s);
    assert(encode_utf8(s) =~= Seq::<u8>::empty());
}

/// The events of the named fields `raw`, names as their characters, in order,
/// each name before its value.
pub open spec fn raw_events(raw: Seq<(Seq<char>, ObjectValue)>) -> Seq<WriteEvent>
    decreases raw.len(),
{
    if raw.len() == 0 {
        Seq::empty()
    } else {
        raw_events(raw.drop_last()) + seq![WriteEvent::Str(raw.last().0)] + object_events(
            raw.last().1,
        )
    }
}

proof fn lemma_named_raw_events(fs: Seq<(String, ObjectValue)>)
    ensures
        named_events(fs) == raw_events(named_view(fs)),
    decreases fs.len(),
{
    if fs.len() > 0 {
        let prev = fs.subrange(0, fs.len() - 1);
        lemma_named_raw_events(prev);
        assert(named_view(fs).drop_last() =~= named_view(prev));
    }
}

/// The kind of a value: which variant it is, an option by whether it holds a
/// value.
pub open spec fn value_kind(o: ObjectValue) -> int {
    match o {
        ObjectValue::Primitive(_) => 0,
        ObjectValue::String(_) => 1,
        ObjectValue::Bytes(_) => 2,
        ObjectValue::Option(None) => 3,
        ObjectValue::Option(Some(_)) => 4,
        ObjectValue::Struct(_) => 5,
        ObjectValue::Enum(_, _) => 6,
        ObjectValue::Tuple(_) => 7,
        ObjectValue::Array(_) => 8,
        ObjectValue::Mapping(_) => 9,
    }
}

/// The kind of value that a tag starts.
pub open spec fn tag_kind(t: TagModel) -> int {
    match t {
        TagModel::Str(_) => 1,
        TagModel::StrDirect(_) => 1,
        TagModel::EmptyStr => 1,
        TagModel::Bytes(_) => 2,
        TagModel::Option(o) => if o == OptionTag::Absent {
            3
        } else {
            4
        },
        TagModel::Struct(_) => 5,
        TagModel::Variant(_, _) => 6,
        TagModel::Tuple(_) => 7,
        TagModel::Array(_) => 8,
        TagModel::Mapping(_) => 9,
        _ => 0,
    }
}

proof fn lemma_decodes_kind(es: Seq<WriteEvent>, o: ObjectValue)
    requires
        decodes(es, o),
    ensures
        es.len() > 0,
        es[0] matches WriteEvent::Tag(t) && tag_kind(t) == value_kind(o),
{
}

proof fn lemma_events_kind(o: ObjectValue)
    ensures
        object_events(o).len() > 0,
        object_events(o)[0] matches WriteEvent::Tag(t) && tag_kind(t) == value_kind(o),
{
}

proof fn lemma_matching_tag(a: TagModel, b: TagModel)
    requires
        b.eq_with_nan(a),
    ensures
        tag_kind(a) == tag_kind(b),
        !(a is F32 || a is F64) ==> a == b,
{
}

proof fn lemma_events_match_refl(es: Seq<WriteEvent>)
    ensures
        events_match(es, es),
{
}

/// Reading events that start with a tag reads the next tag first.
proof fn lemma_read_first_tag(r: ReaderModel, es: Seq<WriteEvent>, x: Seq<WriteEvent>, r1: ReaderModel)
    requires
        read_all(r, es) == Some((x, r1)),
        es.len() > 0,
        es[0] is Tag,
    ensures
        r.next_tag() is Ok,
        x.len() == es.len(),
        x[0] == WriteEvent::Tag(r.next_tag().unwrap().0),
        read_all(r.next_tag().unwrap().1, es.drop_first()) == Some((x.drop_first(), r1)),
{
    lemma_read_all_len(r, es);
    let (e1, m) = read_step(r, es[0]).unwrap();
    let (rest, _) = read_all(m, es.drop_first()).unwrap();
    assert((seq![e1] + rest).drop_first() =~= rest);
}

/// Reading raw bytes of a given length reads what is there, whatever bytes
/// were asked for.
proof fn lemma_read_raw_event(r: ReaderModel, a: Seq<u8>, b: Seq<u8>, x: Seq<WriteEvent>, r1: ReaderModel, y: Seq<WriteEvent>, r2: ReaderModel)
    requires
        a.len() == b.len(),
        read_all(r, seq![WriteEvent::Raw(a)]) == Some((x, r1)),
        read_all(r, seq![WriteEvent::Raw(b)]) == Some((y, r2)),
    ensures
        x == y,
        r1 == r2,
        x.len() == 1,
        x[0] is Raw,
{
    reveal_with_fuel(read_all, 2);
}

/// A step of reading keeps the input.
proof fn lemma_step_keeps_input(r: ReaderModel, e: WriteEvent)
    requires
        read_step(r, e) is Some,
    ensures
        read_step(r, e).unwrap().1.input == r.input,
{
}

/// Reading keeps the input.
proof fn lemma_read_all_keeps_input(r: ReaderModel, es: Seq<WriteEvent>)
    requires
        read_all(r, es) is Some,
    ensures
        read_all(r, es).unwrap().1.input == r.input,
    decreases es.len(),
{
    if es.len() > 0 {
        lemma_step_keeps_input(r, es[0]);
        lemma_read_all_keeps_input(read_step(r, es[0]).unwrap().1, es.drop_first());
    }
}

/// Two runs with the same first event and the same rest are one run.
proof fn lemma_same_head_tail(x: Seq<WriteEvent>, y: Seq<WriteEvent>)
    requires
        x.len() > 0,
        y.len() > 0,
        x[0] == y[0],
        x.drop_first() == y.drop_first(),
    ensures
        x == y,
{
    assert(x =~= seq![x[0]] + x.drop_first());
    assert(y =~= seq![y[0]] + y.drop_first());
}

/// The first event and the rest of a run, read alike, match alike.
proof fn lemma_events_match_tail(a: Seq<WriteEvent>, x: Seq<WriteEvent>)
    requires
        a.len() > 0,
        events_match(a, x),
    ensures
        event_matches(a[0], x[0]),
        events_match(a.drop_first(), x.drop_first()),
{
    assert(event_matches(a[0], x[0]));
    assert forall|i: int| 0 <= i < a.drop_first().len() implies event_matches(
        a.drop_first()[i],
        #[trigger] x.drop_first()[i],
    ) by {
        assert(event_matches(a[i + 1], x[i + 1]));
    }
}

/// What reading a value back and reading the written value back share: the
/// same first tag, read by both, and what each reads after it.
pub open spec fn read_back_head(
    o: ObjectValue,
    r: ReaderModel,
    es: Seq<WriteEvent>,
    o2: ObjectValue,
    r1: ReaderModel,
    e2: Seq<WriteEvent>,
    r2: ReaderModel,
) -> bool {
    let t = r.next_tag().unwrap().0;
    let m = r.next_tag().unwrap().1;
    &&& r.next_tag() is Ok
    &&& es.len() > 0 && e2.len() > 0 && object_events(o).len() > 0
    &&& es[0] == WriteEvent::Tag(t) && e2[0] == WriteEvent::Tag(t)
    &&& object_events(o)[0] matches WriteEvent::Tag(wt) && t.eq_with_nan(wt) && (!(wt is F32
        || wt is F64) ==> t == wt)
    &&& value_kind(o2) == value_kind(o)
    &&& m.input == r.input
    &&& read_all(m, es.drop_first()) == Some((es.drop_first(), r1))
    &&& read_all(m, object_events(o).drop_first()) == Some((e2.drop_first(), r2))
    &&& events_match(object_events(o).drop_first(), e2.drop_first())
}

proof fn lemma_read_back_head(
    o: ObjectValue,
    r: ReaderModel,
    es: Seq<WriteEvent>,
    o2: ObjectValue,
    r1: ReaderModel,
    e2: Seq<WriteEvent>,
    r2: ReaderModel,
)
    requires
        read_all(r, es) == Some((es, r1)),
        decodes(es, o2),
        read_all(r, object_events(o)) == Some((e2, r2)),
        events_match(object_events(o), e2),
    ensures
        read_back_head(o, r, es, o2, r1, e2, r2),
{
    let wes = object_events(o);
    lemma_events_kind(o);
    lemma_decodes_kind(es, o2);
    lemma_read_first_tag(r, wes, e2, r2);
    lemma_read_first_tag(r, es, es, r1);
    lemma_events_match_tail(wes, e2);
    lemma_step_keeps_input(r, es[0]);
    let t = r.next_tag().unwrap().0;
    let wt = match wes[0] {
        WriteEvent::Tag(x) => x,
        _ => TagModel::Unit,
    };
    lemma_matching_tag(wt, t);
}

/// A value of a primitive type reads back as written.
proof fn lemma_primitive_read_back(
    o: ObjectValue,
    r: ReaderModel,
    es: Seq<WriteEvent>,
    o2: ObjectValue,
    r1: ReaderModel,
    e2: Seq<WriteEvent>,
    r2: ReaderModel,
)
    requires
        o is Primitive || (o matches ObjectValue::Option(v) && v is None),
        read_all(r, es) == Some((es, r1)),
        decodes(es, o2),
        read_all(r, object_events(o)) == Some((e2, r2)),
        events_match(object_events(o), e2),
        read_back_head(o, r, es, o2, r1, e2, r2),
    ensures
        es == e2,
        r1 == r2,
        events_match(object_events(o), object_events(o2)),
{
    let t = r.next_tag().unwrap().0;
    lemma_read_all_len(r, object_events(o));
    assert(e2 =~= seq![WriteEvent::Tag(t)]);
    assert(es =~= seq![WriteEvent::Tag(t)]);
    reveal_with_fuel(read_all, 2);
    assert(object_events(o2) =~= seq![WriteEvent::Tag(t)]);
}

/// A string value reads back as written.
proof fn lemma_string_read_back(
    o: ObjectValue,
    r: ReaderModel,
    es: Seq<WriteEvent>,
    o2: ObjectValue,
    r1: ReaderModel,
    e2: Seq<WriteEvent>,
    r2: ReaderModel,
)
    requires
        r.input.len() <= usize::MAX,
        o is String,
        read_all(r, es) == Some((es, r1)),
        decodes(es, o2),
        read_all(r, object_events(o)) == Some((e2, r2)),
        events_match(object_events(o), e2),
        read_back_head(o, r, es, o2, r1, e2, r2),
    ensures
        es == e2,
        r1 == r2,
        events_match(object_events(o), object_events(o2)),
{
    let t = r.next_tag().unwrap().0;
    let m = r.next_tag().unwrap().1;
    let s = match o {
        ObjectValue::String(x) => x@,
        _ => Seq::empty(),
    };
    let s2 = match o2 {
        ObjectValue::String(x) => x@,
        _ => Seq::empty(),
    };
    let wes = object_events(o);
    lemma_read_all_len(r, wes);
    let n = encode_utf8(s).len();
    assert(string_decodes(es, s2));
    if n == 0 {
        lemma_no_bytes_empty(s);
        assert(t == TagModel::EmptyStr);
        assert(es =~= seq![WriteEvent::Tag(TagModel::EmptyStr)]);
        assert(e2 =~= seq![WriteEvent::Tag(TagModel::EmptyStr)]);
        reveal_with_fuel(read_all, 2);
        assert(s =~= s2);
    } else if n > MAX_OPT_STR_LEN {
        let enc = encode_utf8(s);
        assert(t == TagModel::StrDirect(n as usize));
        assert(wes.drop_first() =~= seq![WriteEvent::Raw(enc)]);
        let b = match es[1] {
            WriteEvent::Raw(x) => x,
            _ => Seq::empty(),
        };
        assert(es.drop_first() =~= seq![WriteEvent::Raw(b)]);
        lemma_read_raw_event(m, b, enc, es.drop_first(), r1, e2.drop_first(), r2);
        assert(e2.drop_first()[0] == WriteEvent::Raw(enc));
        encode_utf8_decode_utf8(s);
        assert(s == s2);
        lemma_same_head_tail(es, e2);
    } else {
        assert(t == TagModel::Str(s));
        assert(es =~= seq![WriteEvent::Tag(TagModel::Str(s))]);
        assert(e2 =~= seq![WriteEvent::Tag(TagModel::Str(s))]);
        reveal_with_fuel(read_all, 2);
        assert(s == s2);
    }
    lemma_events_match_refl(wes);
}

/// A byte string value reads back as written.
proof fn lemma_bytes_read_back(
    o: ObjectValue,
    r: ReaderModel,
    es: Seq<WriteEvent>,
    o2: ObjectValue,
    r1: ReaderModel,
    e2: Seq<WriteEvent>,
    r2: ReaderModel,
)
    requires
        o is Bytes,
        read_all(r, es) == Some((es, r1)),
        decodes(es, o2),
        read_all(r, object_events(o)) == Some((e2, r2)),
        events_match(object_events(o), e2),
        read_back_head(o, r, es, o2, r1, e2, r2),
    ensures
        es == e2,
        r1 == r2,
        events_match(object_events(o), object_events(o2)),
{
    let m = r.next_tag().unwrap().1;
    let b = match o {
        ObjectValue::Bytes(x) => x@,
        _ => Seq::empty(),
    };
    let b2 = match o2 {
        ObjectValue::Bytes(x) => x@,
        _ => Seq::empty(),
    };
    let wes = object_events(o);
    lemma_read_all_len(r, wes);
    assert(wes.drop_first() =~= seq![WriteEvent::Raw(b)]);
    assert(es.drop_first() =~= seq![WriteEvent::Raw(b2)]);
    lemma_read_raw_event(m, b2, b, es.drop_first(), r1, e2.drop_first(), r2);
    assert(e2.drop_first()[0] == WriteEvent::Raw(b));
    lemma_same_head_tail(es, e2);
    assert(object_events(o2) == wes);
    lemma_events_match_refl(wes);
}

/// A value made of a tag and what follows it reads back as written, where
/// what follows reads back as written.
proof fn lemma_head_then_read_back(
    o: ObjectValue,
    r: ReaderModel,
    es: Seq<WriteEvent>,
    o2: ObjectValue,
    r1: ReaderModel,
    e2: Seq<WriteEvent>,
    r2: ReaderModel,
    head: WriteEvent,
    rest: Seq<WriteEvent>,
    rest2: Seq<WriteEvent>,
)
    requires
        read_back_head(o, r, es, o2, r1, e2, r2),
        object_events(o) == seq![head] + rest,
        object_events(o2) == seq![head] + rest2,
        es.drop_first() == e2.drop_first(),
        events_match(rest, rest2),
    ensures
        es == e2,
        events_match(object_events(o), object_events(o2)),
{
    lemma_same_head_tail(es, e2);
    lemma_events_match_refl(seq![head]);
    lemma_events_match_concat(seq![head], seq![head], rest, rest2);
}

/// A value written alone reads back: the reader that reads the value `o2` as
/// the events `es` from `r`, where the bytes at `r` are those that the events of
/// `o` write, reads the events written, and `o2` writes the events of `o` again,
/// floats equal as the writer compares them.
#[verifier::rlimit(40)]
proof fn lemma_value_read_back(
    o: ObjectValue,
    r: ReaderModel,
    es: Seq<WriteEvent>,
    o2: ObjectValue,
    r1: ReaderModel,
    e2: Seq<WriteEvent>,
    r2: ReaderModel,
)
    requires
        r.input.len() <= usize::MAX,
        well_named(o),
        read_all(r, es) == Some((es, r1)),
        decodes(es, o2),
        read_all(r, object_events(o)) == Some((e2, r2)),
        events_match(object_events(o), e2),
    ensures
        es == e2,
        r1 == r2,
        events_match(object_events(o), object_events(o2)),
    decreases o,
{
    lemma_read_back_head(o, r, es, o2, r1, e2, r2);
    let m = r.next_tag().unwrap().1;
    let body = es.drop_first();
    let e2b = e2.drop_first();
    let wb = object_events(o).drop_first();
    match o {
        ObjectValue::Primitive(_) => {
            lemma_primitive_read_back(o, r, es, o2, r1, e2, r2);
        },
        ObjectValue::String(_) => {
            lemma_string_read_back(o, r, es, o2, r1, e2, r2);
        },
        ObjectValue::Bytes(_) => {
            lemma_bytes_read_back(o, r, es, o2, r1, e2, r2);
        },
        ObjectValue::Option(None) => {
            lemma_primitive_read_back(o, r, es, o2, r1, e2, r2);
        },
        ObjectValue::Option(Some(v)) => {
            match o2 {
                ObjectValue::Option(Some(v2)) => {
                    let head = WriteEvent::Tag(TagModel::Option(OptionTag::Present));
                    assert(wb =~= object_events(*v));
                    lemma_value_read_back(*v, m, body, *v2, r1, e2b, r2);
                    lemma_head_then_read_back(
                        o,
                        r,
                        es,
                        o2,
                        r1,
                        e2,
                        r2,
                        head,
                        object_events(*v),
                        object_events(*v2),
                    );
                },
                _ => {},
            }
        },
        ObjectValue::Struct(sv) => {
            match o2 {
                ObjectValue::Struct(sv2) => {
                    let head = WriteEvent::Tag(TagModel::Struct(struct_tag_of(sv)));
                    assert(wb =~= fields_events(sv));
                    lemma_fields_read_back(sv, m, body, sv2, r1, e2b, r2);
                    lemma_head_then_read_back(
                        o,
                        r,
                        es,
                        o2,
                        r1,
                        e2,
                        r2,
                        head,
                        fields_events(sv),
                        fields_events(sv2),
                    );
                },
                _ => {},
            }
        },
        ObjectValue::Enum(name, sv) => {
            match o2 {
                ObjectValue::Enum(name2, sv2) => {
                    let head = WriteEvent::Tag(TagModel::Variant(name@, struct_tag_of(sv)));
                    assert(wb =~= fields_events(sv));
                    lemma_fields_read_back(sv, m, body, sv2, r1, e2b, r2);
                    assert(name2@ == name@);
                    lemma_head_then_read_back(
                        o,
                        r,
                        es,
                        o2,
                        r1,
                        e2,
                        r2,
                        head,
                        fields_events(sv),
                        fields_events(sv2),
                    );
                },
                _ => {},
            }
        },
        ObjectValue::Tuple(vs) => {
            match o2 {
                ObjectValue::Tuple(vs2) => {
                    let head = WriteEvent::Tag(TagModel::Tuple(vs.len()));
                    assert(wb =~= items_events(vs@));
                    assert(es[0] == WriteEvent::Tag(TagModel::Tuple(vs2.len())));
                    assert(items_decode(body, vs2@));
                    lemma_items_read_back(vs@, m, body, vs2@, r1, e2b, r2);
                    lemma_head_then_read_back(
                        o,
                        r,
                        es,
                        o2,
                        r1,
                        e2,
                        r2,
                        head,
                        items_events(vs@),
                        items_events(vs2@),
                    );
                },
                _ => {},
            }
        },
        ObjectValue::Array(vs) => {
            match o2 {
                ObjectValue::Array(vs2) => {
                    let head = WriteEvent::Tag(TagModel::Array(Some(vs.len())));
                    assert(wb =~= items_events(vs@));
                    assert(counted_items_decode(body, Some(vs.len()), vs2@));
                    lemma_items_read_back(vs@, m, body, vs2@, r1, e2b, r2);
                    lemma_head_then_read_back(
                        o,
                        r,
                        es,
                        o2,
                        r1,
                        e2,
                        r2,
                        head,
                        items_events(vs@),
                        items_events(vs2@),
                    );
                },
                _ => {},
            }
        },
        ObjectValue::Mapping(ps) => {
            match o2 {
                ObjectValue::Mapping(ps2) => {
                    let head = WriteEvent::Tag(TagModel::Mapping(Some(ps.len())));
                    assert(wb =~= pairs_events(ps@));
                    assert(counted_pairs_decode(body, Some(ps.len()), ps2@));
                    lemma_pairs_read_back(ps@, m, body, ps2@, r1, e2b, r2);
                    lemma_head_then_read_back(
                        o,
                        r,
                        es,
                        o2,
                        r1,
                        e2,
                        r2,
                        head,
                        pairs_events(ps@),
                        pairs_events(ps2@),
                    );
                },
                _ => {},
            }
        },
    }
}

/// The fields of a struct or variant read back as written.
proof fn lemma_fields_read_back(
    sv: StructValue,
    r: ReaderModel,
    es: Seq<WriteEvent>,
    sv2: StructValue,
    r1: ReaderModel,
    e2: Seq<WriteEvent>,
    r2: ReaderModel,
)
    requires
        r.input.len() <= usize::MAX,
        fields_well_named(sv),
        struct_decodes(es, struct_tag_of(sv), sv2),
        read_all(r, es) == Some((es, r1)),
        read_all(r, fields_events(sv)) == Some((e2, r2)),
        events_match(fields_events(sv), e2),
    ensures
        es == e2,
        r1 == r2,
        struct_tag_of(sv2) == struct_tag_of(sv),
        events_match(fields_events(sv), fields_events(sv2)),
    decreases sv,
{
    match sv {
        StructValue::Unit => {
            assert(es.len() == 0);
            assert(e2.len() == 0) by {
                lemma_read_all_len(r, fields_events(sv));
            }
            assert(es =~= e2);
        },
        StructValue::Newtype(v) => {
            let v2 = match sv2 {
                StructValue::Newtype(x) => *x,
                _ => ObjectValue::Option(None),
            };
            lemma_value_read_back(*v, r, es, v2, r1, e2, r2);
        },
        StructValue::Tuple(vs) => {
            let vs2 = match sv2 {
                StructValue::Tuple(x) => x@,
                _ => Seq::empty(),
            };
            lemma_items_read_back(vs@, r, es, vs2, r1, e2, r2);
        },
        StructValue::Struct(fs) => {
            let fs2 = match sv2 {
                StructValue::Struct(x) => x,
                _ => arbitrary(),
            };
            let raw = choose|raw: Seq<(Seq<char>, ObjectValue)>|
                #![trigger fields_by_name(raw)]
                raw.len() == fs.len() && fields_decode(es, raw) && named_view(fs2@)
                    == fields_by_name(raw);
            lemma_named_read_back(fs@, r, es, raw, r1, e2, r2);
            assert(names_unique(raw)) by {
                assert forall|i: int, j: int|
                    0 <= i < raw.len() && 0 <= j < raw.len() && i != j implies #[trigger] raw[i].0
                    != #[trigger] raw[j].0 by {
                    assert(named_view(fs@)[i].0 == fs@[i].0@);
                    assert(named_view(fs@)[j].0 == fs@[j].0@);
                }
            }
            lemma_fields_by_name_unique(raw);
            lemma_named_raw_events(fs2@);
            assert(fs2@.len() == raw.len());
        },
    }
}

/// The values of a tuple or an array read back as written.
proof fn lemma_items_read_back(
    vs: Seq<ObjectValue>,
    r: ReaderModel,
    es: Seq<WriteEvent>,
    vs2: Seq<ObjectValue>,
    r1: ReaderModel,
    e2: Seq<WriteEvent>,
    r2: ReaderModel,
)
    requires
        r.input.len() <= usize::MAX,
        items_well_named(vs),
        vs2.len() == vs.len(),
        items_decode(es, vs2),
        read_all(r, es) == Some((es, r1)),
        read_all(r, items_events(vs)) == Some((e2, r2)),
        events_match(items_events(vs), e2),
    ensures
        es == e2,
        r1 == r2,
        events_match(items_events(vs), items_events(vs2)),
    decreases vs,
{
    if vs.len() == 0 {
        lemma_read_all_len(r, items_events(vs));
        assert(es =~= e2);
    } else {
        let n = vs.len() as int;
        let pre = vs.subrange(0, n - 1);
        let last = vs[n - 1];
        let a = items_events(pre);
        let b = object_events(last);
        let k = choose|k: int|
            #![trigger es.take(k), es.skip(k)]
            0 <= k <= es.len() && items_decode(es.take(k), vs2.drop_last()) && decodes(
                es.skip(k),
                vs2.last(),
            );
        lemma_read_all_split(r, a, b);
        lemma_read_all_len(r, a);
        let (e2a, mm) = read_all(r, a).unwrap();
        let (e2b, _) = read_all(mm, b).unwrap();
        lemma_read_all_keeps_input(r, a);
        lemma_events_match_split(a, b, e2);
        assert(e2.take(a.len() as int) =~= e2a);
        assert(e2.skip(a.len() as int) =~= e2b);
        lemma_read_self_split(r, es, r1, k);
        let mk = read_all(r, es.take(k)).unwrap().1;
        lemma_items_read_back(pre, r, es.take(k), vs2.drop_last(), mk, e2a, mm);
        lemma_value_read_back(last, mm, es.skip(k), vs2.last(), r1, e2b, r2);
        assert(es =~= es.take(k) + es.skip(k));
        assert(vs2.drop_last() =~= vs2.subrange(0, n - 1));
        lemma_events_match_concat(a, items_events(vs2.drop_last()), b, object_events(vs2.last()));
    }
}

/// The pairs of a map read back as written.
#[verifier::rlimit(50)]
proof fn lemma_pairs_read_back(
    ps: Seq<(ObjectValue, ObjectValue)>,
    r: ReaderModel,
    es: Seq<WriteEvent>,
    ps2: Seq<(ObjectValue, ObjectValue)>,
    r1: ReaderModel,
    e2: Seq<WriteEvent>,
    r2: ReaderModel,
)
    requires
        r.input.len() <= usize::MAX,
        pairs_well_named(ps),
        ps2.len() == ps.len(),
        pairs_decode(es, ps2),
        read_all(r, es) == Some((es, r1)),
        read_all(r, pairs_events(ps)) == Some((e2, r2)),
        events_match(pairs_events(ps), e2),
    ensures
        es == e2,
        r1 == r2,
        events_match(pairs_events(ps), pairs_events(ps2)),
    decreases ps,
{
    if ps.len() == 0 {
        lemma_read_all_len(r, pairs_events(ps));
        assert(es =~= e2);
    } else {
        let n = ps.len() as int;
        let pre = ps.subrange(0, n - 1);
        let key = ps[n - 1].0;
        let value = ps[n - 1].1;
        let a = pairs_events(pre);
        let b = object_events(key);
        let c = object_events(value);
        let (k, j) = choose|k: int, j: int|
            #![trigger es.take(k), es.subrange(k, j), es.skip(j)]
            0 <= k <= j <= es.len() && pairs_decode(es.take(k), ps2.drop_last()) && decodes(
                es.subrange(k, j),
                ps2.last().0,
            ) && decodes(es.skip(j), ps2.last().1);
        assert(pairs_events(ps) == a + b + c);
        lemma_read_all_split(r, a + b, c);
        lemma_read_all_split(r, a, b);
        lemma_read_all_len(r, a);
        lemma_read_all_len(r, a + b);
        let (e2a, ma) = read_all(r, a).unwrap();
        let (e2b, mb) = read_all(ma, b).unwrap();
        let (e2c, _) = read_all(mb, c).unwrap();
        lemma_read_all_keeps_input(r, a);
        lemma_read_all_keeps_input(ma, b);
        lemma_events_match_split(a + b, c, e2);
        lemma_events_match_split(a, b, e2.take((a + b).len() as int));
        assert(e2 =~= e2a + e2b + e2c);
        assert(e2.take((a + b).len() as int) =~= e2a + e2b);
        assert((e2a + e2b).take(a.len() as int) =~= e2a);
        assert((e2a + e2b).skip(a.len() as int) =~= e2b);
        assert(e2.skip((a + b).len() as int) =~= e2c);
        lemma_read_self_split(r, es, r1, k);
        let mk = read_all(r, es.take(k)).unwrap().1;
        let rest = es.skip(k);
        lemma_read_self_split(mk, rest, r1, j - k);
        let mj = read_all(mk, rest.take(j - k)).unwrap().1;
        assert(rest.take(j - k) =~= es.subrange(k, j));
        assert(rest.skip(j - k) =~= es.skip(j));
        lemma_pairs_read_back(pre, r, es.take(k), ps2.drop_last(), mk, e2a, ma);
        lemma_value_read_back(key, ma, es.subrange(k, j), ps2.last().0, mj, e2b, mb);
        lemma_value_read_back(value, mb, es.skip(j), ps2.last().1, r1, e2c, r2);
        assert(es =~= es.take(k) + es.subrange(k, j) + es.skip(j));
        assert(ps2.drop_last() =~= ps2.subrange(0, n - 1));
        lemma_events_match_concat(a, pairs_events(ps2.drop_last()), b, object_events(ps2.last().0));
        lemma_events_match_concat(
            a + b,
            pairs_events(ps2.drop_last()) + object_events(ps2.last().0),
            c,
            object_events(ps2.last().1),
        );
    }
}

/// The named fields of a struct or variant read back as written, with their
/// names.
#[verifier::rlimit(90)]
proof fn lemma_named_read_back(
    fs: Seq<(String, ObjectValue)>,
    r: ReaderModel,
    es: Seq<WriteEvent>,
    raw: Seq<(Seq<char>, ObjectValue)>,
    r1: ReaderModel,
    e2: Seq<WriteEvent>,
    r2: ReaderModel,
)
    requires
        r.input.len() <= usize::MAX,
        named_well_named(fs),
        raw.len() == fs.len(),
        fields_decode(es, raw),
        read_all(r, es) == Some((es, r1)),
        read_all(r, named_events(fs)) == Some((e2, r2)),
        events_match(named_events(fs), e2),
    ensures
        es == e2,
        r1 == r2,
        forall|i: int| 0 <= i < raw.len() ==> #[trigger] raw[i].0 == fs[i].0@,
        events_match(named_events(fs), raw_events(raw)),
    decreases fs,
{
    if fs.len() == 0 {
        lemma_read_all_len(r, named_events(fs));
        assert(es =~= e2);
    } else {
        let n = fs.len() as int;
        let pre = fs.subrange(0, n - 1);
        let name = fs[n - 1].0@;
        let value = fs[n - 1].1;
        let a = named_events(pre);
        let b = seq![WriteEvent::Str(name)];
        let c = object_events(value);
        let k = choose|k: int|
            #![trigger es.take(k), es.skip(k + 1)]
            0 <= k < es.len() && fields_decode(es.take(k), raw.drop_last()) && es[k]
                == WriteEvent::Str(raw.last().0) && decodes(es.skip(k + 1), raw.last().1);
        assert(named_events(fs) == a + b + c);
        lemma_read_all_split(r, a + b, c);
        lemma_read_all_split(r, a, b);
        lemma_read_all_len(r, a);
        lemma_read_all_len(r, a + b);
        let (e2a, ma) = read_all(r, a).unwrap();
        let (e2b, mb) = read_all(ma, b).unwrap();
        let (e2c, _) = read_all(mb, c).unwrap();
        lemma_read_all_keeps_input(r, a);
        lemma_read_all_keeps_input(ma, b);
        lemma_events_match_split(a + b, c, e2);
        lemma_events_match_split(a, b, e2.take((a + b).len() as int));
        assert(e2 =~= e2a + e2b + e2c);
        assert(e2.take((a + b).len() as int) =~= e2a + e2b);
        assert((e2a + e2b).take(a.len() as int) =~= e2a);
        assert((e2a + e2b).skip(a.len() as int) =~= e2b);
        assert(e2.skip((a + b).len() as int) =~= e2c);
        lemma_read_self_split(r, es, r1, k);
        let mk = read_all(r, es.take(k)).unwrap().1;
        let rest = es.skip(k);
        lemma_read_self_split(mk, rest, r1, 1);
        let mj = read_all(mk, rest.take(1)).unwrap().1;
        assert(rest.take(1) =~= seq![es[k]]);
        assert(rest.skip(1) =~= es.skip(k + 1));
        lemma_named_read_back(pre, r, es.take(k), raw.drop_last(), mk, e2a, ma);
        reveal_with_fuel(read_all, 2);
        assert(e2b =~= seq![e2b[0]]);
        assert(e2b[0] == WriteEvent::Str(name));
        assert(es[k] == e2b[0]);
        assert(mj == mb);
        lemma_value_read_back(value, mb, es.skip(k + 1), raw.last().1, r1, e2c, r2);
        assert(es =~= es.take(k) + seq![es[k]] + es.skip(k + 1));
        assert forall|i: int| 0 <= i < raw.len() implies #[trigger] raw[i].0 == fs[i].0@ by {
            if i < n - 1 {
                assert(raw.drop_last()[i] == raw[i]);
                assert(pre[i] == fs[i]);
            }
        }
        lemma_events_match_refl(b);
        lemma_events_match_concat(a, raw_events(raw.drop_last()), b, b);
        lemma_events_match_concat(
            a + b,
            raw_events(raw.drop_last()) + b,
            c,
            object_events(raw.last().1),
        );
    }
}

/// What is read back of a value is the value written: for a value `o` with no
/// struct of two fields of one name, written alone where every write succeeds
/// (the bytes that `ObjectValue::write_into_raw` gives), a reader of those bytes with no
/// header in the current format version that reads a value `o2` (as
/// `ObjectValue::read_from_raw` does) reads exactly the events written, up to
/// the end of the bytes, and `o2` writes the events of `o` again, floats equal
/// as the writer compares them.
pub proof fn lemma_object_value_round_trip(
    o: ObjectValue,
    es: Seq<WriteEvent>,
    o2: ObjectValue,
    r1: ReaderModel,
)
    requires
        well_named(o),
        write_all(empty_writer(), object_events(o)) is Some,
        final_bytes(empty_writer(), object_events(o)).len() <= usize::MAX,
        read_as(
            fresh_reader(final_bytes(empty_writer(), object_events(o)), 0, FORMAT_VERSION),
            es,
            o2,
            r1,
        ),
    ensures
        object_bytes(object_events(o)) == Some(final_bytes(empty_writer(), object_events(o))),
        events_match(object_events(o), es),
        events_match(object_events(o), object_events(o2)),
        r1.pos == final_bytes(empty_writer(), object_events(o)).len(),
{
    let w = empty_writer();
    let written = object_events(o);
    lemma_write_all_is_write_events(w, written);
    lemma_stream_roundtrip(Seq::empty(), written, FORMAT_VERSION);
    assert(w == (WriterModel { out: Seq::empty(), strings: Seq::empty(), last_tag: None, repeats: 0 }));
    let data = final_bytes(w, written);
    let r = fresh_reader(data, 0, FORMAT_VERSION);
    let (e2, r2) = read_all(r, written).unwrap();
    lemma_value_read_back(o, r, es, o2, r1, e2, r2);
}

/// A tag that reads back as it was written whatever tag came before it: any
/// tag but a float that is a NaN or a zero, which the writer counts as a repeat
/// of another NaN or zero.
pub open spec fn tag_plain(t: TagModel) -> bool {
    match t {
        TagModel::F32(b) => !f32_bits_is_nan(b) && b & 0x7fff_ffffu32 != 0,
        TagModel::F64(b) => !f64_bits_is_nan(b) && b & 0x7fff_ffff_ffff_ffffu64 != 0,
        _ => true,
    }
}

/// Every tag among the events `es` is plain.
pub open spec fn plain_tags(es: Seq<WriteEvent>) -> bool {
    forall|i: int| #![trigger es[i]] 0 <= i < es.len() ==> (es[i] matches WriteEvent::Tag(t) ==> tag_plain(t))
}

/// A tag read that matches a plain tag written is that tag.
proof fn lemma_plain_tag_match(a: TagModel, b: TagModel)
    requires
        tag_plain(a),
        b.eq_with_nan(a),
    ensures
        b == a,
{
    match (b, a) {
        (TagModel::F32(x), TagModel::F32(y)) => {
            assert(x == y) by (bit_vector)
                requires
                    !f32_bits_is_nan(y) && y & 0x7fff_ffffu32 != 0,
                    crate::tag::f32_bits_eq_with_nan(x, y),
            ;
        },
        (TagModel::F64(x), TagModel::F64(y)) => {
            assert(x == y) by (bit_vector)
                requires
                    !f64_bits_is_nan(y) && y & 0x7fff_ffff_ffff_ffffu64 != 0,
                    crate::tag::f64_bits_eq_with_nan(x, y),
            ;
        },
        _ => {},
    }
}

/// Events read that match written events with plain tags are those events.
pub(crate) proof fn lemma_plain_read_exact(es: Seq<WriteEvent>, e2: Seq<WriteEvent>)
    requires
        events_match(es, e2),
        plain_tags(es),
    ensures
        e2 == es,
{
    assert forall|i: int| 0 <= i < es.len() implies e2[i] == es[i] by {
        assert(event_matches(es[i], e2[i]));
        match (es[i], e2[i]) {
            (WriteEvent::Tag(a), WriteEvent::Tag(b)) => {
                lemma_plain_tag_match(a, b);
            },
            _ => {},
        }
    }
    assert(e2 =~= es);
}

/// Each run of raw bytes among the events `es` has a length that fits in a
/// `usize`.
pub open spec fn events_fit(es: Seq<WriteEvent>) -> bool {
    forall|i: int|
        #![trigger es[i]]
        0 <= i < es.len() ==> (es[i] matches WriteEvent::Raw(b) ==> b.len() <= usize::MAX)
}

/// Events read from an input that fits in memory fit.
proof fn lemma_read_all_fits(r: ReaderModel, es: Seq<WriteEvent>)
    requires
        read_all(r, es) is Some,
        r.input.len() <= usize::MAX,
    ensures
        events_fit(es),
    decreases es.len(),
{
    if es.len() > 0 {
        let m = read_step(r, es[0]).unwrap().1;
        lemma_step_keeps_input(r, es[0]);
        lemma_read_all_fits(m, es.drop_first());
        assert forall|i: int| #![trigger es[i]] 0 <= i < es.len() implies (es[i] matches WriteEvent::Raw(b) ==> b.len()
            <= usize::MAX) by {
            if i > 0 {
                assert(es[i] == es.drop_first()[i - 1]);
            }
        }
    }
}

/// The parts of events that fit fit.
proof fn lemma_fit_split(a: Seq<WriteEvent>, b: Seq<WriteEvent>)
    requires
        events_fit(a + b),
    ensures
        events_fit(a),
        events_fit(b),
{
    assert forall|i: int| #![trigger a[i]] 0 <= i < a.len() implies (a[i] matches WriteEvent::Raw(x) ==> x.len()
        <= usize::MAX) by {
        assert((a + b)[i] == a[i]);
    }
    assert forall|i: int| #![trigger b[i]] 0 <= i < b.len() implies (b[i] matches WriteEvent::Raw(x) ==> x.len()
        <= usize::MAX) by {
        assert((a + b)[a.len() + i] == b[i]);
    }
}

/// The events a well named value writes are that value, as a reader builds it.
proof fn lemma_events_decode(o: ObjectValue)
    requires
        well_named(o),
        events_fit(object_events(o)),
    ensures
        decodes(object_events(o), o),
    decreases o,
{
    let es = object_events(o);
    match o {
        ObjectValue::String(s) => {
            let n = encode_utf8(s@).len();
            if n == 0 {
                lemma_no_bytes_empty(s@);
            } else if n > MAX_OPT_STR_LEN {
                assert(es[1] == WriteEvent::Raw(encode_utf8(s@)));
                encode_utf8_decode_utf8(s@);
                encode_utf8_valid_utf8(s@);
            }
        },
        ObjectValue::Option(Some(v)) => {
            lemma_fit_split(seq![es[0]], object_events(*v));
            lemma_events_decode(*v);
            assert(es.drop_first() =~= object_events(*v));
        },
        ObjectValue::Struct(sv) => {
            lemma_fit_split(seq![es[0]], fields_events(sv));
            lemma_fields_events_decode(sv);
            assert(es.drop_first() =~= fields_events(sv));
        },
        ObjectValue::Enum(_, sv) => {
            lemma_fit_split(seq![es[0]], fields_events(sv));
            lemma_fields_events_decode(sv);
            assert(es.drop_first() =~= fields_events(sv));
        },
        ObjectValue::Tuple(vs) => {
            lemma_fit_split(seq![es[0]], items_events(vs@));
            lemma_items_events_decode(vs@);
            assert(es.drop_first() =~= items_events(vs@));
        },
        ObjectValue::Array(vs) => {
            lemma_fit_split(seq![es[0]], items_events(vs@));
            lemma_items_events_decode(vs@);
            assert(es.drop_first() =~= items_events(vs@));
            assert(counted_items_decode(es.drop_first(), Some(vs.len()), vs@));
        },
        ObjectValue::Mapping(ps) => {
            lemma_fit_split(seq![es[0]], pairs_events(ps@));
            lemma_pairs_events_decode(ps@);
            assert(es.drop_first() =~= pairs_events(ps@));
            assert(counted_pairs_decode(es.drop_first(), Some(ps.len()), ps@));
        },
        _ => {},
    }
}

/// The events the fields `sv` write are those fields, after a tag of their
/// shape.
proof fn lemma_fields_events_decode(sv: StructValue)
    requires
        fields_well_named(sv),
        events_fit(fields_events(sv)),
    ensures
        struct_decodes(fields_events(sv), struct_tag_of(sv), sv),
    decreases sv,
{
    match sv {
        StructValue::Newtype(v) => {
            lemma_events_decode(*v);
        },
        StructValue::Tuple(vs) => {
            lemma_items_events_decode(vs@);
        },
        StructValue::Struct(fs) => {
            let raw = named_view(fs@);
            lemma_named_events_decode(fs@);
            lemma_fields_by_name_unique(raw);
            assert(raw.len() == fs.len() && fields_decode(fields_events(sv), raw) && named_view(fs@)
                == fields_by_name(raw));
        },
        _ => {},
    }
}

/// The events the values `vs` write are those values.
proof fn lemma_items_events_decode(vs: Seq<ObjectValue>)
    requires
        items_well_named(vs),
        events_fit(items_events(vs)),
    ensures
        items_decode(items_events(vs), vs),
    decreases vs,
{
    if vs.len() > 0 {
        let prefix = vs.subrange(0, vs.len() - 1);
        let a = items_events(prefix);
        let b = object_events(vs[vs.len() - 1]);
        let es = a + b;
        lemma_fit_split(a, b);
        lemma_items_events_decode(prefix);
        lemma_events_decode(vs[vs.len() - 1]);
        let k = a.len() as int;
        assert(es.take(k) =~= a);
        assert(es.skip(k) =~= b);
        assert(vs.drop_last() =~= prefix);
        assert(items_decode(es.take(k), vs.drop_last()) && decodes(es.skip(k), vs.last()));
    }
}

/// The events the pairs `ps` write are those pairs.
proof fn lemma_pairs_events_decode(ps: Seq<(ObjectValue, ObjectValue)>)
    requires
        pairs_well_named(ps),
        events_fit(pairs_events(ps)),
    ensures
        pairs_decode(pairs_events(ps), ps),
    decreases ps,
{
    if ps.len() > 0 {
        let prefix = ps.subrange(0, ps.len() - 1);
        let a = pairs_events(prefix);
        let kb = object_events(ps[ps.len() - 1].0);
        let vb = object_events(ps[ps.len() - 1].1);
        let es = a + kb + vb;
        lemma_fit_split(a + kb, vb);
        lemma_fit_split(a, kb);
        lemma_pairs_events_decode(prefix);
        lemma_events_decode(ps[ps.len() - 1].0);
        lemma_events_decode(ps[ps.len() - 1].1);
        let k = a.len() as int;
        let j = (a.len() + kb.len()) as int;
        assert(es.take(k) =~= a);
        assert(es.subrange(k, j) =~= kb);
        assert(es.skip(j) =~= vb);
        assert(ps.drop_last() =~= prefix);
        assert(pairs_decode(es.take(k), ps.drop_last()) && decodes(es.subrange(k, j), ps.last().0)
            && decodes(es.skip(j), ps.last().1));
    }
}

/// The events the named fields `fs` write are those fields, names as their
/// characters.
proof fn lemma_named_events_decode(fs: Seq<(String, ObjectValue)>)
    requires
        named_well_named(fs),
        events_fit(named_events(fs)),
    ensures
        fields_decode(named_events(fs), named_view(fs)),
    decreases fs,
{
    if fs.len() > 0 {
        let prefix = fs.subrange(0, fs.len() - 1);
        let a = named_events(prefix);
        let name = seq![WriteEvent::Str(fs[fs.len() - 1].0@)];
        let b = object_events(fs[fs.len() - 1].1);
        let es = a + name + b;
        let raw = named_view(fs);
        lemma_fit_split(a + name, b);
        lemma_fit_split(a, name);
        lemma_named_events_decode(prefix);
        lemma_events_decode(fs[fs.len() - 1].1);
        let k = a.len() as int;
        assert(es.take(k) =~= a);
        assert(es[k] == WriteEvent::Str(fs[fs.len() - 1].0@));
        assert(es.skip(k + 1) =~= b);
        assert(raw.drop_last() =~= named_view(prefix));
        assert(raw.last() == (fs[fs.len() - 1].0@, fs[fs.len() - 1].1));
        assert(fields_decode(es.take(k), raw.drop_last()) && es[k] == WriteEvent::Str(raw.last().0)
            && decodes(es.skip(k + 1), raw.last().1));
    }
}

/// A value written alone reads back as that value: for a value `o` with no
/// struct of two fields of one name and no float that is a NaN or a zero,
/// written alone where every write succeeds (the bytes that
/// `ObjectValue::write_into_raw` gives), a reader of those bytes with no header in the current format version reads
/// exactly the events written, they are the value `o`, and it ends at the end
/// of the bytes; so `ObjectValue::read_from_raw` of those bytes succeeds.
pub proof fn lemma_object_value_reads_back(o: ObjectValue)
    requires
        well_named(o),
        plain_tags(object_events(o)),
        write_all(empty_writer(), object_events(o)) is Some,
        final_bytes(empty_writer(), object_events(o)).len() <= usize::MAX,
    ensures
        object_bytes(object_events(o)) == Some(final_bytes(empty_writer(), object_events(o))),
        ({
            let data = final_bytes(empty_writer(), object_events(o));
            let r = fresh_reader(data, 0, FORMAT_VERSION);
            read_all(r, object_events(o)) matches Some((es2, r1)) && es2 == object_events(o)
                && read_as(r, object_events(o), o, r1) && r1.pos == data.len()
        }),
{
    let w = empty_writer();
    let written = object_events(o);
    lemma_write_all_is_write_events(w, written);
    lemma_stream_roundtrip(Seq::empty(), written, FORMAT_VERSION);
    assert(w == (WriterModel { out: Seq::empty(), strings: Seq::empty(), last_tag: None, repeats: 0 }));
    let data = final_bytes(w, written);
    let r = fresh_reader(data, 0, FORMAT_VERSION);
    let (e2, r2) = read_all(r, written).unwrap();
    lemma_plain_read_exact(written, e2);
    lemma_read_all_fits(r, written);
    lemma_events_decode(o);
}

} // verus!
