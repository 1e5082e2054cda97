use vstd::prelude::*;

use crate::object::{
    counted_items_decode,
    counted_pairs_decode,
    decodes,
    fields_decode,
    items_decode,
    pairs_decode,
    read_as,
    struct_decodes,
    ObjectValue,
    StructValue,
};
use crate::raw::{
    announced,
    expects,
    frame_done,
    frames_after,
    lemma_expects_deterministic,
    one_object,
    struct_announced,
    RawValueCopyStack,
};
use crate::reader::ReaderModel;
use crate::roundtrip::{read_all, read_step, WriteEvent};
use crate::tag::StructTag;

verus! {

/// A frame that takes a tag as an object in front of the frames `inner` does:
/// what the object expects, then what `inner` expects, is what it expects.
proof fn lemma_tag_as_object(
    frames: Seq<RawValueCopyStack>,
    inner: Seq<RawValueCopyStack>,
    es: Seq<WriteEvent>,
)
    requires
        frames.len() > 0,
        !frame_done(frames.last()),
        es.len() > 0,
        es[0] matches WriteEvent::Tag(t) && frames_after(frames, es[0]) == Some(inner + announced(t)),
        expects(inner.push(RawValueCopyStack::Object), es),
    ensures
        expects(frames, es),
{
    assert(inner.push(RawValueCopyStack::Object).drop_last() =~= inner);
}

/// Seq concatenation regrouped.
proof fn lemma_concat_assoc(a: Seq<WriteEvent>, b: Seq<WriteEvent>, c: Seq<WriteEvent>)
    ensures
        a + (b + c) == (a + b) + c,
{
    assert(a + (b + c) =~= (a + b) + c);
}

/// The events of a value are what an object frame expects: before any
/// events that the frames below it expect, they are what the frames with an
/// object on top expect.
pub(crate) proof fn lemma_value_expects(
    es: Seq<WriteEvent>,
    o: ObjectValue,
    frames: Seq<RawValueCopyStack>,
    c: Seq<WriteEvent>,
)
    requires
        decodes(es, o),
        expects(frames, c),
    ensures
        expects(frames.push(RawValueCopyStack::Object), es + c),
    decreases es.len(), 1int,
{
    let body = es.drop_first();
    let g = frames.push(RawValueCopyStack::Object);
    assert(g.drop_last() =~= frames);
    assert((es + c).drop_first() =~= body + c);
    assert((es + c)[0] == es[0]);
    let t = es[0]->Tag_0;
    assert(frames_after(g, es[0]) == Some(frames + announced(t)));
    match o {
        ObjectValue::Primitive(p) => {
            assert(t == p.spec_tag_of());
            assert(announced(t) == Seq::<RawValueCopyStack>::empty()) by {
                match p {
                    _ => {},
                }
            }
            assert(frames + announced(t) =~= frames);
            assert(body =~= Seq::<WriteEvent>::empty());
            assert(body + c =~= c);
            assert(expects(frames + announced(t), (es + c).drop_first()));
        },
        ObjectValue::String(s) => {
            if es.len() == 2 {
                let n = t->StrDirect_0;
                let d = frames.push(RawValueCopyStack::Data { len: n });
                assert(frames + announced(t) =~= d);
                assert((body + c)[0] == es[1]);
                assert((body + c).drop_first() =~= c);
                assert(d.drop_last() =~= frames);
                assert(frames_after(d, (body + c)[0]) == Some(frames));
                assert(expects(d, body + c));
            } else {
                assert(frames + announced(t) =~= frames);
                assert(body + c =~= c);
            }
        },
        ObjectValue::Bytes(b) => {
            let d = frames.push(RawValueCopyStack::Data { len: b.len() });
            assert(frames + announced(t) =~= d);
            assert((body + c)[0] == es[1]);
            assert((body + c).drop_first() =~= c);
            assert(d.drop_last() =~= frames);
            assert(frames_after(d, (body + c)[0]) == Some(frames));
            assert(expects(d, body + c));
        },
        ObjectValue::Option(None) => {
            assert(frames + announced(t) =~= frames);
            assert(body + c =~= c);
        },
        ObjectValue::Option(Some(v)) => {
            assert(frames + announced(t) =~= frames.push(RawValueCopyStack::Object));
            lemma_value_expects(body, *v, frames, c);
        },
        ObjectValue::Struct(sv) => {
            let st = t->Struct_0;
            lemma_struct_expects(body, st, sv, frames, c);
        },
        ObjectValue::Enum(name, sv) => {
            let st = t->Variant_1;
            lemma_struct_expects(body, st, sv, frames, c);
        },
        ObjectValue::Tuple(vs) => {
            assert(frames + announced(t) =~= frames.push(
                RawValueCopyStack::Items { remaining: Some(vs.len()) },
            ));
            lemma_counted_items_start(frames, c);
            lemma_items_expects(body, vs@, frames, 0, c);
            assert((0 + vs@.len()) as usize == vs.len());
        },
        ObjectValue::Array(vs) => {
            let len = t->Array_0;
            assert(frames + announced(t) =~= frames.push(RawValueCopyStack::Items { remaining: len }));
            match len {
                Some(n) => {
                    assert(counted_items_decode(body, len, vs@));
                    assert(items_decode(body, vs@) && n == vs@.len());
                    lemma_counted_items_start(frames, c);
                    lemma_items_expects(body, vs@, frames, 0, c);
                    assert((0 + vs@.len()) as usize == n);
                },
                None => {
                    assert(counted_items_decode(body, len, vs@));
                    let items = body.drop_last();
                    let g2 = frames.push(RawValueCopyStack::Items { remaining: None });
                    let c2 = seq![WriteEvent::End] + c;
                    assert(g2.drop_last() =~= frames);
                    assert(c2.drop_first() =~= c);
                    assert(expects(g2, c2));
                    lemma_uncounted_items_expects(items, vs@, frames, c2);
                    assert(body =~= items + seq![WriteEvent::End]);
                    lemma_concat_assoc(items, seq![WriteEvent::End], c);
                },
            }
        },
        ObjectValue::Mapping(ps) => {
            let len = t->Mapping_0;
            assert(frames + announced(t) =~= frames.push(
                RawValueCopyStack::Pairs { value_next: false, remaining: len },
            ));
            match len {
                Some(n) => {
                    assert(counted_pairs_decode(body, len, ps@));
                    assert(pairs_decode(body, ps@) && n == ps@.len());
                    lemma_counted_pairs_start(frames, c);
                    lemma_pairs_expects(body, ps@, frames, 0, c);
                    assert((0 + ps@.len()) as usize == n);
                },
                None => {
                    assert(counted_pairs_decode(body, len, ps@));
                    let pairs = body.drop_last();
                    let g2 = frames.push(RawValueCopyStack::Pairs { value_next: false, remaining: None });
                    let c2 = seq![WriteEvent::End] + c;
                    assert(g2.drop_last() =~= frames);
                    assert(c2.drop_first() =~= c);
                    assert(expects(g2, c2));
                    lemma_uncounted_pairs_expects(pairs, ps@, frames, c2);
                    assert(body =~= pairs + seq![WriteEvent::End]);
                    lemma_concat_assoc(pairs, seq![WriteEvent::End], c);
                },
            }
        },
    }
}

/// A count of no items is done: it expects what the frames below it expect.
proof fn lemma_counted_items_start(frames: Seq<RawValueCopyStack>, c: Seq<WriteEvent>)
    requires
        expects(frames, c),
    ensures
        expects(frames.push(RawValueCopyStack::Items { remaining: Some(0) }), c),
{
    assert(frames.push(RawValueCopyStack::Items { remaining: Some(0) }).drop_last() =~= frames);
}

/// A count of no pairs is done: it expects what the frames below it expect.
proof fn lemma_counted_pairs_start(frames: Seq<RawValueCopyStack>, c: Seq<WriteEvent>)
    requires
        expects(frames, c),
    ensures
        expects(
            frames.push(RawValueCopyStack::Pairs { value_next: false, remaining: Some(0) }),
            c,
        ),
{
    assert(frames.push(RawValueCopyStack::Pairs { value_next: false, remaining: Some(0) }).drop_last()
        =~= frames);
}

/// The events of the fields of a struct or variant of shape `st` are what the
/// frames that its tag announces expect.
proof fn lemma_struct_expects(
    es: Seq<WriteEvent>,
    st: StructTag,
    sv: StructValue,
    frames: Seq<RawValueCopyStack>,
    c: Seq<WriteEvent>,
)
    requires
        struct_decodes(es, st, sv),
        expects(frames, c),
    ensures
        expects(frames + struct_announced(st), es + c),
    decreases es.len(), 4 + match st {
        StructTag::Tuple { len } => len as int,
        StructTag::Struct { len } => len as int,
        _ => 0,
    },
{
    match (st, sv) {
        (StructTag::Unit, StructValue::Unit) => {
            assert(frames + struct_announced(st) =~= frames);
            assert(es + c =~= c);
        },
        (StructTag::Newtype, StructValue::Newtype(v)) => {
            assert(frames + struct_announced(st) =~= frames.push(RawValueCopyStack::Object));
            lemma_value_expects(es, *v, frames, c);
        },
        (StructTag::Tuple { len }, StructValue::Tuple(vs)) => {
            assert(frames + struct_announced(st) =~= frames.push(
                RawValueCopyStack::Items { remaining: Some(len) },
            ));
            lemma_counted_items_start(frames, c);
            lemma_items_expects(es, vs@, frames, 0, c);
            assert((0 + vs@.len()) as usize == len);
        },
        (StructTag::Struct { len }, StructValue::Struct(fs)) => {
            let raw = choose|raw: Seq<(Seq<char>, ObjectValue)>|
                #![trigger crate::object::fields_by_name(raw)]
                raw.len() == len && fields_decode(es, raw) && crate::object::named_view(fs@)
                    == crate::object::fields_by_name(raw);
            assert(frames + struct_announced(st) =~= frames.push(
                RawValueCopyStack::Struct { remaining: len },
            ));
            assert(frames.push(RawValueCopyStack::Struct { remaining: 0 }).drop_last() =~= frames);
            lemma_fields_expects(es, raw, frames, 0, c);
            assert((0 + raw.len()) as usize == len);
        },
        _ => {},
    }
}

/// The events of the values `vs` are what a count of items expects, with the
/// count raised by their number.
proof fn lemma_items_expects(
    es: Seq<WriteEvent>,
    vs: Seq<ObjectValue>,
    frames: Seq<RawValueCopyStack>,
    m: nat,
    c: Seq<WriteEvent>,
)
    requires
        items_decode(es, vs),
        m + vs.len() <= usize::MAX,
        expects(frames.push(RawValueCopyStack::Items { remaining: Some(m as usize) }), c),
    ensures
        expects(
            frames.push(RawValueCopyStack::Items { remaining: Some((m + vs.len()) as usize) }),
            es + c,
        ),
    decreases es.len(), vs.len() + 3,
{
    if vs.len() == 0 {
        assert(es + c =~= c);
    } else {
        let k = choose|k: int|
            #![trigger es.take(k), es.skip(k)]
            0 <= k <= es.len() && items_decode(es.take(k), vs.drop_last()) && decodes(
                es.skip(k),
                vs.last(),
            );
        let inner = frames.push(RawValueCopyStack::Items { remaining: Some(m as usize) });
        let outer = frames.push(RawValueCopyStack::Items { remaining: Some((m + 1) as usize) });
        lemma_value_expects(es.skip(k), vs.last(), inner, c);
        assert(outer.drop_last() =~= frames);
        crate::object_shape::lemma_decodes_starts_with_tag(es.skip(k), vs.last());
        assert((es.skip(k) + c)[0] == es.skip(k)[0]);
        lemma_tag_as_object(outer, inner, es.skip(k) + c);
        lemma_items_expects(es.take(k), vs.drop_last(), frames, m + 1, es.skip(k) + c);
        assert(es.take(k) + es.skip(k) =~= es);
        lemma_concat_assoc(es.take(k), es.skip(k), c);
        assert(m + 1 + vs.drop_last().len() == m + vs.len());
    }
}

/// The events of the values `vs` are what items up to an end marker expect.
proof fn lemma_uncounted_items_expects(
    es: Seq<WriteEvent>,
    vs: Seq<ObjectValue>,
    frames: Seq<RawValueCopyStack>,
    c: Seq<WriteEvent>,
)
    requires
        items_decode(es, vs),
        expects(frames.push(RawValueCopyStack::Items { remaining: None }), c),
    ensures
        expects(frames.push(RawValueCopyStack::Items { remaining: None }), es + c),
    decreases es.len(), vs.len() + 3,
{
    if vs.len() == 0 {
        assert(es + c =~= c);
    } else {
        let k = choose|k: int|
            #![trigger es.take(k), es.skip(k)]
            0 <= k <= es.len() && items_decode(es.take(k), vs.drop_last()) && decodes(
                es.skip(k),
                vs.last(),
            );
        let g = frames.push(RawValueCopyStack::Items { remaining: None });
        lemma_value_expects(es.skip(k), vs.last(), g, c);
        assert(g.drop_last() =~= frames);
        lemma_decodes_starts_with_tag(es.skip(k), vs.last());
        assert((es.skip(k) + c)[0] == es.skip(k)[0]);
        lemma_tag_as_object(g, g, es.skip(k) + c);
        lemma_uncounted_items_expects(es.take(k), vs.drop_last(), frames, es.skip(k) + c);
        assert(es.take(k) + es.skip(k) =~= es);
        lemma_concat_assoc(es.take(k), es.skip(k), c);
    }
}

/// The events of the pairs `ps` are what a count of pairs expects, with the
/// count raised by their number.
proof fn lemma_pairs_expects(
    es: Seq<WriteEvent>,
    ps: Seq<(ObjectValue, ObjectValue)>,
    frames: Seq<RawValueCopyStack>,
    m: nat,
    c: Seq<WriteEvent>,
)
    requires
        pairs_decode(es, ps),
        m + ps.len() <= usize::MAX,
        expects(
            frames.push(RawValueCopyStack::Pairs { value_next: false, remaining: Some(m as usize) }),
            c,
        ),
    ensures
        expects(
            frames.push(
                RawValueCopyStack::Pairs {
                    value_next: false,
                    remaining: Some((m + ps.len()) as usize),
                },
            ),
            es + c,
        ),
    decreases es.len(), ps.len() + 3,
{
    if ps.len() == 0 {
        assert(es + c =~= c);
    } else {
        let (k, j) = choose|k: int, j: int|
            #![trigger es.take(k), es.subrange(k, j), es.skip(j)]
            0 <= k <= j <= es.len() && pairs_decode(es.take(k), ps.drop_last()) && decodes(
                es.subrange(k, j),
                ps.last().0,
            ) && decodes(es.skip(j), ps.last().1);
        let key = es.subrange(k, j);
        let val = es.skip(j);
        let after_key = frames.push(
            RawValueCopyStack::Pairs { value_next: false, remaining: Some(m as usize) },
        );
        let value_next = frames.push(
            RawValueCopyStack::Pairs { value_next: true, remaining: Some(m as usize) },
        );
        let outer = frames.push(
            RawValueCopyStack::Pairs { value_next: false, remaining: Some((m + 1) as usize) },
        );
        lemma_value_expects(val, ps.last().1, after_key, c);
        assert(value_next.drop_last() =~= frames);
        lemma_decodes_starts_with_tag(val, ps.last().1);
        assert((val + c)[0] == val[0]);
        lemma_tag_as_object(value_next, after_key, val + c);
        lemma_value_expects(key, ps.last().0, value_next, val + c);
        assert(outer.drop_last() =~= frames);
        lemma_decodes_starts_with_tag(key, ps.last().0);
        assert((key + (val + c))[0] == key[0]);
        lemma_tag_as_object(outer, value_next, key + (val + c));
        lemma_pairs_expects(es.take(k), ps.drop_last(), frames, m + 1, key + (val + c));
        assert(es.take(k) + (key + (val + c)) =~= es + c);
        assert(m + 1 + ps.drop_last().len() == m + ps.len());
    }
}

/// The events of the pairs `ps` are what pairs up to an end marker expect.
proof fn lemma_uncounted_pairs_expects(
    es: Seq<WriteEvent>,
    ps: Seq<(ObjectValue, ObjectValue)>,
    frames: Seq<RawValueCopyStack>,
    c: Seq<WriteEvent>,
)
    requires
        pairs_decode(es, ps),
        expects(frames.push(RawValueCopyStack::Pairs { value_next: false, remaining: None }), c),
    ensures
        expects(
            frames.push(RawValueCopyStack::Pairs { value_next: false, remaining: None }),
            es + c,
        ),
    decreases es.len(), ps.len() + 3,
{
    if ps.len() == 0 {
        assert(es + c =~= c);
    } else {
        let (k, j) = choose|k: int, j: int|
            #![trigger es.take(k), es.subrange(k, j), es.skip(j)]
            0 <= k <= j <= es.len() && pairs_decode(es.take(k), ps.drop_last()) && decodes(
                es.subrange(k, j),
                ps.last().0,
            ) && decodes(es.skip(j), ps.last().1);
        let key = es.subrange(k, j);
        let val = es.skip(j);
        let key_next = frames.push(
            RawValueCopyStack::Pairs { value_next: false, remaining: None },
        );
        let value_next = frames.push(RawValueCopyStack::Pairs { value_next: true, remaining: None });
        lemma_value_expects(val, ps.last().1, key_next, c);
        assert(value_next.drop_last() =~= frames);
        lemma_decodes_starts_with_tag(val, ps.last().1);
        assert((val + c)[0] == val[0]);
        lemma_tag_as_object(value_next, key_next, val + c);
        lemma_value_expects(key, ps.last().0, value_next, val + c);
        assert(key_next.drop_last() =~= frames);
        lemma_decodes_starts_with_tag(key, ps.last().0);
        assert((key + (val + c))[0] == key[0]);
        lemma_tag_as_object(key_next, value_next, key + (val + c));
        lemma_uncounted_pairs_expects(es.take(k), ps.drop_last(), frames, key + (val + c));
        assert(es.take(k) + (key + (val + c)) =~= es + c);
    }
}

/// The events of the named fields `raw` are what a count of fields expects,
/// with the count raised by their number.
proof fn lemma_fields_expects(
    es: Seq<WriteEvent>,
    raw: Seq<(Seq<char>, ObjectValue)>,
    frames: Seq<RawValueCopyStack>,
    m: nat,
    c: Seq<WriteEvent>,
)
    requires
        fields_decode(es, raw),
        m + raw.len() <= usize::MAX,
        expects(frames.push(RawValueCopyStack::Struct { remaining: m as usize }), c),
    ensures
        expects(
            frames.push(RawValueCopyStack::Struct { remaining: (m + raw.len()) as usize }),
            es + c,
        ),
    decreases es.len(), raw.len() + 3,
{
    if raw.len() == 0 {
        assert(es + c =~= c);
    } else {
        let k = choose|k: int|
            #![trigger es.take(k), es.skip(k + 1)]
            0 <= k < es.len() && fields_decode(es.take(k), raw.drop_last()) && es[k]
                == WriteEvent::Str(raw.last().0) && decodes(es.skip(k + 1), raw.last().1);
        let val = es.skip(k + 1);
        let inner = frames.push(RawValueCopyStack::Struct { remaining: m as usize });
        let outer = frames.push(RawValueCopyStack::Struct { remaining: (m + 1) as usize });
        lemma_value_expects(val, raw.last().1, inner, c);
        let field = seq![es[k]] + (val + c);
        assert(outer.drop_last() =~= frames);
        assert(field.drop_first() =~= val + c);
        assert(frames_after(outer, field[0]) == Some(inner.push(RawValueCopyStack::Object)));
        assert(expects(outer, field));
        lemma_fields_expects(es.take(k), raw.drop_last(), frames, m + 1, field);
        assert(es.take(k) + field =~= es + c);
        assert(m + 1 + raw.drop_last().len() == m + raw.len());
    }
}

/// The events of a value start with a tag.
pub(crate) proof fn lemma_decodes_starts_with_tag(es: Seq<WriteEvent>, o: ObjectValue)
    requires
        decodes(es, o),
    ensures
        es.len() > 0,
        es[0] is Tag,
{
}

/// The events of a value are one object.
pub(crate) proof fn lemma_decodes_one_object(es: Seq<WriteEvent>, o: ObjectValue)
    requires
        decodes(es, o),
    ensures
        one_object(es),
{
    let empty = Seq::<RawValueCopyStack>::empty();
    lemma_value_expects(es, o, empty, Seq::empty());
    assert(empty.push(RawValueCopyStack::Object) =~= seq![RawValueCopyStack::Object]);
    assert(es + Seq::<WriteEvent>::empty() =~= es);
}

/// A value is read in one way only: two values read from one reader were read
/// from the same events, and leave it at the same place.
pub(crate) proof fn lemma_read_as_unique(
    r: ReaderModel,
    a: Seq<WriteEvent>,
    oa: ObjectValue,
    ra: ReaderModel,
    b: Seq<WriteEvent>,
    ob: ObjectValue,
    rb: ReaderModel,
)
    requires
        read_as(r, a, oa, ra),
        read_as(r, b, ob, rb),
    ensures
        a == b,
        ra == rb,
{
    lemma_decodes_one_object(a, oa);
    lemma_decodes_one_object(b, ob);
    lemma_expects_deterministic(seq![RawValueCopyStack::Object], r, a, ra, b, rb);
}

/// Reading a run of events that is read as it is reads its first part, then
/// the rest from where the first part ends.
pub(crate) proof fn lemma_read_all_split(r: ReaderModel, a: Seq<WriteEvent>, b: Seq<WriteEvent>) -> (mid: ReaderModel)
    requires
        read_all(r, a + b) matches Some((x, _)) && x == a + b,
    ensures
        read_all(r, a) == Some((a, mid)),
        read_all(mid, b) == Some((b, read_all(r, a + b).unwrap().1)),
    decreases a.len(),
{
    if a.len() == 0 {
        assert(a + b =~= b);
        r
    } else {
        let ab = a + b;
        let (e1, m) = read_step(r, ab[0]).unwrap();
        let (rest, _) = read_all(m, ab.drop_first()).unwrap();
        assert((seq![e1] + rest)[0] == e1);
        assert((seq![e1] + rest).drop_first() =~= rest);
        assert(ab[0] == a[0]);
        assert(ab.drop_first() =~= a.drop_first() + b);
        let mid = lemma_read_all_split(m, a.drop_first(), b);
        assert(seq![a[0]] + a.drop_first() =~= a);
        mid
    }
}

/// The values `vs` of a run, split from the front: the first value, then the
/// others.
pub(crate) proof fn lemma_items_front(es: Seq<WriteEvent>, vs: Seq<ObjectValue>) -> (k: int)
    requires
        items_decode(es, vs),
        vs.len() > 0,
    ensures
        0 <= k <= es.len(),
        decodes(es.take(k), vs[0]),
        items_decode(es.skip(k), vs.drop_first()),
    decreases vs.len(),
{
    let j = choose|j: int|
        #![trigger es.take(j), es.skip(j)]
        0 <= j <= es.len() && items_decode(es.take(j), vs.drop_last()) && decodes(
            es.skip(j),
            vs.last(),
        );
    if vs.len() == 1 {
        assert(es.take(j).len() == 0);
        assert(es.skip(j) =~= es);
        assert(es.take(es.len() as int) =~= es);
        assert(es.skip(es.len() as int) =~= Seq::<WriteEvent>::empty());
        assert(vs.drop_first() =~= Seq::<ObjectValue>::empty());
        es.len() as int
    } else {
        let a = es.take(j);
        let k = lemma_items_front(a, vs.drop_last());
        let s2 = es.skip(k);
        assert(es.take(k) =~= a.take(k));
        assert(s2.take(j - k) =~= a.skip(k));
        assert(s2.skip(j - k) =~= es.skip(j));
        assert(vs.drop_first().drop_last() =~= vs.drop_last().drop_first());
        assert(vs.drop_first().last() == vs.last());
        assert(items_decode(s2.take(j - k), vs.drop_first().drop_last()));
        assert(decodes(s2.skip(j - k), vs.drop_first().last()));
        k
    }
}

/// The pairs `ps` of a run, split from the front: the first key, its value,
/// then the other pairs.
pub(crate) proof fn lemma_pairs_front(es: Seq<WriteEvent>, ps: Seq<(ObjectValue, ObjectValue)>) -> (kj: (int, int))
    requires
        pairs_decode(es, ps),
        ps.len() > 0,
    ensures
        0 <= kj.0 <= kj.1 <= es.len(),
        decodes(es.take(kj.0), ps[0].0),
        decodes(es.subrange(kj.0, kj.1), ps[0].1),
        pairs_decode(es.skip(kj.1), ps.drop_first()),
    decreases ps.len(),
{
    let (k, j) = choose|k: int, j: int|
        #![trigger es.take(k), es.subrange(k, j), es.skip(j)]
        0 <= k <= j <= es.len() && pairs_decode(es.take(k), ps.drop_last()) && decodes(
            es.subrange(k, j),
            ps.last().0,
        ) && decodes(es.skip(j), ps.last().1);
    if ps.len() == 1 {
        assert(es.take(k).len() == 0);
        assert(es.take(j) =~= es.subrange(k, j));
        assert(es.subrange(j, es.len() as int) =~= es.skip(j));
        assert(es.skip(es.len() as int) =~= Seq::<WriteEvent>::empty());
        assert(ps.drop_first() =~= Seq::<(ObjectValue, ObjectValue)>::empty());
        (j, es.len() as int)
    } else {
        let a = es.take(k);
        let (k1, j1) = lemma_pairs_front(a, ps.drop_last());
        let s2 = es.skip(j1);
        assert(es.take(k1) =~= a.take(k1));
        assert(es.subrange(k1, j1) =~= a.subrange(k1, j1));
        assert(s2.take(k - j1) =~= a.skip(j1));
        assert(s2.subrange(k - j1, j - j1) =~= es.subrange(k, j));
        assert(s2.skip(j - j1) =~= es.skip(j));
        assert(ps.drop_first().drop_last() =~= ps.drop_last().drop_first());
        assert(ps.drop_first().last() == ps.last());
        assert(pairs_decode(s2.take(k - j1), ps.drop_first().drop_last()));
        assert(decodes(s2.subrange(k - j1, j - j1), ps.drop_first().last().0));
        assert(decodes(s2.skip(j - j1), ps.drop_first().last().1));
        (k1, j1)
    }
}

/// The named fields `raw` of a run, split from the front: the first name, its
/// value, then the other fields.
pub(crate) proof fn lemma_fields_front(es: Seq<WriteEvent>, raw: Seq<(Seq<char>, ObjectValue)>) -> (k: int)
    requires
        fields_decode(es, raw),
        raw.len() > 0,
    ensures
        1 <= k <= es.len(),
        es[0] == WriteEvent::Str(raw[0].0),
        decodes(es.subrange(1, k), raw[0].1),
        fields_decode(es.skip(k), raw.drop_first()),
    decreases raw.len(),
{
    let j = choose|j: int|
        #![trigger es.take(j), es.skip(j + 1)]
        0 <= j < es.len() && fields_decode(es.take(j), raw.drop_last()) && es[j]
            == WriteEvent::Str(raw.last().0) && decodes(es.skip(j + 1), raw.last().1);
    if raw.len() == 1 {
        assert(es.take(j).len() == 0);
        assert(es.subrange(1, es.len() as int) =~= es.skip(j + 1));
        assert(es.skip(es.len() as int) =~= Seq::<WriteEvent>::empty());
        assert(raw.drop_first() =~= Seq::<(Seq<char>, ObjectValue)>::empty());
        es.len() as int
    } else {
        let a = es.take(j);
        let k = lemma_fields_front(a, raw.drop_last());
        let s2 = es.skip(k);
        assert(es.subrange(1, k) =~= a.subrange(1, k));
        assert(es[0] == a[0]);
        assert(s2.take(j - k) =~= a.skip(k));
        assert(s2[j - k] == es[j]);
        assert(s2.skip(j - k + 1) =~= es.skip(j + 1));
        assert(raw.drop_first().drop_last() =~= raw.drop_last().drop_first());
        assert(raw.drop_first().last() == raw.last());
        assert(fields_decode(s2.take(j - k), raw.drop_first().drop_last()));
        assert(decodes(s2.skip(j - k + 1), raw.drop_first().last().1));
        k
    }
}

} // verus!
