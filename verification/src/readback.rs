use vstd::prelude::*;
use vstd::utf8::{decode_utf8, encode_utf8, encode_utf8_decode_utf8, valid_utf8};

use crate::object::reads_through;
use crate::object_shape::lemma_read_all_split;
use crate::reader::{dec_header, fresh_reader, ReaderInitError, ReaderModel};
use crate::raw::{empty_writer, lemma_write_all_is_write_events, object_bytes};
use crate::roundtrip::{
    final_bytes,
    lemma_stream_roundtrip,
    read_all,
    read_step,
    write_all,
    WriteEvent,
};
use crate::tag::{OptionTag, TagModel};
use crate::value_roundtrip::{lemma_plain_read_exact, plain_tags, tag_plain};
use crate::writer::{header_bytes, WritePrimitive, WriterModel, MAX_OPT_STR_LEN};
use crate::{
    all_written_events,
    items_from,
    joined_events,
    lemma_joined_push,
    lemma_stream_bytes_read_back,
    owed_items,
    stream_bytes,
    SmolRead,
    SmolWrite,
    FORMAT_VERSION,
};

verus! {

/// Values of `T` are read back from what they write: wherever the events that
/// a value `x` writes are followed by other events, the only run of events
/// from their start that decodes to a value of `T` is the events of `x`, and
/// the value it decodes to writes the same events as `x`.
pub open spec fn reads_back_exactly<T: SmolRead + SmolWrite>() -> bool {
    forall|x: T, rest: Seq<WriteEvent>, k: int, v: T|
        #![trigger T::decoded_from((x.written_events() + rest).take(k), v)]
        0 <= k <= x.written_events().len() + rest.len() && T::decoded_from(
            (x.written_events() + rest).take(k),
            v,
        ) ==> k == x.written_events().len() && v.written_events() == x.written_events()
}

/// A value of `T` is the one value of `T` that writes its events.
pub open spec fn written_events_determine<T: SmolWrite>() -> bool {
    forall|x: T, v: T| #[trigger] x.written_events() == #[trigger] v.written_events() ==> x == v
}

/// What a value writes decodes to a value that writes the same: where values
/// of `T` read back exactly, the events that `x` writes decode only to values
/// that write those events again.
pub proof fn lemma_written_decodes_to_same<T: SmolRead + SmolWrite>(x: T, v: T)
    requires
        reads_back_exactly::<T>(),
        T::decoded_from(x.written_events(), v),
    ensures
        v.written_events() == x.written_events(),
{
    let w = x.written_events();
    let rest = Seq::<WriteEvent>::empty();
    assert((w + rest).take(w.len() as int) =~= w);
    assert(T::decoded_from((w + rest).take(w.len() as int), v));
}

/// A run from the start of one event and what follows it that is one event
/// is that event.
proof fn lemma_one_event_prefix(w: WriteEvent, rest: Seq<WriteEvent>, k: int, e: WriteEvent)
    requires
        0 <= k <= 1 + rest.len(),
        (seq![w] + rest).take(k) == seq![e],
    ensures
        k == 1,
        e == w,
{
    assert((seq![w] + rest).take(k).len() == 1);
    assert((seq![w] + rest).take(k)[0] == (seq![w] + rest)[0]);
}

/// Each primitive type reads back exactly, and a primitive value is the one
/// value of its type that writes its events.
pub proof fn lemma_primitives_read_back_exactly()
    ensures
        reads_back_exactly::<()>(),
        reads_back_exactly::<bool>(),
        reads_back_exactly::<char>(),
        reads_back_exactly::<i8>(),
        reads_back_exactly::<u8>(),
        reads_back_exactly::<i16>(),
        reads_back_exactly::<u16>(),
        reads_back_exactly::<i32>(),
        reads_back_exactly::<u32>(),
        reads_back_exactly::<i64>(),
        reads_back_exactly::<u64>(),
        reads_back_exactly::<i128>(),
        reads_back_exactly::<u128>(),
        written_events_determine::<bool>(),
        written_events_determine::<char>(),
        written_events_determine::<i8>(),
        written_events_determine::<u8>(),
        written_events_determine::<i16>(),
        written_events_determine::<u16>(),
        written_events_determine::<i32>(),
        written_events_determine::<u32>(),
        written_events_determine::<i64>(),
        written_events_determine::<u64>(),
        written_events_determine::<i128>(),
        written_events_determine::<u128>(),
{
    assert forall|x: (), rest: Seq<WriteEvent>, k: int, v: ()|
        0 <= k <= x.written_events().len() + rest.len() && #[trigger] <() as SmolRead>::decoded_from(
            (x.written_events() + rest).take(k),
            v,
        ) implies k == x.written_events().len() && v.written_events() == x.written_events() by {
        lemma_one_event_prefix(WriteEvent::Tag(x.spec_tag()), rest, k, WriteEvent::Tag(v.spec_tag()));
    }
    assert forall|x: bool, rest: Seq<WriteEvent>, k: int, v: bool|
        0 <= k <= x.written_events().len() + rest.len() && #[trigger] <bool as SmolRead>::decoded_from(
            (x.written_events() + rest).take(k),
            v,
        ) implies k == x.written_events().len() && v.written_events() == x.written_events() by {
        lemma_one_event_prefix(WriteEvent::Tag(x.spec_tag()), rest, k, WriteEvent::Tag(v.spec_tag()));
    }
    assert forall|x: char, rest: Seq<WriteEvent>, k: int, v: char|
        0 <= k <= x.written_events().len() + rest.len() && #[trigger] <char as SmolRead>::decoded_from(
            (x.written_events() + rest).take(k),
            v,
        ) implies k == x.written_events().len() && v.written_events() == x.written_events() by {
        lemma_one_event_prefix(WriteEvent::Tag(x.spec_tag()), rest, k, WriteEvent::Tag(v.spec_tag()));
    }
    assert forall|x: i8, rest: Seq<WriteEvent>, k: int, v: i8|
        0 <= k <= x.written_events().len() + rest.len() && #[trigger] <i8 as SmolRead>::decoded_from(
            (x.written_events() + rest).take(k),
            v,
        ) implies k == x.written_events().len() && v.written_events() == x.written_events() by {
        lemma_one_event_prefix(WriteEvent::Tag(x.spec_tag()), rest, k, WriteEvent::Tag(v.spec_tag()));
    }
    assert forall|x: u8, rest: Seq<WriteEvent>, k: int, v: u8|
        0 <= k <= x.written_events().len() + rest.len() && #[trigger] <u8 as SmolRead>::decoded_from(
            (x.written_events() + rest).take(k),
            v,
        ) implies k == x.written_events().len() && v.written_events() == x.written_events() by {
        lemma_one_event_prefix(WriteEvent::Tag(x.spec_tag()), rest, k, WriteEvent::Tag(v.spec_tag()));
    }
    assert forall|x: i16, rest: Seq<WriteEvent>, k: int, v: i16|
        0 <= k <= x.written_events().len() + rest.len() && #[trigger] <i16 as SmolRead>::decoded_from(
            (x.written_events() + rest).take(k),
            v,
        ) implies k == x.written_events().len() && v.written_events() == x.written_events() by {
        lemma_one_event_prefix(WriteEvent::Tag(x.spec_tag()), rest, k, WriteEvent::Tag(v.spec_tag()));
    }
    assert forall|x: u16, rest: Seq<WriteEvent>, k: int, v: u16|
        0 <= k <= x.written_events().len() + rest.len() && #[trigger] <u16 as SmolRead>::decoded_from(
            (x.written_events() + rest).take(k),
            v,
        ) implies k == x.written_events().len() && v.written_events() == x.written_events() by {
        lemma_one_event_prefix(WriteEvent::Tag(x.spec_tag()), rest, k, WriteEvent::Tag(v.spec_tag()));
    }
    assert forall|x: i32, rest: Seq<WriteEvent>, k: int, v: i32|
        0 <= k <= x.written_events().len() + rest.len() && #[trigger] <i32 as SmolRead>::decoded_from(
            (x.written_events() + rest).take(k),
            v,
        ) implies k == x.written_events().len() && v.written_events() == x.written_events() by {
        lemma_one_event_prefix(WriteEvent::Tag(x.spec_tag()), rest, k, WriteEvent::Tag(v.spec_tag()));
    }
    assert forall|x: u32, rest: Seq<WriteEvent>, k: int, v: u32|
        0 <= k <= x.written_events().len() + rest.len() && #[trigger] <u32 as SmolRead>::decoded_from(
            (x.written_events() + rest).take(k),
            v,
        ) implies k == x.written_events().len() && v.written_events() == x.written_events() by {
        lemma_one_event_prefix(WriteEvent::Tag(x.spec_tag()), rest, k, WriteEvent::Tag(v.spec_tag()));
    }
    assert forall|x: i64, rest: Seq<WriteEvent>, k: int, v: i64|
        0 <= k <= x.written_events().len() + rest.len() && #[trigger] <i64 as SmolRead>::decoded_from(
            (x.written_events() + rest).take(k),
            v,
        ) implies k == x.written_events().len() && v.written_events() == x.written_events() by {
        lemma_one_event_prefix(WriteEvent::Tag(x.spec_tag()), rest, k, WriteEvent::Tag(v.spec_tag()));
    }
    assert forall|x: u64, rest: Seq<WriteEvent>, k: int, v: u64|
        0 <= k <= x.written_events().len() + rest.len() && #[trigger] <u64 as SmolRead>::decoded_from(
            (x.written_events() + rest).take(k),
            v,
        ) implies k == x.written_events().len() && v.written_events() == x.written_events() by {
        lemma_one_event_prefix(WriteEvent::Tag(x.spec_tag()), rest, k, WriteEvent::Tag(v.spec_tag()));
    }
    assert forall|x: i128, rest: Seq<WriteEvent>, k: int, v: i128|
        0 <= k <= x.written_events().len() + rest.len() && #[trigger] <i128 as SmolRead>::decoded_from(
            (x.written_events() + rest).take(k),
            v,
        ) implies k == x.written_events().len() && v.written_events() == x.written_events() by {
        lemma_one_event_prefix(WriteEvent::Tag(x.spec_tag()), rest, k, WriteEvent::Tag(v.spec_tag()));
    }
    assert forall|x: u128, rest: Seq<WriteEvent>, k: int, v: u128|
        0 <= k <= x.written_events().len() + rest.len() && #[trigger] <u128 as SmolRead>::decoded_from(
            (x.written_events() + rest).take(k),
            v,
        ) implies k == x.written_events().len() && v.written_events() == x.written_events() by {
        lemma_one_event_prefix(WriteEvent::Tag(x.spec_tag()), rest, k, WriteEvent::Tag(v.spec_tag()));
    }
    assert forall|x: bool, v: bool| #[trigger] x.written_events() == #[trigger] v.written_events() implies x == v by {
        assert(x.written_events()[0] == v.written_events()[0]);
    }
    assert forall|x: char, v: char| #[trigger] x.written_events() == #[trigger] v.written_events() implies x == v by {
        assert(x.written_events()[0] == v.written_events()[0]);
    }
    assert forall|x: i8, v: i8| #[trigger] x.written_events() == #[trigger] v.written_events() implies x == v by {
        assert(x.written_events()[0] == v.written_events()[0]);
    }
    assert forall|x: u8, v: u8| #[trigger] x.written_events() == #[trigger] v.written_events() implies x == v by {
        assert(x.written_events()[0] == v.written_events()[0]);
    }
    assert forall|x: i16, v: i16| #[trigger] x.written_events() == #[trigger] v.written_events() implies x == v by {
        assert(x.written_events()[0] == v.written_events()[0]);
    }
    assert forall|x: u16, v: u16| #[trigger] x.written_events() == #[trigger] v.written_events() implies x == v by {
        assert(x.written_events()[0] == v.written_events()[0]);
    }
    assert forall|x: i32, v: i32| #[trigger] x.written_events() == #[trigger] v.written_events() implies x == v by {
        assert(x.written_events()[0] == v.written_events()[0]);
    }
    assert forall|x: u32, v: u32| #[trigger] x.written_events() == #[trigger] v.written_events() implies x == v by {
        assert(x.written_events()[0] == v.written_events()[0]);
    }
    assert forall|x: i64, v: i64| #[trigger] x.written_events() == #[trigger] v.written_events() implies x == v by {
        assert(x.written_events()[0] == v.written_events()[0]);
    }
    assert forall|x: u64, v: u64| #[trigger] x.written_events() == #[trigger] v.written_events() implies x == v by {
        assert(x.written_events()[0] == v.written_events()[0]);
    }
    assert forall|x: i128, v: i128| #[trigger] x.written_events() == #[trigger] v.written_events() implies x == v by {
        assert(x.written_events()[0] == v.written_events()[0]);
    }
    assert forall|x: u128, v: u128| #[trigger] x.written_events() == #[trigger] v.written_events() implies x == v by {
        assert(x.written_events()[0] == v.written_events()[0]);
    }
}

/// Options of a type that reads back exactly read back exactly.
pub proof fn lemma_option_reads_back_exactly<T: SmolRead + SmolWrite>()
    requires
        reads_back_exactly::<T>(),
    ensures
        reads_back_exactly::<Option<T>>(),
{
    assert forall|x: Option<T>, rest: Seq<WriteEvent>, k: int, v: Option<T>|
        0 <= k <= x.written_events().len() + rest.len() && #[trigger] <Option<
            T,
        > as SmolRead>::decoded_from((x.written_events() + rest).take(k), v) implies k
        == x.written_events().len() && v.written_events() == x.written_events() by {
        let all = x.written_events() + rest;
        let es = all.take(k);
        assert(es[0] == all[0]);
        match x {
            None => {
                match v {
                    None => {
                        assert(es.len() == 1);
                    },
                    Some(y) => {
                        assert(false);
                    },
                }
            },
            Some(x1) => {
                let w1 = x1.written_events();
                assert(all[0] == WriteEvent::Tag(TagModel::Option(OptionTag::Present)));
                match v {
                    None => {
                        assert(false);
                    },
                    Some(y) => {
                        assert(es.drop_first() =~= (w1 + rest).take(k - 1));
                        assert(T::decoded_from((w1 + rest).take(k - 1), y));
                    },
                }
            },
        }
    }
}

/// An option of values that are the one value that writes their events is
/// the one option that writes its events.
pub proof fn lemma_option_written_events_determine<T: SmolWrite>()
    requires
        written_events_determine::<T>(),
    ensures
        written_events_determine::<Option<T>>(),
{
    assert forall|x: Option<T>, v: Option<T>| #[trigger] x.written_events()
        == #[trigger] v.written_events() implies x == v by {
        assert(x.written_events()[0] == v.written_events()[0]);
        match (x, v) {
            (Some(a), Some(b)) => {
                assert(a.written_events() =~= x.written_events().drop_first());
                assert(b.written_events() =~= v.written_events().drop_first());
            },
            _ => {},
        }
    }
}

/// Boxed values of a type that reads back exactly read back exactly.
pub proof fn lemma_box_reads_back_exactly<T: SmolRead + SmolWrite>()
    requires
        reads_back_exactly::<T>(),
    ensures
        reads_back_exactly::<Box<T>>(),
{
    assert forall|x: Box<T>, rest: Seq<WriteEvent>, k: int, v: Box<T>|
        0 <= k <= x.written_events().len() + rest.len() && #[trigger] <Box<
            T,
        > as SmolRead>::decoded_from((x.written_events() + rest).take(k), v) implies k
        == x.written_events().len() && v.written_events() == x.written_events() by {
        assert(T::decoded_from(((*x).written_events() + rest).take(k), *v));
    }
}

/// Pairs of types that read back exactly read back exactly.
pub proof fn lemma_pair_reads_back_exactly<A: SmolRead + SmolWrite, B: SmolRead + SmolWrite>()
    requires
        reads_back_exactly::<A>(),
        reads_back_exactly::<B>(),
    ensures
        reads_back_exactly::<(A, B)>(),
{
    assert forall|x: (A, B), rest: Seq<WriteEvent>, k: int, v: (A, B)|
        0 <= k <= x.written_events().len() + rest.len() && #[trigger] <(
            A,
            B,
        ) as SmolRead>::decoded_from((x.written_events() + rest).take(k), v) implies k
        == x.written_events().len() && v.written_events() == x.written_events() by {
        let w1 = x.0.written_events();
        let w2 = x.1.written_events();
        let all = x.written_events() + rest;
        let es = all.take(k);
        let parts = choose|parts: Seq<Seq<WriteEvent>>|
            #![trigger joined_events(parts)]
            parts.len() == 2 && es.drop_first() == joined_events(parts) && A::decoded_from(
                parts[0],
                v.0,
            ) && B::decoded_from(parts[1], v.1);
        let p0 = parts[0];
        let p1 = parts[1];
        assert(joined_events(parts.drop_last()) =~= p0) by {
            assert(parts.drop_last().drop_last().len() == 0);
            assert(joined_events(parts.drop_last().drop_last()) == Seq::<WriteEvent>::empty());
            assert(parts.drop_last().last() == p0);
        }
        assert(joined_events(parts) =~= p0 + p1);
        assert(all =~= seq![WriteEvent::Tag(TagModel::Tuple(2))] + (w1 + (w2 + rest)));
        assert(es.drop_first() =~= (w1 + (w2 + rest)).take(k - 1));
        assert(p0 =~= (w1 + (w2 + rest)).take(p0.len() as int));
        assert(A::decoded_from((x.0.written_events() + (w2 + rest)).take(p0.len() as int), v.0));
        assert(p0.len() == w1.len() && v.0.written_events() == w1);
        assert(p1 =~= es.drop_first().skip(p0.len() as int));
        assert(p1 =~= (w2 + rest).take(k - 1 - w1.len()));
        assert(B::decoded_from((x.1.written_events() + rest).take(k - 1 - w1.len()), v.1));
        assert(v.written_events() =~= x.written_events());
    }
}

/// The events of values, one after another, are those of the first value,
/// then those of the others.
proof fn lemma_all_written_front<T: SmolWrite>(xs: Seq<T>)
    requires
        xs.len() > 0,
    ensures
        all_written_events(xs) == xs[0].written_events() + all_written_events(xs.drop_first()),
    decreases xs.len(),
{
    if xs.len() == 1 {
        assert(xs.drop_last().len() == 0);
        assert(xs.drop_first().len() == 0);
        assert(all_written_events(xs.drop_last()) == Seq::<WriteEvent>::empty());
        assert(all_written_events(xs.drop_first()) == Seq::<WriteEvent>::empty());
        assert(xs.last() == xs[0]);
        assert(all_written_events(xs) =~= xs[0].written_events() + all_written_events(
            xs.drop_first(),
        ));
    } else {
        lemma_all_written_front(xs.drop_last());
        let mid = xs.drop_first().drop_last();
        assert(xs.drop_last().drop_first() =~= mid);
        assert(xs.drop_first().last() == xs.last());
        assert(xs.drop_last()[0] == xs[0]);
        let a = xs[0].written_events();
        let b = all_written_events(mid);
        let c = xs.last().written_events();
        assert(all_written_events(xs) == all_written_events(xs.drop_last()) + c);
        assert(all_written_events(xs.drop_last()) == a + b);
        assert(all_written_events(xs.drop_first()) == b + c);
        assert((a + b) + c =~= a + (b + c));
    }
}

/// Events that give values give the first of them from a run at their start,
/// and the others from the rest.
proof fn lemma_items_front<T: SmolRead>(es: Seq<WriteEvent>, vs: Seq<T>) -> (k: int)
    requires
        items_from(es, vs),
        vs.len() > 0,
    ensures
        0 <= k <= es.len(),
        T::decoded_from(es.take(k), vs[0]),
        items_from(es.skip(k), vs.drop_first()),
    decreases vs.len(),
{
    let j = choose|j: int|
        #![trigger es.take(j), es.skip(j)]
        0 <= j <= es.len() && items_from(es.take(j), vs.drop_last()) && T::decoded_from(
            es.skip(j),
            vs.last(),
        );
    if vs.len() == 1 {
        assert(es.take(j).len() == 0);
        assert(es.skip(j) =~= es.take(es.len() as int));
        assert(es.skip(es.len() as int).len() == 0);
        assert(vs.drop_first().len() == 0);
        es.len() as int
    } else {
        let a = es.take(j);
        let k0 = lemma_items_front(a, vs.drop_last());
        assert(a.take(k0) =~= es.take(k0));
        let b = es.skip(k0);
        assert(b.take(j - k0) =~= a.skip(k0));
        assert(b.skip(j - k0) =~= es.skip(j));
        assert(vs.drop_first().drop_last() =~= vs.drop_last().drop_first());
        assert(vs.drop_first().last() == vs.last());
        assert(vs.drop_last()[0] == vs[0]);
        assert(items_from(b.take(j - k0), vs.drop_first().drop_last()) && T::decoded_from(
            b.skip(j - k0),
            vs.drop_first().last(),
        ));
        assert(items_from(b, vs.drop_first()));
        k0
    }
}

/// Values read back from the events of as many values written, followed by
/// other events: the run that gives them is those events, and the values
/// read write them again.
proof fn lemma_items_of_written<T: SmolRead + SmolWrite>(
    xs: Seq<T>,
    vs: Seq<T>,
    rest: Seq<WriteEvent>,
    j: int,
)
    requires
        reads_back_exactly::<T>(),
        vs.len() == xs.len(),
        0 <= j <= all_written_events(xs).len() + rest.len(),
        items_from((all_written_events(xs) + rest).take(j), vs),
    ensures
        j == all_written_events(xs).len(),
        all_written_events(vs) == all_written_events(xs),
        forall|i: int| 0 <= i < xs.len() ==> #[trigger] vs[i].written_events() == xs[i].written_events(),
    decreases xs.len(),
{
    let w = all_written_events(xs);
    let e = (w + rest).take(j);
    if xs.len() == 0 {
        assert(e.len() == 0);
    } else {
        lemma_all_written_front(xs);
        lemma_all_written_front(vs);
        let w0 = xs[0].written_events();
        let w1 = all_written_events(xs.drop_first());
        let k = lemma_items_front(e, vs);
        assert(w + rest =~= w0 + (w1 + rest));
        assert(e.take(k) =~= (w0 + (w1 + rest)).take(k));
        assert(T::decoded_from((xs[0].written_events() + (w1 + rest)).take(k), vs[0]));
        assert(e.skip(k) =~= (w1 + rest).take(j - k));
        lemma_items_of_written(xs.drop_first(), vs.drop_first(), rest, j - k);
        assert forall|i: int| 0 <= i < xs.len() implies #[trigger] vs[i].written_events()
            == xs[i].written_events() by {
            if i > 0 {
                assert(vs[i] == vs.drop_first()[i - 1]);
                assert(xs[i] == xs.drop_first()[i - 1]);
            }
        }
    }
}

/// Vectors of a type that reads back exactly read back exactly.
pub proof fn lemma_vec_reads_back_exactly<T: SmolRead + SmolWrite>()
    requires
        reads_back_exactly::<T>(),
    ensures
        reads_back_exactly::<Vec<T>>(),
{
    assert forall|x: Vec<T>, rest: Seq<WriteEvent>, k: int, v: Vec<T>|
        0 <= k <= x.written_events().len() + rest.len() && #[trigger] <Vec<
            T,
        > as SmolRead>::decoded_from((x.written_events() + rest).take(k), v) implies k
        == x.written_events().len() && v.written_events() == x.written_events() by {
        let w = all_written_events(x@);
        assert(x.len() == x@.len() && v.len() == v@.len());
        let all = x.written_events() + rest;
        let es = all.take(k);
        assert(es[0] == all[0]);
        assert(all[0] == WriteEvent::Tag(TagModel::Array(Some(x@.len() as usize))));
        assert(es.drop_first() =~= (w + rest).take(k - 1));
        lemma_items_of_written(x@, v@, rest, k - 1);
    }
}

/// A vector whose items are the one value that writes their events, and read
/// back exactly, is decoded from the events it writes only as a vector of the
/// same items.
pub proof fn lemma_vec_decodes_to_same_items<T: SmolRead + SmolWrite>(x: Vec<T>, v: Vec<T>)
    requires
        reads_back_exactly::<T>(),
        written_events_determine::<T>(),
        <Vec<T> as SmolRead>::decoded_from(x.written_events(), v),
    ensures
        v@ == x@,
{
    let w = all_written_events(x@);
    let rest = Seq::<WriteEvent>::empty();
    assert(x.len() == x@.len() && v.len() == v@.len());
    assert(x.written_events().drop_first() =~= (w + rest).take(w.len() as int));
    lemma_items_of_written(x@, v@, rest, w.len() as int);
    assert forall|i: int| 0 <= i < x@.len() implies v@[i] == x@[i] by {
        assert(v@[i].written_events() == x@[i].written_events());
    }
    assert(v@ =~= x@);
}

/// Values of `T` are read as they were written: where a reader reads the
/// events that a value `x` writes, and any events after them, as they are, any
/// run of events that it reads as it is and that decodes to a value of `T` is
/// the events of `x`.
pub open spec fn reads_as_written<T: SmolRead + SmolWrite>() -> bool {
    forall|x: T, rest: Seq<WriteEvent>, r: ReaderModel, es: Seq<WriteEvent>, v: T|
        #![trigger reads_through(r, x.written_events() + rest), reads_through(r, es), T::decoded_from(es, v)]
        reads_through(r, x.written_events() + rest) && reads_through(r, es) && T::decoded_from(es, v)
            ==> es == x.written_events()
}

/// A run read as it is reads its first event as it is, then the others from
/// the reader after it.
pub(crate) proof fn lemma_reads_through_first(r: ReaderModel, es: Seq<WriteEvent>) -> (r2: ReaderModel)
    requires
        reads_through(r, es),
        es.len() > 0,
    ensures
        read_step(r, es[0]) == Some((es[0], r2)),
        reads_through(r2, es.drop_first()),
        read_all(r2, es.drop_first()).unwrap().1 == read_all(r, es).unwrap().1,
{
    let (e1, r2) = read_step(r, es[0]).unwrap();
    let (rest, _) = read_all(r2, es.drop_first()).unwrap();
    assert((seq![e1] + rest)[0] == e1);
    assert((seq![e1] + rest).drop_first() =~= rest);
    r2
}

/// Two runs read as they are from one reader that both start with a tag start
/// with the same tag, and go on from the same reader.
proof fn lemma_same_first_tag(r: ReaderModel, a: Seq<WriteEvent>, b: Seq<WriteEvent>) -> (r2: ReaderModel)
    requires
        reads_through(r, a),
        reads_through(r, b),
        a.len() > 0,
        b.len() > 0,
        a[0] is Tag,
        b[0] is Tag,
    ensures
        a[0] == b[0],
        reads_through(r2, a.drop_first()),
        reads_through(r2, b.drop_first()),
{
    let ra = lemma_reads_through_first(r, a);
    let rb = lemma_reads_through_first(r, b);
    ra
}

/// Each primitive type is read as it was written.
pub proof fn lemma_primitives_read_as_written()
    ensures
        reads_as_written::<()>(),
        reads_as_written::<bool>(),
        reads_as_written::<char>(),
        reads_as_written::<i8>(),
        reads_as_written::<u8>(),
        reads_as_written::<i16>(),
        reads_as_written::<u16>(),
        reads_as_written::<i32>(),
        reads_as_written::<u32>(),
        reads_as_written::<i64>(),
        reads_as_written::<u64>(),
        reads_as_written::<i128>(),
        reads_as_written::<u128>(),
{
    assert forall|x: (), rest: Seq<WriteEvent>, r: ReaderModel, es: Seq<WriteEvent>, v: ()|
        #[trigger] reads_through(r, x.written_events() + rest) && #[trigger] reads_through(r, es)
            && #[trigger] <() as SmolRead>::decoded_from(es, v) implies es == x.written_events() by {
        lemma_same_first_tag(r, x.written_events() + rest, es);
    }
    assert forall|x: bool, rest: Seq<WriteEvent>, r: ReaderModel, es: Seq<WriteEvent>, v: bool|
        #[trigger] reads_through(r, x.written_events() + rest) && #[trigger] reads_through(r, es)
            && #[trigger] <bool as SmolRead>::decoded_from(es, v) implies es == x.written_events() by {
        lemma_same_first_tag(r, x.written_events() + rest, es);
    }
    assert forall|x: char, rest: Seq<WriteEvent>, r: ReaderModel, es: Seq<WriteEvent>, v: char|
        #[trigger] reads_through(r, x.written_events() + rest) && #[trigger] reads_through(r, es)
            && #[trigger] <char as SmolRead>::decoded_from(es, v) implies es == x.written_events() by {
        lemma_same_first_tag(r, x.written_events() + rest, es);
    }
    assert forall|x: i8, rest: Seq<WriteEvent>, r: ReaderModel, es: Seq<WriteEvent>, v: i8|
        #[trigger] reads_through(r, x.written_events() + rest) && #[trigger] reads_through(r, es)
            && #[trigger] <i8 as SmolRead>::decoded_from(es, v) implies es == x.written_events() by {
        lemma_same_first_tag(r, x.written_events() + rest, es);
    }
    assert forall|x: u8, rest: Seq<WriteEvent>, r: ReaderModel, es: Seq<WriteEvent>, v: u8|
        #[trigger] reads_through(r, x.written_events() + rest) && #[trigger] reads_through(r, es)
            && #[trigger] <u8 as SmolRead>::decoded_from(es, v) implies es == x.written_events() by {
        lemma_same_first_tag(r, x.written_events() + rest, es);
    }
    assert forall|x: i16, rest: Seq<WriteEvent>, r: ReaderModel, es: Seq<WriteEvent>, v: i16|
        #[trigger] reads_through(r, x.written_events() + rest) && #[trigger] reads_through(r, es)
            && #[trigger] <i16 as SmolRead>::decoded_from(es, v) implies es == x.written_events() by {
        lemma_same_first_tag(r, x.written_events() + rest, es);
    }
    assert forall|x: u16, rest: Seq<WriteEvent>, r: ReaderModel, es: Seq<WriteEvent>, v: u16|
        #[trigger] reads_through(r, x.written_events() + rest) && #[trigger] reads_through(r, es)
            && #[trigger] <u16 as SmolRead>::decoded_from(es, v) implies es == x.written_events() by {
        lemma_same_first_tag(r, x.written_events() + rest, es);
    }
    assert forall|x: i32, rest: Seq<WriteEvent>, r: ReaderModel, es: Seq<WriteEvent>, v: i32|
        #[trigger] reads_through(r, x.written_events() + rest) && #[trigger] reads_through(r, es)
            && #[trigger] <i32 as SmolRead>::decoded_from(es, v) implies es == x.written_events() by {
        lemma_same_first_tag(r, x.written_events() + rest, es);
    }
    assert forall|x: u32, rest: Seq<WriteEvent>, r: ReaderModel, es: Seq<WriteEvent>, v: u32|
        #[trigger] reads_through(r, x.written_events() + rest) && #[trigger] reads_through(r, es)
            && #[trigger] <u32 as SmolRead>::decoded_from(es, v) implies es == x.written_events() by {
        lemma_same_first_tag(r, x.written_events() + rest, es);
    }
    assert forall|x: i64, rest: Seq<WriteEvent>, r: ReaderModel, es: Seq<WriteEvent>, v: i64|
        #[trigger] reads_through(r, x.written_events() + rest) && #[trigger] reads_through(r, es)
            && #[trigger] <i64 as SmolRead>::decoded_from(es, v) implies es == x.written_events() by {
        lemma_same_first_tag(r, x.written_events() + rest, es);
    }
    assert forall|x: u64, rest: Seq<WriteEvent>, r: ReaderModel, es: Seq<WriteEvent>, v: u64|
        #[trigger] reads_through(r, x.written_events() + rest) && #[trigger] reads_through(r, es)
            && #[trigger] <u64 as SmolRead>::decoded_from(es, v) implies es == x.written_events() by {
        lemma_same_first_tag(r, x.written_events() + rest, es);
    }
    assert forall|x: i128, rest: Seq<WriteEvent>, r: ReaderModel, es: Seq<WriteEvent>, v: i128|
        #[trigger] reads_through(r, x.written_events() + rest) && #[trigger] reads_through(r, es)
            && #[trigger] <i128 as SmolRead>::decoded_from(es, v) implies es == x.written_events() by {
        lemma_same_first_tag(r, x.written_events() + rest, es);
    }
    assert forall|x: u128, rest: Seq<WriteEvent>, r: ReaderModel, es: Seq<WriteEvent>, v: u128|
        #[trigger] reads_through(r, x.written_events() + rest) && #[trigger] reads_through(r, es)
            && #[trigger] <u128 as SmolRead>::decoded_from(es, v) implies es == x.written_events() by {
        lemma_same_first_tag(r, x.written_events() + rest, es);
    }
}

/// Strings read back exactly.
pub proof fn lemma_string_reads_back_exactly()
    ensures
        reads_back_exactly::<String>(),
{
    broadcast use encode_utf8_decode_utf8;

    assert forall|x: String, rest: Seq<WriteEvent>, k: int, v: String|
        0 <= k <= x.written_events().len() + rest.len() && #[trigger] <String as SmolRead>::decoded_from(
            (x.written_events() + rest).take(k),
            v,
        ) implies k == x.written_events().len() && v.written_events() == x.written_events() by {
        let all = x.written_events() + rest;
        let es = all.take(k);
        let n = encode_utf8(x@).len();
        assert(es.len() >= 1) by {
            assert(seq![WriteEvent::Tag(TagModel::EmptyStr)].len() == 1);
            assert(seq![WriteEvent::Tag(TagModel::Str(v@))].len() == 1);
        }
        assert(es[0] == all[0]);
        if n == 0 {
            assert(decode_utf8(encode_utf8(x@)) == x@);
            assert(encode_utf8(x@) =~= Seq::<u8>::empty());
            assert(x@.len() == 0);
            assert(v@ =~= x@);
        } else if n > MAX_OPT_STR_LEN {
            assert(es[1] == all[1]);
            assert(v@ == x@);
        } else {
            assert(v@ == x@);
        }
    }
}

/// Options of a type that is read as it was written are read as they were
/// written.
pub proof fn lemma_option_read_as_written<T: SmolRead + SmolWrite>()
    requires
        reads_as_written::<T>(),
    ensures
        reads_as_written::<Option<T>>(),
{
    assert forall|x: Option<T>, rest: Seq<WriteEvent>, r: ReaderModel, es: Seq<WriteEvent>, v: Option<T>|
        #[trigger] reads_through(r, x.written_events() + rest) && #[trigger] reads_through(r, es)
            && #[trigger] <Option<T> as SmolRead>::decoded_from(es, v) implies es
        == x.written_events() by {
        let all = x.written_events() + rest;
        assert(all[0] == x.written_events()[0]);
        let r2 = lemma_same_first_tag(r, all, es);
        match (x, v) {
            (Some(x1), Some(y)) => {
                let w1 = x1.written_events();
                assert(all.drop_first() =~= w1 + rest);
                assert(T::decoded_from(es.drop_first(), y));
                assert(reads_through(r2, w1 + rest));
                assert(reads_through(r2, es.drop_first()));
                assert(es =~= seq![es[0]] + es.drop_first());
                assert(x.written_events() =~= seq![es[0]] + w1);
            },
            _ => {},
        }
    }
}

/// Pairs of types that are read as they were written are read as they were
/// written.
pub proof fn lemma_pair_read_as_written<A: SmolRead + SmolWrite, B: SmolRead + SmolWrite>()
    requires
        reads_as_written::<A>(),
        reads_as_written::<B>(),
    ensures
        reads_as_written::<(A, B)>(),
{
    assert forall|x: (A, B), rest: Seq<WriteEvent>, r: ReaderModel, es: Seq<WriteEvent>, v: (A, B)|
        #[trigger] reads_through(r, x.written_events() + rest) && #[trigger] reads_through(r, es)
            && #[trigger] <(A, B) as SmolRead>::decoded_from(es, v) implies es
        == x.written_events() by {
        let w1 = x.0.written_events();
        let w2 = x.1.written_events();
        let all = x.written_events() + rest;
        assert(all =~= seq![WriteEvent::Tag(TagModel::Tuple(2))] + (w1 + (w2 + rest)));
        assert(all[0] == x.written_events()[0]);
        let r2 = lemma_same_first_tag(r, all, es);
        let parts = choose|parts: Seq<Seq<WriteEvent>>|
            #![trigger joined_events(parts)]
            parts.len() == 2 && es.drop_first() == joined_events(parts) && A::decoded_from(
                parts[0],
                v.0,
            ) && B::decoded_from(parts[1], v.1);
        let p0 = parts[0];
        let p1 = parts[1];
        assert(joined_events(parts.drop_last()) =~= p0) by {
            assert(parts.drop_last().drop_last().len() == 0);
            assert(joined_events(parts.drop_last().drop_last()) == Seq::<WriteEvent>::empty());
            assert(parts.drop_last().last() == p0);
        }
        assert(joined_events(parts) =~= p0 + p1);
        assert(all.drop_first() =~= w1 + (w2 + rest));
        let m = lemma_read_all_split(r2, p0, p1);
        let m2 = lemma_read_all_split(r2, w1, w2 + rest);
        assert(reads_through(r2, x.0.written_events() + (w2 + rest)));
        assert(reads_through(r2, p0));
        assert(p0 == w1);
        assert(m == m2);
        assert(reads_through(m, x.1.written_events() + rest));
        assert(reads_through(m, p1));
        assert(p1 == w2);
        assert(es[0] == WriteEvent::Tag(TagModel::Tuple(2)));
        assert(x.written_events() =~= seq![WriteEvent::Tag(TagModel::Tuple(2))] + (w1 + w2));
        assert(es =~= seq![es[0]] + es.drop_first());
        assert(es =~= x.written_events());
    }
}

/// Values read as they are from one reader, each decoding to a value of a type
/// that is read as it was written, where the reader reads the events of as
/// many values written and any events after them as they are, are the events
/// of those values.
proof fn lemma_items_read_as_written<T: SmolRead + SmolWrite>(
    xs: Seq<T>,
    vs: Seq<T>,
    rest: Seq<WriteEvent>,
    r: ReaderModel,
    es: Seq<WriteEvent>,
)
    requires
        reads_as_written::<T>(),
        vs.len() == xs.len(),
        reads_through(r, all_written_events(xs) + rest),
        reads_through(r, es),
        items_from(es, vs),
    ensures
        es == all_written_events(xs),
    decreases xs.len(),
{
    if xs.len() == 0 {
        assert(es.len() == 0);
    } else {
        lemma_all_written_front(xs);
        let w0 = xs[0].written_events();
        let w1 = all_written_events(xs.drop_first());
        let k = lemma_items_front(es, vs);
        let a = es.take(k);
        let b = es.skip(k);
        assert(a + b =~= es);
        let mid = lemma_read_all_split(r, a, b);
        assert(all_written_events(xs) + rest =~= w0 + (w1 + rest));
        let mid2 = lemma_read_all_split(r, w0, w1 + rest);
        assert(reads_through(r, xs[0].written_events() + (w1 + rest)));
        assert(reads_through(r, a));
        assert(T::decoded_from(a, vs[0]));
        assert(a == w0);
        assert(mid == mid2);
        lemma_items_read_as_written(xs.drop_first(), vs.drop_first(), rest, mid, b);
        assert(es =~= w0 + w1);
    }
}

/// Vectors of a type that is read as it was written are read as they were
/// written.
pub proof fn lemma_vec_read_as_written<T: SmolRead + SmolWrite>()
    requires
        reads_as_written::<T>(),
    ensures
        reads_as_written::<Vec<T>>(),
{
    assert forall|x: Vec<T>, rest: Seq<WriteEvent>, r: ReaderModel, es: Seq<WriteEvent>, v: Vec<T>|
        #[trigger] reads_through(r, x.written_events() + rest) && #[trigger] reads_through(r, es)
            && #[trigger] <Vec<T> as SmolRead>::decoded_from(es, v) implies es
        == x.written_events() by {
        let w = all_written_events(x@);
        assert(x.len() == x@.len() && v.len() == v@.len());
        let all = x.written_events() + rest;
        assert(all[0] == x.written_events()[0]);
        let r2 = lemma_same_first_tag(r, all, es);
        assert(all.drop_first() =~= w + rest);
        lemma_items_read_as_written(x@, v@, rest, r2, es.drop_first());
        assert(es =~= seq![es[0]] + es.drop_first());
    }
}

/// A value written as a stream is read as it was written: for a value `x` of
/// a type that is read as it was written, with no float that is a NaN or a
/// zero, written as a stream with a header (the bytes that `write_into_bytes`
/// gives, which exist where every write succeeds), the header is accepted for the current format version, and
/// any run of events that a reader from the end of the header reads as it is
/// and that decodes to a value of `T` (as the value that `read_from_bytes`
/// gives is) is the events of `x`; where values of `T` also read back
/// exactly, the value decoded writes the events of `x`.
pub proof fn lemma_stream_read_as_written<T: SmolRead + SmolWrite>(x: T, es: Seq<WriteEvent>, v: T)
    requires
        reads_as_written::<T>(),
        plain_tags(x.written_events()),
        stream_bytes(x.written_events()) matches Some(b) && b.len() <= usize::MAX,
        T::decoded_from(es, v),
        reads_through(
            fresh_reader(
                stream_bytes(x.written_events()).unwrap(),
                header_bytes().len(),
                FORMAT_VERSION,
            ),
            es,
        ),
    ensures
        dec_header(stream_bytes(x.written_events()).unwrap()) == Ok::<(u32, nat), ReaderInitError>(
            (FORMAT_VERSION, header_bytes().len()),
        ),
        es == x.written_events(),
        reads_back_exactly::<T>() ==> v.written_events() == x.written_events(),
{
    let w0 = WriterModel { out: header_bytes(), strings: Seq::empty(), last_tag: None, repeats: 0 };
    let wes = x.written_events();
    lemma_write_all_is_write_events(w0, wes);
    let out = final_bytes(w0, wes);
    let r = fresh_reader(out, header_bytes().len(), FORMAT_VERSION);
    lemma_stream_bytes_read_back(wes);
    let (es2, _) = read_all(r, wes).unwrap();
    lemma_plain_read_exact(wes, es2);
    let rest = Seq::<WriteEvent>::empty();
    assert(wes + rest =~= wes);
    assert(reads_through(r, x.written_events() + rest));
    if reads_back_exactly::<T>() {
        lemma_written_decodes_to_same(x, v);
    }
}

/// A value written alone into a raw value is read as it was written: for a
/// value `x` of a type that is read as it was written, with no float that is a
/// NaN or a zero, written with no header (the bytes of the raw value that
/// `write_into_raw` gives, which exist where every write succeeds), any run of events that a reader of those bytes
/// in the current format version reads as it is and that decodes to a value of
/// `T` (as the value that `from_raw` gives is) is the events of `x`; where
/// values of `T` also read back exactly, the value decoded writes the events of
/// `x`.
pub proof fn lemma_raw_read_as_written<T: SmolRead + SmolWrite>(x: T, es: Seq<WriteEvent>, v: T)
    requires
        reads_as_written::<T>(),
        plain_tags(x.written_events()),
        object_bytes(x.written_events()) matches Some(b) && b.len() <= usize::MAX,
        T::decoded_from(es, v),
        reads_through(
            fresh_reader(object_bytes(x.written_events()).unwrap(), 0, FORMAT_VERSION),
            es,
        ),
    ensures
        es == x.written_events(),
        reads_back_exactly::<T>() ==> v.written_events() == x.written_events(),
{
    let w = empty_writer();
    let wes = x.written_events();
    lemma_write_all_is_write_events(w, wes);
    lemma_stream_roundtrip(Seq::empty(), wes, FORMAT_VERSION);
    assert(w == (WriterModel { out: Seq::empty(), strings: Seq::empty(), last_tag: None, repeats: 0 }));
    let out = final_bytes(w, wes);
    let r = fresh_reader(out, 0, FORMAT_VERSION);
    let (es2, _) = read_all(r, wes).unwrap();
    lemma_plain_read_exact(wes, es2);
    let rest = Seq::<WriteEvent>::empty();
    assert(wes + rest =~= wes);
    assert(reads_through(r, x.written_events() + rest));
    if reads_back_exactly::<T>() {
        lemma_written_decodes_to_same(x, v);
    }
}

/// Reading owes a value of `T` on the events that each value of `T` writes.
pub open spec fn owes_written<T: SmolRead + SmolWrite>() -> bool {
    forall|x: T| #[trigger] T::read_owed(x.written_events())
}

/// Reading a primitive owes it on what it writes.
pub proof fn lemma_primitives_owe_written()
    ensures
        owes_written::<()>(),
        owes_written::<bool>(),
        owes_written::<char>(),
        owes_written::<i8>(),
        owes_written::<u8>(),
        owes_written::<i16>(),
        owes_written::<u16>(),
        owes_written::<i32>(),
        owes_written::<u32>(),
        owes_written::<i64>(),
        owes_written::<u64>(),
        owes_written::<i128>(),
        owes_written::<u128>(),
{
}

/// Reading an option owes it on what it writes, where reading its value does.
pub proof fn lemma_option_owes_written<T: SmolRead + SmolWrite>()
    requires
        owes_written::<T>(),
    ensures
        owes_written::<Option<T>>(),
{
    assert forall|x: Option<T>| #[trigger] <Option<T> as SmolRead>::read_owed(x.written_events()) by {
        if let Some(y) = x {
            assert(x.written_events().drop_first() =~= y.written_events());
            assert(T::read_owed(y.written_events()));
        }
    }
}

/// Reading a box owes it on what it writes, where reading its value does.
pub proof fn lemma_box_owes_written<T: SmolRead + SmolWrite>()
    requires
        owes_written::<T>(),
    ensures
        owes_written::<Box<T>>(),
{
    assert forall|x: Box<T>| #[trigger] <Box<T> as SmolRead>::read_owed(x.written_events()) by {
        assert(T::read_owed((*x).written_events()));
    }
}

/// Reading a pair owes it on what it writes, where reading each of its values
/// does.
pub proof fn lemma_pair_owes_written<A: SmolRead + SmolWrite, B: SmolRead + SmolWrite>()
    requires
        owes_written::<A>(),
        owes_written::<B>(),
    ensures
        owes_written::<(A, B)>(),
{
    assert forall|x: (A, B)| #[trigger] <(A, B) as SmolRead>::read_owed(x.written_events()) by {
        let w1 = x.0.written_events();
        let w2 = x.1.written_events();
        let d = x.written_events().drop_first();
        assert(d =~= w1 + w2);
        assert(d.take(w1.len() as int) =~= w1);
        assert(d.skip(w1.len() as int) =~= w2);
        assert(w2.take(w2.len() as int) =~= w2);
        assert(w2.skip(w2.len() as int).len() == 0);
        assert(A::read_owed(x.0.written_events()));
        assert(B::read_owed(x.1.written_events()));
        assert(owed_items::<B>(w2.skip(w2.len() as int), 0));
        assert(B::read_owed(w2.take(w2.len() as int)));
        assert(owed_items::<B>(w2, 1));
        assert(A::read_owed(d.take(w1.len() as int)) && owed_items::<B>(d.skip(w1.len() as int), 1));
    }
}

/// What values write, one after another, is as many runs on each of which
/// reading a value is owed.
proof fn lemma_written_items_owed<T: SmolRead + SmolWrite>(xs: Seq<T>)
    requires
        owes_written::<T>(),
    ensures
        owed_items::<T>(all_written_events(xs), xs.len()),
    decreases xs.len(),
{
    if xs.len() > 0 {
        lemma_all_written_front(xs);
        lemma_written_items_owed(xs.drop_first());
        let w0 = xs[0].written_events();
        let e = all_written_events(xs);
        assert(e.take(w0.len() as int) =~= w0);
        assert(e.skip(w0.len() as int) =~= all_written_events(xs.drop_first()));
        assert(T::read_owed(xs[0].written_events()));
        assert(T::read_owed(e.take(w0.len() as int)) && owed_items::<T>(
            e.skip(w0.len() as int),
            (xs.len() - 1) as nat,
        ));
    }
}

/// Reading a vector owes it on what it writes, where reading its items does.
pub proof fn lemma_vec_owes_written<T: SmolRead + SmolWrite>()
    requires
        owes_written::<T>(),
    ensures
        owes_written::<Vec<T>>(),
{
    assert forall|x: Vec<T>| #[trigger] <Vec<T> as SmolRead>::read_owed(x.written_events()) by {
        assert(x.len() == x@.len());
        lemma_written_items_owed(x@);
        assert(x.written_events().drop_first() =~= all_written_events(x@));
    }
}

/// Reading an array owes it on what it writes, where reading its items does.
pub proof fn lemma_array_owes_written<T: SmolRead + SmolWrite, const N: usize>()
    requires
        owes_written::<T>(),
    ensures
        owes_written::<[T; N]>(),
{
    assert forall|x: [T; N]| #[trigger] <[T; N] as SmolRead>::read_owed(x.written_events()) by {
        assert(x@.len() == N);
        lemma_written_items_owed(x@);
        assert(x.written_events().drop_first() =~= all_written_events(x@));
    }
}

/// A value written as a stream reads back: for a value `x` of a type whose
/// reading owes a value on what it writes, with no float that is a NaN or a
/// zero, whose stream is written (the bytes `b` that `write_into_bytes`
/// gives), the header of `b` is accepted for the current format version and a
/// reader from its end reads the events of `x` as they are, on which reading a
/// `T` is owed; so `read_from_bytes` of `b` succeeds.
pub proof fn lemma_stream_reads_back_ok<T: SmolRead + SmolWrite>(x: T)
    requires
        owes_written::<T>(),
        plain_tags(x.written_events()),
        stream_bytes(x.written_events()) matches Some(b) && b.len() <= usize::MAX,
    ensures
        dec_header(stream_bytes(x.written_events()).unwrap()) == Ok::<(u32, nat), ReaderInitError>(
            (FORMAT_VERSION, header_bytes().len()),
        ),
        T::read_owed(x.written_events()),
        reads_through(
            fresh_reader(
                stream_bytes(x.written_events()).unwrap(),
                header_bytes().len(),
                FORMAT_VERSION,
            ),
            x.written_events(),
        ),
{
    let w0 = WriterModel { out: header_bytes(), strings: Seq::empty(), last_tag: None, repeats: 0 };
    let wes = x.written_events();
    lemma_write_all_is_write_events(w0, wes);
    let out = final_bytes(w0, wes);
    lemma_stream_bytes_read_back(wes);
    let r = fresh_reader(out, header_bytes().len(), FORMAT_VERSION);
    let (es2, _) = read_all(r, wes).unwrap();
    lemma_plain_read_exact(wes, es2);
}

/// A value written alone into a raw value reads back: for a value `x` of a
/// type whose reading owes a value on what it writes, with no float that is a
/// NaN or a zero, whose object bytes are written (the bytes of the raw value
/// that `write_into_raw` gives), a reader of those bytes with no header in the
/// current format version reads the events of `x` as they are, on which
/// reading a `T` is owed; so `from_raw` and `RawValue::read_object` of that raw
/// value succeed.
pub proof fn lemma_raw_reads_back_ok<T: SmolRead + SmolWrite>(x: T)
    requires
        owes_written::<T>(),
        plain_tags(x.written_events()),
        object_bytes(x.written_events()) matches Some(b) && b.len() <= usize::MAX,
    ensures
        T::read_owed(x.written_events()),
        reads_through(
            fresh_reader(object_bytes(x.written_events()).unwrap(), 0, FORMAT_VERSION),
            x.written_events(),
        ),
{
    let w = empty_writer();
    let wes = x.written_events();
    lemma_write_all_is_write_events(w, wes);
    assert(w == (WriterModel { out: Seq::empty(), strings: Seq::empty(), last_tag: None, repeats: 0 }));
    lemma_stream_roundtrip(Seq::empty(), wes, FORMAT_VERSION);
    let out = final_bytes(w, wes);
    let r = fresh_reader(out, 0, FORMAT_VERSION);
    let (es2, _) = read_all(r, wes).unwrap();
    lemma_plain_read_exact(wes, es2);
}

/// Writing a value as a stream and reading it back gives it back: for a value
/// `x` of a type whose reading owes a value on what it writes, that is read as
/// it was written and reads back exactly, with no float that is a NaN or a
/// zero, whose stream is written (the bytes `b` that `write_into_bytes`
/// gives), the header of `b` is accepted, reading a `T` from its end is owed a
/// value (so `read_from_bytes` of `b` succeeds), and every value that a run of
/// events read there as it is decodes to writes the events of `x`.
pub proof fn lemma_stream_round_trip<T: SmolRead + SmolWrite>(x: T)
    requires
        owes_written::<T>(),
        reads_as_written::<T>(),
        reads_back_exactly::<T>(),
        plain_tags(x.written_events()),
        stream_bytes(x.written_events()) matches Some(b) && b.len() <= usize::MAX,
    ensures
        dec_header(stream_bytes(x.written_events()).unwrap()) == Ok::<(u32, nat), ReaderInitError>(
            (FORMAT_VERSION, header_bytes().len()),
        ),
        T::read_owed(x.written_events()),
        reads_through(
            fresh_reader(
                stream_bytes(x.written_events()).unwrap(),
                header_bytes().len(),
                FORMAT_VERSION,
            ),
            x.written_events(),
        ),
        forall|es: Seq<WriteEvent>, v: T|
            #[trigger] T::decoded_from(es, v) && #[trigger] reads_through(
                fresh_reader(
                    stream_bytes(x.written_events()).unwrap(),
                    header_bytes().len(),
                    FORMAT_VERSION,
                ),
                es,
            ) ==> v.written_events() == x.written_events(),
{
    lemma_stream_reads_back_ok(x);
    assert forall|es: Seq<WriteEvent>, v: T|
        #[trigger] T::decoded_from(es, v) && #[trigger] reads_through(
            fresh_reader(
                stream_bytes(x.written_events()).unwrap(),
                header_bytes().len(),
                FORMAT_VERSION,
            ),
            es,
        ) implies v.written_events() == x.written_events() by {
        lemma_stream_read_as_written(x, es, v);
    }
}

/// Writing a value alone into a raw value and reading it back gives it back:
/// for a value `x` of a type whose reading owes a value on what it writes, that
/// is read as it was written and reads back exactly, with no float that is a
/// NaN or a zero, whose object bytes are written (those of the raw value that
/// `write_into_raw` and `RawValue::write_object` give), reading a `T` from them
/// with no header in the current format version is owed a value (so `from_raw`
/// and `RawValue::read_object` succeed), and every value that a run of events
/// read there as it is decodes to writes the events of `x`.
pub proof fn lemma_raw_round_trip<T: SmolRead + SmolWrite>(x: T)
    requires
        owes_written::<T>(),
        reads_as_written::<T>(),
        reads_back_exactly::<T>(),
        plain_tags(x.written_events()),
        object_bytes(x.written_events()) matches Some(b) && b.len() <= usize::MAX,
    ensures
        T::read_owed(x.written_events()),
        reads_through(
            fresh_reader(object_bytes(x.written_events()).unwrap(), 0, FORMAT_VERSION),
            x.written_events(),
        ),
        forall|es: Seq<WriteEvent>, v: T|
            #[trigger] T::decoded_from(es, v) && #[trigger] reads_through(
                fresh_reader(object_bytes(x.written_events()).unwrap(), 0, FORMAT_VERSION),
                es,
            ) ==> v.written_events() == x.written_events(),
{
    lemma_raw_reads_back_ok(x);
    assert forall|es: Seq<WriteEvent>, v: T|
        #[trigger] T::decoded_from(es, v) && #[trigger] reads_through(
            fresh_reader(object_bytes(x.written_events()).unwrap(), 0, FORMAT_VERSION),
            es,
        ) implies v.written_events() == x.written_events() by {
        lemma_raw_read_as_written(x, es, v);
    }
}

/// Every value of `T` writes no float tag that is a NaN or a zero.
pub open spec fn writes_plain_tags<T: SmolWrite>() -> bool {
    forall|x: T| #[trigger] plain_tags(x.written_events())
}

/// Runs of events with plain tags, one after the other, have plain tags.
proof fn lemma_plain_concat(a: Seq<WriteEvent>, b: Seq<WriteEvent>)
    requires
        plain_tags(a),
        plain_tags(b),
    ensures
        plain_tags(a + b),
{
    assert forall|i: int| #![trigger (a + b)[i]] 0 <= i < (a + b).len() implies ((a + b)[i] matches WriteEvent::Tag(t) ==> tag_plain(t)) by {
        if i < a.len() {
            assert((a + b)[i] == a[i]);
        } else {
            assert((a + b)[i] == b[i - a.len()]);
        }
    }
}

/// A run of one tag that is no float has plain tags.
proof fn lemma_plain_one(e: WriteEvent)
    requires
        !(e matches WriteEvent::Tag(TagModel::F32(_))),
        !(e matches WriteEvent::Tag(TagModel::F64(_))),
    ensures
        plain_tags(seq![e]),
{
    assert forall|i: int| #![trigger seq![e][i]] 0 <= i < 1 implies (seq![e][i] matches WriteEvent::Tag(t) ==> tag_plain(t)) by {
        assert(seq![e][i] == e);
    }
}

/// The primitives write no float tag.
pub proof fn lemma_primitives_write_plain_tags()
    ensures
        writes_plain_tags::<()>(),
        writes_plain_tags::<bool>(),
        writes_plain_tags::<char>(),
        writes_plain_tags::<i8>(),
        writes_plain_tags::<u8>(),
        writes_plain_tags::<i16>(),
        writes_plain_tags::<u16>(),
        writes_plain_tags::<i32>(),
        writes_plain_tags::<u32>(),
        writes_plain_tags::<i64>(),
        writes_plain_tags::<u64>(),
        writes_plain_tags::<i128>(),
        writes_plain_tags::<u128>(),
{
    assert forall|x: ()| #[trigger] plain_tags(x.written_events()) by { lemma_plain_one(x.written_events()[0]); assert(x.written_events() =~= seq![x.written_events()[0]]); }
    assert forall|x: bool| #[trigger] plain_tags(x.written_events()) by { lemma_plain_one(x.written_events()[0]); assert(x.written_events() =~= seq![x.written_events()[0]]); }
    assert forall|x: char| #[trigger] plain_tags(x.written_events()) by { lemma_plain_one(x.written_events()[0]); assert(x.written_events() =~= seq![x.written_events()[0]]); }
    assert forall|x: i8| #[trigger] plain_tags(x.written_events()) by { lemma_plain_one(x.written_events()[0]); assert(x.written_events() =~= seq![x.written_events()[0]]); }
    assert forall|x: u8| #[trigger] plain_tags(x.written_events()) by { lemma_plain_one(x.written_events()[0]); assert(x.written_events() =~= seq![x.written_events()[0]]); }
    assert forall|x: i16| #[trigger] plain_tags(x.written_events()) by { lemma_plain_one(x.written_events()[0]); assert(x.written_events() =~= seq![x.written_events()[0]]); }
    assert forall|x: u16| #[trigger] plain_tags(x.written_events()) by { lemma_plain_one(x.written_events()[0]); assert(x.written_events() =~= seq![x.written_events()[0]]); }
    assert forall|x: i32| #[trigger] plain_tags(x.written_events()) by { lemma_plain_one(x.written_events()[0]); assert(x.written_events() =~= seq![x.written_events()[0]]); }
    assert forall|x: u32| #[trigger] plain_tags(x.written_events()) by { lemma_plain_one(x.written_events()[0]); assert(x.written_events() =~= seq![x.written_events()[0]]); }
    assert forall|x: i64| #[trigger] plain_tags(x.written_events()) by { lemma_plain_one(x.written_events()[0]); assert(x.written_events() =~= seq![x.written_events()[0]]); }
    assert forall|x: u64| #[trigger] plain_tags(x.written_events()) by { lemma_plain_one(x.written_events()[0]); assert(x.written_events() =~= seq![x.written_events()[0]]); }
    assert forall|x: i128| #[trigger] plain_tags(x.written_events()) by { lemma_plain_one(x.written_events()[0]); assert(x.written_events() =~= seq![x.written_events()[0]]); }
    assert forall|x: u128| #[trigger] plain_tags(x.written_events()) by { lemma_plain_one(x.written_events()[0]); assert(x.written_events() =~= seq![x.written_events()[0]]); }
}

/// Options of values that write plain tags write plain tags.
pub proof fn lemma_option_writes_plain_tags<T: SmolWrite>()
    requires
        writes_plain_tags::<T>(),
    ensures
        writes_plain_tags::<Option<T>>(),
{
    assert forall|x: Option<T>| #[trigger] plain_tags(x.written_events()) by {
        match x {
            None => {
                lemma_plain_one(WriteEvent::Tag(TagModel::Option(OptionTag::Absent)));
            },
            Some(y) => {
                lemma_plain_one(WriteEvent::Tag(TagModel::Option(OptionTag::Present)));
                assert(plain_tags(y.written_events()));
                lemma_plain_concat(seq![WriteEvent::Tag(TagModel::Option(OptionTag::Present))], y.written_events());
            },
        }
    }
}

/// Pairs of values that write plain tags write plain tags.
pub proof fn lemma_pair_writes_plain_tags<A: SmolWrite, B: SmolWrite>()
    requires
        writes_plain_tags::<A>(),
        writes_plain_tags::<B>(),
    ensures
        writes_plain_tags::<(A, B)>(),
{
    assert forall|x: (A, B)| #[trigger] plain_tags(x.written_events()) by {
        let h = seq![WriteEvent::Tag(TagModel::Tuple(2))];
        lemma_plain_one(h[0]);
        assert(h =~= seq![h[0]]);
        assert(plain_tags(x.0.written_events()));
        assert(plain_tags(x.1.written_events()));
        lemma_plain_concat(h, x.0.written_events());
        lemma_plain_concat(h + x.0.written_events(), x.1.written_events());
    }
}

/// Values that write plain tags, one after another, write plain tags.
proof fn lemma_all_written_plain<T: SmolWrite>(xs: Seq<T>)
    requires
        writes_plain_tags::<T>(),
    ensures
        plain_tags(all_written_events(xs)),
    decreases xs.len(),
{
    if xs.len() > 0 {
        lemma_all_written_plain(xs.drop_last());
        assert(plain_tags(xs.last().written_events()));
        lemma_plain_concat(all_written_events(xs.drop_last()), xs.last().written_events());
    }
}

/// Vectors of values that write plain tags write plain tags.
pub proof fn lemma_vec_writes_plain_tags<T: SmolWrite>()
    requires
        writes_plain_tags::<T>(),
    ensures
        writes_plain_tags::<Vec<T>>(),
{
    assert forall|x: Vec<T>| #[trigger] plain_tags(x.written_events()) by {
        let h = seq![WriteEvent::Tag(TagModel::Array(Some(x@.len() as usize)))];
        lemma_plain_one(h[0]);
        assert(h =~= seq![h[0]]);
        lemma_all_written_plain(x@);
        lemma_plain_concat(h, all_written_events(x@));
    }
}

/// What each value of `T` writes decodes to that value.
pub open spec fn decodes_written<T: SmolRead + SmolWrite>() -> bool {
    forall|x: T| #[trigger] T::decoded_from(x.written_events(), x)
}

/// A tag followed by runs joined, and then one more run, is the tag followed
/// by all the runs joined.
proof fn lemma_tag_then_joined(
    h: Seq<WriteEvent>,
    q: Seq<WriteEvent>,
    parts: Seq<Seq<WriteEvent>>,
    e: Seq<WriteEvent>,
)
    requires
        q == h + joined_events(parts),
    ensures
        q + e == h + joined_events(parts.push(e)),
{
    lemma_joined_push(parts, e);
    assert(q + e =~= h + (joined_events(parts) + e));
}

/// What a tuple of 2 values writes decodes to that tuple, field by field in
/// order, where what each field's type writes decodes to that field.
pub proof fn lemma_tuple2_decodes_written<T1: SmolRead + SmolWrite, T2: SmolRead + SmolWrite>()
    requires
        decodes_written::<T1>(),
        decodes_written::<T2>(),
    ensures
        decodes_written::<(T1, T2)>(),
{
    assert forall|x: (T1, T2)| #[trigger] <(T1, T2) as SmolRead>::decoded_from(x.written_events(), x) by {
        let h = seq![WriteEvent::Tag(TagModel::Tuple(2))];
        let p0 = Seq::<Seq<WriteEvent>>::empty();
        assert(h =~= h + joined_events(p0));
        let q0 = h;
        lemma_tag_then_joined(h, q0, p0, x.0.written_events());
        let p1 = p0.push(x.0.written_events());
        let q1 = q0 + x.0.written_events();
        lemma_tag_then_joined(h, q1, p1, x.1.written_events());
        let p2 = p1.push(x.1.written_events());
        let q2 = q1 + x.1.written_events();
        assert(T1::decoded_from(p2[0], x.0));
        assert(T2::decoded_from(p2[1], x.1));
        assert(x.written_events() == q2);
        assert((h + joined_events(p2)).drop_first() =~= joined_events(p2));
    }
}

/// What a tuple of 3 values writes decodes to that tuple, field by field in
/// order, where what each field's type writes decodes to that field.
pub proof fn lemma_tuple3_decodes_written<T1: SmolRead + SmolWrite, T2: SmolRead + SmolWrite, T3: SmolRead + SmolWrite>()
    requires
        decodes_written::<T1>(),
        decodes_written::<T2>(),
        decodes_written::<T3>(),
    ensures
        decodes_written::<(T1, T2, T3)>(),
{
    assert forall|x: (T1, T2, T3)| #[trigger] <(T1, T2, T3) as SmolRead>::decoded_from(x.written_events(), x) by {
        let h = seq![WriteEvent::Tag(TagModel::Tuple(3))];
        let p0 = Seq::<Seq<WriteEvent>>::empty();
        assert(h =~= h + joined_events(p0));
        let q0 = h;
        lemma_tag_then_joined(h, q0, p0, x.0.written_events());
        let p1 = p0.push(x.0.written_events());
        let q1 = q0 + x.0.written_events();
        lemma_tag_then_joined(h, q1, p1, x.1.written_events());
        let p2 = p1.push(x.1.written_events());
        let q2 = q1 + x.1.written_events();
        lemma_tag_then_joined(h, q2, p2, x.2.written_events());
        let p3 = p2.push(x.2.written_events());
        let q3 = q2 + x.2.written_events();
        assert(T1::decoded_from(p3[0], x.0));
        assert(T2::decoded_from(p3[1], x.1));
        assert(T3::decoded_from(p3[2], x.2));
        assert(x.written_events() == q3);
        assert((h + joined_events(p3)).drop_first() =~= joined_events(p3));
    }
}

/// What a tuple of 4 values writes decodes to that tuple, field by field in
/// order, where what each field's type writes decodes to that field.
pub proof fn lemma_tuple4_decodes_written<T1: SmolRead + SmolWrite, T2: SmolRead + SmolWrite, T3: SmolRead + SmolWrite, T4: SmolRead + SmolWrite>()
    requires
        decodes_written::<T1>(),
        decodes_written::<T2>(),
        decodes_written::<T3>(),
        decodes_written::<T4>(),
    ensures
        decodes_written::<(T1, T2, T3, T4)>(),
{
    assert forall|x: (T1, T2, T3, T4)| #[trigger] <(T1, T2, T3, T4) as SmolRead>::decoded_from(x.written_events(), x) by {
        let h = seq![WriteEvent::Tag(TagModel::Tuple(4))];
        let p0 = Seq::<Seq<WriteEvent>>::empty();
        assert(h =~= h + joined_events(p0));
        let q0 = h;
        lemma_tag_then_joined(h, q0, p0, x.0.written_events());
        let p1 = p0.push(x.0.written_events());
        let q1 = q0 + x.0.written_events();
        lemma_tag_then_joined(h, q1, p1, x.1.written_events());
        let p2 = p1.push(x.1.written_events());
        let q2 = q1 + x.1.written_events();
        lemma_tag_then_joined(h, q2, p2, x.2.written_events());
        let p3 = p2.push(x.2.written_events());
        let q3 = q2 + x.2.written_events();
        lemma_tag_then_joined(h, q3, p3, x.3.written_events());
        let p4 = p3.push(x.3.written_events());
        let q4 = q3 + x.3.written_events();
        assert(T1::decoded_from(p4[0], x.0));
        assert(T2::decoded_from(p4[1], x.1));
        assert(T3::decoded_from(p4[2], x.2));
        assert(T4::decoded_from(p4[3], x.3));
        assert(x.written_events() == q4);
        assert((h + joined_events(p4)).drop_first() =~= joined_events(p4));
    }
}

/// What a tuple of 5 values writes decodes to that tuple, field by field in
/// order, where what each field's type writes decodes to that field.
pub proof fn lemma_tuple5_decodes_written<T1: SmolRead + SmolWrite, T2: SmolRead + SmolWrite, T3: SmolRead + SmolWrite, T4: SmolRead + SmolWrite, T5: SmolRead + SmolWrite>()
    requires
        decodes_written::<T1>(),
        decodes_written::<T2>(),
        decodes_written::<T3>(),
        decodes_written::<T4>(),
        decodes_written::<T5>(),
    ensures
        decodes_written::<(T1, T2, T3, T4, T5)>(),
{
    assert forall|x: (T1, T2, T3, T4, T5)| #[trigger] <(T1, T2, T3, T4, T5) as SmolRead>::decoded_from(x.written_events(), x) by {
        let h = seq![WriteEvent::Tag(TagModel::Tuple(5))];
        let p0 = Seq::<Seq<WriteEvent>>::empty();
        assert(h =~= h + joined_events(p0));
        let q0 = h;
        lemma_tag_then_joined(h, q0, p0, x.0.written_events());
        let p1 = p0.push(x.0.written_events());
        let q1 = q0 + x.0.written_events();
        lemma_tag_then_joined(h, q1, p1, x.1.written_events());
        let p2 = p1.push(x.1.written_events());
        let q2 = q1 + x.1.written_events();
        lemma_tag_then_joined(h, q2, p2, x.2.written_events());
        let p3 = p2.push(x.2.written_events());
        let q3 = q2 + x.2.written_events();
        lemma_tag_then_joined(h, q3, p3, x.3.written_events());
        let p4 = p3.push(x.3.written_events());
        let q4 = q3 + x.3.written_events();
        lemma_tag_then_joined(h, q4, p4, x.4.written_events());
        let p5 = p4.push(x.4.written_events());
        let q5 = q4 + x.4.written_events();
        assert(T1::decoded_from(p5[0], x.0));
        assert(T2::decoded_from(p5[1], x.1));
        assert(T3::decoded_from(p5[2], x.2));
        assert(T4::decoded_from(p5[3], x.3));
        assert(T5::decoded_from(p5[4], x.4));
        assert(x.written_events() == q5);
        assert((h + joined_events(p5)).drop_first() =~= joined_events(p5));
    }
}

/// What a tuple of 6 values writes decodes to that tuple, field by field in
/// order, where what each field's type writes decodes to that field.
pub proof fn lemma_tuple6_decodes_written<T1: SmolRead + SmolWrite, T2: SmolRead + SmolWrite, T3: SmolRead + SmolWrite, T4: SmolRead + SmolWrite, T5: SmolRead + SmolWrite, T6: SmolRead + SmolWrite>()
    requires
        decodes_written::<T1>(),
        decodes_written::<T2>(),
        decodes_written::<T3>(),
        decodes_written::<T4>(),
        decodes_written::<T5>(),
        decodes_written::<T6>(),
    ensures
        decodes_written::<(T1, T2, T3, T4, T5, T6)>(),
{
    assert forall|x: (T1, T2, T3, T4, T5, T6)| #[trigger] <(T1, T2, T3, T4, T5, T6) as SmolRead>::decoded_from(x.written_events(), x) by {
        let h = seq![WriteEvent::Tag(TagModel::Tuple(6))];
        let p0 = Seq::<Seq<WriteEvent>>::empty();
        assert(h =~= h + joined_events(p0));
        let q0 = h;
        lemma_tag_then_joined(h, q0, p0, x.0.written_events());
        let p1 = p0.push(x.0.written_events());
        let q1 = q0 + x.0.written_events();
        lemma_tag_then_joined(h, q1, p1, x.1.written_events());
        let p2 = p1.push(x.1.written_events());
        let q2 = q1 + x.1.written_events();
        lemma_tag_then_joined(h, q2, p2, x.2.written_events());
        let p3 = p2.push(x.2.written_events());
        let q3 = q2 + x.2.written_events();
        lemma_tag_then_joined(h, q3, p3, x.3.written_events());
        let p4 = p3.push(x.3.written_events());
        let q4 = q3 + x.3.written_events();
        lemma_tag_then_joined(h, q4, p4, x.4.written_events());
        let p5 = p4.push(x.4.written_events());
        let q5 = q4 + x.4.written_events();
        lemma_tag_then_joined(h, q5, p5, x.5.written_events());
        let p6 = p5.push(x.5.written_events());
        let q6 = q5 + x.5.written_events();
        assert(T1::decoded_from(p6[0], x.0));
        assert(T2::decoded_from(p6[1], x.1));
        assert(T3::decoded_from(p6[2], x.2));
        assert(T4::decoded_from(p6[3], x.3));
        assert(T5::decoded_from(p6[4], x.4));
        assert(T6::decoded_from(p6[5], x.5));
        assert(x.written_events() == q6);
        assert((h + joined_events(p6)).drop_first() =~= joined_events(p6));
    }
}

/// What a tuple of 7 values writes decodes to that tuple, field by field in
/// order, where what each field's type writes decodes to that field.
pub proof fn lemma_tuple7_decodes_written<T1: SmolRead + SmolWrite, T2: SmolRead + SmolWrite, T3: SmolRead + SmolWrite, T4: SmolRead + SmolWrite, T5: SmolRead + SmolWrite, T6: SmolRead + SmolWrite, T7: SmolRead + SmolWrite>()
    requires
        decodes_written::<T1>(),
        decodes_written::<T2>(),
        decodes_written::<T3>(),
        decodes_written::<T4>(),
        decodes_written::<T5>(),
        decodes_written::<T6>(),
        decodes_written::<T7>(),
    ensures
        decodes_written::<(T1, T2, T3, T4, T5, T6, T7)>(),
{
    assert forall|x: (T1, T2, T3, T4, T5, T6, T7)| #[trigger] <(T1, T2, T3, T4, T5, T6, T7) as SmolRead>::decoded_from(x.written_events(), x) by {
        let h = seq![WriteEvent::Tag(TagModel::Tuple(7))];
        let p0 = Seq::<Seq<WriteEvent>>::empty();
        assert(h =~= h + joined_events(p0));
        let q0 = h;
        lemma_tag_then_joined(h, q0, p0, x.0.written_events());
        let p1 = p0.push(x.0.written_events());
        let q1 = q0 + x.0.written_events();
        lemma_tag_then_joined(h, q1, p1, x.1.written_events());
        let p2 = p1.push(x.1.written_events());
        let q2 = q1 + x.1.written_events();
        lemma_tag_then_joined(h, q2, p2, x.2.written_events());
        let p3 = p2.push(x.2.written_events());
        let q3 = q2 + x.2.written_events();
        lemma_tag_then_joined(h, q3, p3, x.3.written_events());
        let p4 = p3.push(x.3.written_events());
        let q4 = q3 + x.3.written_events();
        lemma_tag_then_joined(h, q4, p4, x.4.written_events());
        let p5 = p4.push(x.4.written_events());
        let q5 = q4 + x.4.written_events();
        lemma_tag_then_joined(h, q5, p5, x.5.written_events());
        let p6 = p5.push(x.5.written_events());
        let q6 = q5 + x.5.written_events();
        lemma_tag_then_joined(h, q6, p6, x.6.written_events());
        let p7 = p6.push(x.6.written_events());
        let q7 = q6 + x.6.written_events();
        assert(T1::decoded_from(p7[0], x.0));
        assert(T2::decoded_from(p7[1], x.1));
        assert(T3::decoded_from(p7[2], x.2));
        assert(T4::decoded_from(p7[3], x.3));
        assert(T5::decoded_from(p7[4], x.4));
        assert(T6::decoded_from(p7[5], x.5));
        assert(T7::decoded_from(p7[6], x.6));
        assert(x.written_events() == q7);
        assert((h + joined_events(p7)).drop_first() =~= joined_events(p7));
    }
}

/// What a tuple of 8 values writes decodes to that tuple, field by field in
/// order, where what each field's type writes decodes to that field.
pub proof fn lemma_tuple8_decodes_written<T1: SmolRead + SmolWrite, T2: SmolRead + SmolWrite, T3: SmolRead + SmolWrite, T4: SmolRead + SmolWrite, T5: SmolRead + SmolWrite, T6: SmolRead + SmolWrite, T7: SmolRead + SmolWrite, T8: SmolRead + SmolWrite>()
    requires
        decodes_written::<T1>(),
        decodes_written::<T2>(),
        decodes_written::<T3>(),
        decodes_written::<T4>(),
        decodes_written::<T5>(),
        decodes_written::<T6>(),
        decodes_written::<T7>(),
        decodes_written::<T8>(),
    ensures
        decodes_written::<(T1, T2, T3, T4, T5, T6, T7, T8)>(),
{
    assert forall|x: (T1, T2, T3, T4, T5, T6, T7, T8)| #[trigger] <(T1, T2, T3, T4, T5, T6, T7, T8) as SmolRead>::decoded_from(x.written_events(), x) by {
        let h = seq![WriteEvent::Tag(TagModel::Tuple(8))];
        let p0 = Seq::<Seq<WriteEvent>>::empty();
        assert(h =~= h + joined_events(p0));
        let q0 = h;
        lemma_tag_then_joined(h, q0, p0, x.0.written_events());
        let p1 = p0.push(x.0.written_events());
        let q1 = q0 + x.0.written_events();
        lemma_tag_then_joined(h, q1, p1, x.1.written_events());
        let p2 = p1.push(x.1.written_events());
        let q2 = q1 + x.1.written_events();
        lemma_tag_then_joined(h, q2, p2, x.2.written_events());
        let p3 = p2.push(x.2.written_events());
        let q3 = q2 + x.2.written_events();
        lemma_tag_then_joined(h, q3, p3, x.3.written_events());
        let p4 = p3.push(x.3.written_events());
        let q4 = q3 + x.3.written_events();
        lemma_tag_then_joined(h, q4, p4, x.4.written_events());
        let p5 = p4.push(x.4.written_events());
        let q5 = q4 + x.4.written_events();
        lemma_tag_then_joined(h, q5, p5, x.5.written_events());
        let p6 = p5.push(x.5.written_events());
        let q6 = q5 + x.5.written_events();
        lemma_tag_then_joined(h, q6, p6, x.6.written_events());
        let p7 = p6.push(x.6.written_events());
        let q7 = q6 + x.6.written_events();
        lemma_tag_then_joined(h, q7, p7, x.7.written_events());
        let p8 = p7.push(x.7.written_events());
        let q8 = q7 + x.7.written_events();
        assert(T1::decoded_from(p8[0], x.0));
        assert(T2::decoded_from(p8[1], x.1));
        assert(T3::decoded_from(p8[2], x.2));
        assert(T4::decoded_from(p8[3], x.3));
        assert(T5::decoded_from(p8[4], x.4));
        assert(T6::decoded_from(p8[5], x.5));
        assert(T7::decoded_from(p8[6], x.6));
        assert(T8::decoded_from(p8[7], x.7));
        assert(x.written_events() == q8);
        assert((h + joined_events(p8)).drop_first() =~= joined_events(p8));
    }
}

/// What a tuple of 9 values writes decodes to that tuple, field by field in
/// order, where what each field's type writes decodes to that field.
#[verifier::rlimit(40)]
pub proof fn lemma_tuple9_decodes_written<T1: SmolRead + SmolWrite, T2: SmolRead + SmolWrite, T3: SmolRead + SmolWrite, T4: SmolRead + SmolWrite, T5: SmolRead + SmolWrite, T6: SmolRead + SmolWrite, T7: SmolRead + SmolWrite, T8: SmolRead + SmolWrite, T9: SmolRead + SmolWrite>()
    requires
        decodes_written::<T1>(),
        decodes_written::<T2>(),
        decodes_written::<T3>(),
        decodes_written::<T4>(),
        decodes_written::<T5>(),
        decodes_written::<T6>(),
        decodes_written::<T7>(),
        decodes_written::<T8>(),
        decodes_written::<T9>(),
    ensures
        decodes_written::<(T1, T2, T3, T4, T5, T6, T7, T8, T9)>(),
{
    assert forall|x: (T1, T2, T3, T4, T5, T6, T7, T8, T9)| #[trigger] <(T1, T2, T3, T4, T5, T6, T7, T8, T9) as SmolRead>::decoded_from(x.written_events(), x) by {
        let h = seq![WriteEvent::Tag(TagModel::Tuple(9))];
        let p0 = Seq::<Seq<WriteEvent>>::empty();
        assert(h =~= h + joined_events(p0));
        let q0 = h;
        lemma_tag_then_joined(h, q0, p0, x.0.written_events());
        let p1 = p0.push(x.0.written_events());
        let q1 = q0 + x.0.written_events();
        lemma_tag_then_joined(h, q1, p1, x.1.written_events());
        let p2 = p1.push(x.1.written_events());
        let q2 = q1 + x.1.written_events();
        lemma_tag_then_joined(h, q2, p2, x.2.written_events());
        let p3 = p2.push(x.2.written_events());
        let q3 = q2 + x.2.written_events();
        lemma_tag_then_joined(h, q3, p3, x.3.written_events());
        let p4 = p3.push(x.3.written_events());
        let q4 = q3 + x.3.written_events();
        lemma_tag_then_joined(h, q4, p4, x.4.written_events());
        let p5 = p4.push(x.4.written_events());
        let q5 = q4 + x.4.written_events();
        lemma_tag_then_joined(h, q5, p5, x.5.written_events());
        let p6 = p5.push(x.5.written_events());
        let q6 = q5 + x.5.written_events();
        lemma_tag_then_joined(h, q6, p6, x.6.written_events());
        let p7 = p6.push(x.6.written_events());
        let q7 = q6 + x.6.written_events();
        lemma_tag_then_joined(h, q7, p7, x.7.written_events());
        let p8 = p7.push(x.7.written_events());
        let q8 = q7 + x.7.written_events();
        lemma_tag_then_joined(h, q8, p8, x.8.written_events());
        let p9 = p8.push(x.8.written_events());
        let q9 = q8 + x.8.written_events();
        assert(T1::decoded_from(p9[0], x.0));
        assert(T2::decoded_from(p9[1], x.1));
        assert(T3::decoded_from(p9[2], x.2));
        assert(T4::decoded_from(p9[3], x.3));
        assert(T5::decoded_from(p9[4], x.4));
        assert(T6::decoded_from(p9[5], x.5));
        assert(T7::decoded_from(p9[6], x.6));
        assert(T8::decoded_from(p9[7], x.7));
        assert(T9::decoded_from(p9[8], x.8));
        assert(x.written_events() == q9);
        assert((h + joined_events(p9)).drop_first() =~= joined_events(p9));
    }
}

/// What a tuple of 10 values writes decodes to that tuple, field by field in
/// order, where what each field's type writes decodes to that field.
#[verifier::rlimit(40)]
pub proof fn lemma_tuple10_decodes_written<T1: SmolRead + SmolWrite, T2: SmolRead + SmolWrite, T3: SmolRead + SmolWrite, T4: SmolRead + SmolWrite, T5: SmolRead + SmolWrite, T6: SmolRead + SmolWrite, T7: SmolRead + SmolWrite, T8: SmolRead + SmolWrite, T9: SmolRead + SmolWrite, T10: SmolRead + SmolWrite>()
    requires
        decodes_written::<T1>(),
        decodes_written::<T2>(),
        decodes_written::<T3>(),
        decodes_written::<T4>(),
        decodes_written::<T5>(),
        decodes_written::<T6>(),
        decodes_written::<T7>(),
        decodes_written::<T8>(),
        decodes_written::<T9>(),
        decodes_written::<T10>(),
    ensures
        decodes_written::<(T1, T2, T3, T4, T5, T6, T7, T8, T9, T10)>(),
{
    assert forall|x: (T1, T2, T3, T4, T5, T6, T7, T8, T9, T10)| #[trigger] <(T1, T2, T3, T4, T5, T6, T7, T8, T9, T10) as SmolRead>::decoded_from(x.written_events(), x) by {
        let h = seq![WriteEvent::Tag(TagModel::Tuple(10))];
        let p0 = Seq::<Seq<WriteEvent>>::empty();
        assert(h =~= h + joined_events(p0));
        let q0 = h;
        lemma_tag_then_joined(h, q0, p0, x.0.written_events());
        let p1 = p0.push(x.0.written_events());
        let q1 = q0 + x.0.written_events();
        lemma_tag_then_joined(h, q1, p1, x.1.written_events());
        let p2 = p1.push(x.1.written_events());
        let q2 = q1 + x.1.written_events();
        lemma_tag_then_joined(h, q2, p2, x.2.written_events());
        let p3 = p2.push(x.2.written_events());
        let q3 = q2 + x.2.written_events();
        lemma_tag_then_joined(h, q3, p3, x.3.written_events());
        let p4 = p3.push(x.3.written_events());
        let q4 = q3 + x.3.written_events();
        lemma_tag_then_joined(h, q4, p4, x.4.written_events());
        let p5 = p4.push(x.4.written_events());
        let q5 = q4 + x.4.written_events();
        lemma_tag_then_joined(h, q5, p5, x.5.written_events());
        let p6 = p5.push(x.5.written_events());
        let q6 = q5 + x.5.written_events();
        lemma_tag_then_joined(h, q6, p6, x.6.written_events());
        let p7 = p6.push(x.6.written_events());
        let q7 = q6 + x.6.written_events();
        lemma_tag_then_joined(h, q7, p7, x.7.written_events());
        let p8 = p7.push(x.7.written_events());
        let q8 = q7 + x.7.written_events();
        lemma_tag_then_joined(h, q8, p8, x.8.written_events());
        let p9 = p8.push(x.8.written_events());
        let q9 = q8 + x.8.written_events();
        lemma_tag_then_joined(h, q9, p9, x.9.written_events());
        let p10 = p9.push(x.9.written_events());
        let q10 = q9 + x.9.written_events();
        assert(T1::decoded_from(p10[0], x.0));
        assert(T2::decoded_from(p10[1], x.1));
        assert(T3::decoded_from(p10[2], x.2));
        assert(T4::decoded_from(p10[3], x.3));
        assert(T5::decoded_from(p10[4], x.4));
        assert(T6::decoded_from(p10[5], x.5));
        assert(T7::decoded_from(p10[6], x.6));
        assert(T8::decoded_from(p10[7], x.7));
        assert(T9::decoded_from(p10[8], x.8));
        assert(T10::decoded_from(p10[9], x.9));
        assert(x.written_events() == q10);
        assert((h + joined_events(p10)).drop_first() =~= joined_events(p10));
    }
}

/// What a tuple of 11 values writes decodes to that tuple, field by field in
/// order, where what each field's type writes decodes to that field.
#[verifier::rlimit(40)]
pub proof fn lemma_tuple11_decodes_written<T1: SmolRead + SmolWrite, T2: SmolRead + SmolWrite, T3: SmolRead + SmolWrite, T4: SmolRead + SmolWrite, T5: SmolRead + SmolWrite, T6: SmolRead + SmolWrite, T7: SmolRead + SmolWrite, T8: SmolRead + SmolWrite, T9: SmolRead + SmolWrite, T10: SmolRead + SmolWrite, T11: SmolRead + SmolWrite>()
    requires
        decodes_written::<T1>(),
        decodes_written::<T2>(),
        decodes_written::<T3>(),
        decodes_written::<T4>(),
        decodes_written::<T5>(),
        decodes_written::<T6>(),
        decodes_written::<T7>(),
        decodes_written::<T8>(),
        decodes_written::<T9>(),
        decodes_written::<T10>(),
        decodes_written::<T11>(),
    ensures
        decodes_written::<(T1, T2, T3, T4, T5, T6, T7, T8, T9, T10, T11)>(),
{
    assert forall|x: (T1, T2, T3, T4, T5, T6, T7, T8, T9, T10, T11)| #[trigger] <(T1, T2, T3, T4, T5, T6, T7, T8, T9, T10, T11) as SmolRead>::decoded_from(x.written_events(), x) by {
        let h = seq![WriteEvent::Tag(TagModel::Tuple(11))];
        let p0 = Seq::<Seq<WriteEvent>>::empty();
        assert(h =~= h + joined_events(p0));
        let q0 = h;
        lemma_tag_then_joined(h, q0, p0, x.0.written_events());
        let p1 = p0.push(x.0.written_events());
        let q1 = q0 + x.0.written_events();
        lemma_tag_then_joined(h, q1, p1, x.1.written_events());
        let p2 = p1.push(x.1.written_events());
        let q2 = q1 + x.1.written_events();
        lemma_tag_then_joined(h, q2, p2, x.2.written_events());
        let p3 = p2.push(x.2.written_events());
        let q3 = q2 + x.2.written_events();
        lemma_tag_then_joined(h, q3, p3, x.3.written_events());
        let p4 = p3.push(x.3.written_events());
        let q4 = q3 + x.3.written_events();
        lemma_tag_then_joined(h, q4, p4, x.4.written_events());
        let p5 = p4.push(x.4.written_events());
        let q5 = q4 + x.4.written_events();
        lemma_tag_then_joined(h, q5, p5, x.5.written_events());
        let p6 = p5.push(x.5.written_events());
        let q6 = q5 + x.5.written_events();
        lemma_tag_then_joined(h, q6, p6, x.6.written_events());
        let p7 = p6.push(x.6.written_events());
        let q7 = q6 + x.6.written_events();
        lemma_tag_then_joined(h, q7, p7, x.7.written_events());
        let p8 = p7.push(x.7.written_events());
        let q8 = q7 + x.7.written_events();
        lemma_tag_then_joined(h, q8, p8, x.8.written_events());
        let p9 = p8.push(x.8.written_events());
        let q9 = q8 + x.8.written_events();
        lemma_tag_then_joined(h, q9, p9, x.9.written_events());
        let p10 = p9.push(x.9.written_events());
        let q10 = q9 + x.9.written_events();
        lemma_tag_then_joined(h, q10, p10, x.10.written_events());
        let p11 = p10.push(x.10.written_events());
        let q11 = q10 + x.10.written_events();
        assert(T1::decoded_from(p11[0], x.0));
        assert(T2::decoded_from(p11[1], x.1));
        assert(T3::decoded_from(p11[2], x.2));
        assert(T4::decoded_from(p11[3], x.3));
        assert(T5::decoded_from(p11[4], x.4));
        assert(T6::decoded_from(p11[5], x.5));
        assert(T7::decoded_from(p11[6], x.6));
        assert(T8::decoded_from(p11[7], x.7));
        assert(T9::decoded_from(p11[8], x.8));
        assert(T10::decoded_from(p11[9], x.9));
        assert(T11::decoded_from(p11[10], x.10));
        assert(x.written_events() == q11);
        assert((h + joined_events(p11)).drop_first() =~= joined_events(p11));
    }
}

/// What a tuple of 12 values writes decodes to that tuple, field by field in
/// order, where what each field's type writes decodes to that field.
#[verifier::rlimit(40)]
pub proof fn lemma_tuple12_decodes_written<T1: SmolRead + SmolWrite, T2: SmolRead + SmolWrite, T3: SmolRead + SmolWrite, T4: SmolRead + SmolWrite, T5: SmolRead + SmolWrite, T6: SmolRead + SmolWrite, T7: SmolRead + SmolWrite, T8: SmolRead + SmolWrite, T9: SmolRead + SmolWrite, T10: SmolRead + SmolWrite, T11: SmolRead + SmolWrite, T12: SmolRead + SmolWrite>()
    requires
        decodes_written::<T1>(),
        decodes_written::<T2>(),
        decodes_written::<T3>(),
        decodes_written::<T4>(),
        decodes_written::<T5>(),
        decodes_written::<T6>(),
        decodes_written::<T7>(),
        decodes_written::<T8>(),
        decodes_written::<T9>(),
        decodes_written::<T10>(),
        decodes_written::<T11>(),
        decodes_written::<T12>(),
    ensures
        decodes_written::<(T1, T2, T3, T4, T5, T6, T7, T8, T9, T10, T11, T12)>(),
{
    assert forall|x: (T1, T2, T3, T4, T5, T6, T7, T8, T9, T10, T11, T12)| #[trigger] <(T1, T2, T3, T4, T5, T6, T7, T8, T9, T10, T11, T12) as SmolRead>::decoded_from(x.written_events(), x) by {
        let h = seq![WriteEvent::Tag(TagModel::Tuple(12))];
        let p0 = Seq::<Seq<WriteEvent>>::empty();
        assert(h =~= h + joined_events(p0));
        let q0 = h;
        lemma_tag_then_joined(h, q0, p0, x.0.written_events());
        let p1 = p0.push(x.0.written_events());
        let q1 = q0 + x.0.written_events();
        lemma_tag_then_joined(h, q1, p1, x.1.written_events());
        let p2 = p1.push(x.1.written_events());
        let q2 = q1 + x.1.written_events();
        lemma_tag_then_joined(h, q2, p2, x.2.written_events());
        let p3 = p2.push(x.2.written_events());
        let q3 = q2 + x.2.written_events();
        lemma_tag_then_joined(h, q3, p3, x.3.written_events());
        let p4 = p3.push(x.3.written_events());
        let q4 = q3 + x.3.written_events();
        lemma_tag_then_joined(h, q4, p4, x.4.written_events());
        let p5 = p4.push(x.4.written_events());
        let q5 = q4 + x.4.written_events();
        lemma_tag_then_joined(h, q5, p5, x.5.written_events());
        let p6 = p5.push(x.5.written_events());
        let q6 = q5 + x.5.written_events();
        lemma_tag_then_joined(h, q6, p6, x.6.written_events());
        let p7 = p6.push(x.6.written_events());
        let q7 = q6 + x.6.written_events();
        lemma_tag_then_joined(h, q7, p7, x.7.written_events());
        let p8 = p7.push(x.7.written_events());
        let q8 = q7 + x.7.written_events();
        lemma_tag_then_joined(h, q8, p8, x.8.written_events());
        let p9 = p8.push(x.8.written_events());
        let q9 = q8 + x.8.written_events();
        lemma_tag_then_joined(h, q9, p9, x.9.written_events());
        let p10 = p9.push(x.9.written_events());
        let q10 = q9 + x.9.written_events();
        lemma_tag_then_joined(h, q10, p10, x.10.written_events());
        let p11 = p10.push(x.10.written_events());
        let q11 = q10 + x.10.written_events();
        lemma_tag_then_joined(h, q11, p11, x.11.written_events());
        let p12 = p11.push(x.11.written_events());
        let q12 = q11 + x.11.written_events();
        assert(T1::decoded_from(p12[0], x.0));
        assert(T2::decoded_from(p12[1], x.1));
        assert(T3::decoded_from(p12[2], x.2));
        assert(T4::decoded_from(p12[3], x.3));
        assert(T5::decoded_from(p12[4], x.4));
        assert(T6::decoded_from(p12[5], x.5));
        assert(T7::decoded_from(p12[6], x.6));
        assert(T8::decoded_from(p12[7], x.7));
        assert(T9::decoded_from(p12[8], x.8));
        assert(T10::decoded_from(p12[9], x.9));
        assert(T11::decoded_from(p12[10], x.10));
        assert(T12::decoded_from(p12[11], x.11));
        assert(x.written_events() == q12);
        assert((h + joined_events(p12)).drop_first() =~= joined_events(p12));
    }
}

/// What a tuple of 13 values writes decodes to that tuple, field by field in
/// order, where what each field's type writes decodes to that field.
#[verifier::rlimit(40)]
pub proof fn lemma_tuple13_decodes_written<T1: SmolRead + SmolWrite, T2: SmolRead + SmolWrite, T3: SmolRead + SmolWrite, T4: SmolRead + SmolWrite, T5: SmolRead + SmolWrite, T6: SmolRead + SmolWrite, T7: SmolRead + SmolWrite, T8: SmolRead + SmolWrite, T9: SmolRead + SmolWrite, T10: SmolRead + SmolWrite, T11: SmolRead + SmolWrite, T12: SmolRead + SmolWrite, T13: SmolRead + SmolWrite>()
    requires
        decodes_written::<T1>(),
        decodes_written::<T2>(),
        decodes_written::<T3>(),
        decodes_written::<T4>(),
        decodes_written::<T5>(),
        decodes_written::<T6>(),
        decodes_written::<T7>(),
        decodes_written::<T8>(),
        decodes_written::<T9>(),
        decodes_written::<T10>(),
        decodes_written::<T11>(),
        decodes_written::<T12>(),
        decodes_written::<T13>(),
    ensures
        decodes_written::<(T1, T2, T3, T4, T5, T6, T7, T8, T9, T10, T11, T12, T13)>(),
{
    assert forall|x: (T1, T2, T3, T4, T5, T6, T7, T8, T9, T10, T11, T12, T13)| #[trigger] <(T1, T2, T3, T4, T5, T6, T7, T8, T9, T10, T11, T12, T13) as SmolRead>::decoded_from(x.written_events(), x) by {
        let h = seq![WriteEvent::Tag(TagModel::Tuple(13))];
        let p0 = Seq::<Seq<WriteEvent>>::empty();
        assert(h =~= h + joined_events(p0));
        let q0 = h;
        lemma_tag_then_joined(h, q0, p0, x.0.written_events());
        let p1 = p0.push(x.0.written_events());
        let q1 = q0 + x.0.written_events();
        lemma_tag_then_joined(h, q1, p1, x.1.written_events());
        let p2 = p1.push(x.1.written_events());
        let q2 = q1 + x.1.written_events();
        lemma_tag_then_joined(h, q2, p2, x.2.written_events());
        let p3 = p2.push(x.2.written_events());
        let q3 = q2 + x.2.written_events();
        lemma_tag_then_joined(h, q3, p3, x.3.written_events());
        let p4 = p3.push(x.3.written_events());
        let q4 = q3 + x.3.written_events();
        lemma_tag_then_joined(h, q4, p4, x.4.written_events());
        let p5 = p4.push(x.4.written_events());
        let q5 = q4 + x.4.written_events();
        lemma_tag_then_joined(h, q5, p5, x.5.written_events());
        let p6 = p5.push(x.5.written_events());
        let q6 = q5 + x.5.written_events();
        lemma_tag_then_joined(h, q6, p6, x.6.written_events());
        let p7 = p6.push(x.6.written_events());
        let q7 = q6 + x.6.written_events();
        lemma_tag_then_joined(h, q7, p7, x.7.written_events());
        let p8 = p7.push(x.7.written_events());
        let q8 = q7 + x.7.written_events();
        lemma_tag_then_joined(h, q8, p8, x.8.written_events());
        let p9 = p8.push(x.8.written_events());
        let q9 = q8 + x.8.written_events();
        lemma_tag_then_joined(h, q9, p9, x.9.written_events());
        let p10 = p9.push(x.9.written_events());
        let q10 = q9 + x.9.written_events();
        lemma_tag_then_joined(h, q10, p10, x.10.written_events());
        let p11 = p10.push(x.10.written_events());
        let q11 = q10 + x.10.written_events();
        lemma_tag_then_joined(h, q11, p11, x.11.written_events());
        let p12 = p11.push(x.11.written_events());
        let q12 = q11 + x.11.written_events();
        lemma_tag_then_joined(h, q12, p12, x.12.written_events());
        let p13 = p12.push(x.12.written_events());
        let q13 = q12 + x.12.written_events();
        assert(T1::decoded_from(p13[0], x.0));
        assert(T2::decoded_from(p13[1], x.1));
        assert(T3::decoded_from(p13[2], x.2));
        assert(T4::decoded_from(p13[3], x.3));
        assert(T5::decoded_from(p13[4], x.4));
        assert(T6::decoded_from(p13[5], x.5));
        assert(T7::decoded_from(p13[6], x.6));
        assert(T8::decoded_from(p13[7], x.7));
        assert(T9::decoded_from(p13[8], x.8));
        assert(T10::decoded_from(p13[9], x.9));
        assert(T11::decoded_from(p13[10], x.10));
        assert(T12::decoded_from(p13[11], x.11));
        assert(T13::decoded_from(p13[12], x.12));
        assert(x.written_events() == q13);
        assert((h + joined_events(p13)).drop_first() =~= joined_events(p13));
    }
}

/// What a tuple of 14 values writes decodes to that tuple, field by field in
/// order, where what each field's type writes decodes to that field.
#[verifier::rlimit(40)]
pub proof fn lemma_tuple14_decodes_written<T1: SmolRead + SmolWrite, T2: SmolRead + SmolWrite, T3: SmolRead + SmolWrite, T4: SmolRead + SmolWrite, T5: SmolRead + SmolWrite, T6: SmolRead + SmolWrite, T7: SmolRead + SmolWrite, T8: SmolRead + SmolWrite, T9: SmolRead + SmolWrite, T10: SmolRead + SmolWrite, T11: SmolRead + SmolWrite, T12: SmolRead + SmolWrite, T13: SmolRead + SmolWrite, T14: SmolRead + SmolWrite>()
    requires
        decodes_written::<T1>(),
        decodes_written::<T2>(),
        decodes_written::<T3>(),
        decodes_written::<T4>(),
        decodes_written::<T5>(),
        decodes_written::<T6>(),
        decodes_written::<T7>(),
        decodes_written::<T8>(),
        decodes_written::<T9>(),
        decodes_written::<T10>(),
        decodes_written::<T11>(),
        decodes_written::<T12>(),
        decodes_written::<T13>(),
        decodes_written::<T14>(),
    ensures
        decodes_written::<(T1, T2, T3, T4, T5, T6, T7, T8, T9, T10, T11, T12, T13, T14)>(),
{
    assert forall|x: (T1, T2, T3, T4, T5, T6, T7, T8, T9, T10, T11, T12, T13, T14)| #[trigger] <(T1, T2, T3, T4, T5, T6, T7, T8, T9, T10, T11, T12, T13, T14) as SmolRead>::decoded_from(x.written_events(), x) by {
        let h = seq![WriteEvent::Tag(TagModel::Tuple(14))];
        let p0 = Seq::<Seq<WriteEvent>>::empty();
        assert(h =~= h + joined_events(p0));
        let q0 = h;
        lemma_tag_then_joined(h, q0, p0, x.0.written_events());
        let p1 = p0.push(x.0.written_events());
        let q1 = q0 + x.0.written_events();
        lemma_tag_then_joined(h, q1, p1, x.1.written_events());
        let p2 = p1.push(x.1.written_events());
        let q2 = q1 + x.1.written_events();
        lemma_tag_then_joined(h, q2, p2, x.2.written_events());
        let p3 = p2.push(x.2.written_events());
        let q3 = q2 + x.2.written_events();
        lemma_tag_then_joined(h, q3, p3, x.3.written_events());
        let p4 = p3.push(x.3.written_events());
        let q4 = q3 + x.3.written_events();
        lemma_tag_then_joined(h, q4, p4, x.4.written_events());
        let p5 = p4.push(x.4.written_events());
        let q5 = q4 + x.4.written_events();
        lemma_tag_then_joined(h, q5, p5, x.5.written_events());
        let p6 = p5.push(x.5.written_events());
        let q6 = q5 + x.5.written_events();
        lemma_tag_then_joined(h, q6, p6, x.6.written_events());
        let p7 = p6.push(x.6.written_events());
        let q7 = q6 + x.6.written_events();
        lemma_tag_then_joined(h, q7, p7, x.7.written_events());
        let p8 = p7.push(x.7.written_events());
        let q8 = q7 + x.7.written_events();
        lemma_tag_then_joined(h, q8, p8, x.8.written_events());
        let p9 = p8.push(x.8.written_events());
        let q9 = q8 + x.8.written_events();
        lemma_tag_then_joined(h, q9, p9, x.9.written_events());
        let p10 = p9.push(x.9.written_events());
        let q10 = q9 + x.9.written_events();
        lemma_tag_then_joined(h, q10, p10, x.10.written_events());
        let p11 = p10.push(x.10.written_events());
        let q11 = q10 + x.10.written_events();
        lemma_tag_then_joined(h, q11, p11, x.11.written_events());
        let p12 = p11.push(x.11.written_events());
        let q12 = q11 + x.11.written_events();
        lemma_tag_then_joined(h, q12, p12, x.12.written_events());
        let p13 = p12.push(x.12.written_events());
        let q13 = q12 + x.12.written_events();
        lemma_tag_then_joined(h, q13, p13, x.13.written_events());
        let p14 = p13.push(x.13.written_events());
        let q14 = q13 + x.13.written_events();
        assert(T1::decoded_from(p14[0], x.0));
        assert(T2::decoded_from(p14[1], x.1));
        assert(T3::decoded_from(p14[2], x.2));
        assert(T4::decoded_from(p14[3], x.3));
        assert(T5::decoded_from(p14[4], x.4));
        assert(T6::decoded_from(p14[5], x.5));
        assert(T7::decoded_from(p14[6], x.6));
        assert(T8::decoded_from(p14[7], x.7));
        assert(T9::decoded_from(p14[8], x.8));
        assert(T10::decoded_from(p14[9], x.9));
        assert(T11::decoded_from(p14[10], x.10));
        assert(T12::decoded_from(p14[11], x.11));
        assert(T13::decoded_from(p14[12], x.12));
        assert(T14::decoded_from(p14[13], x.13));
        assert(x.written_events() == q14);
        assert((h + joined_events(p14)).drop_first() =~= joined_events(p14));
    }
}

/// What a tuple of 15 values writes decodes to that tuple, field by field in
/// order, where what each field's type writes decodes to that field.
#[verifier::rlimit(40)]
pub proof fn lemma_tuple15_decodes_written<T1: SmolRead + SmolWrite, T2: SmolRead + SmolWrite, T3: SmolRead + SmolWrite, T4: SmolRead + SmolWrite, T5: SmolRead + SmolWrite, T6: SmolRead + SmolWrite, T7: SmolRead + SmolWrite, T8: SmolRead + SmolWrite, T9: SmolRead + SmolWrite, T10: SmolRead + SmolWrite, T11: SmolRead + SmolWrite, T12: SmolRead + SmolWrite, T13: SmolRead + SmolWrite, T14: SmolRead + SmolWrite, T15: SmolRead + SmolWrite>()
    requires
        decodes_written::<T1>(),
        decodes_written::<T2>(),
        decodes_written::<T3>(),
        decodes_written::<T4>(),
        decodes_written::<T5>(),
        decodes_written::<T6>(),
        decodes_written::<T7>(),
        decodes_written::<T8>(),
        decodes_written::<T9>(),
        decodes_written::<T10>(),
        decodes_written::<T11>(),
        decodes_written::<T12>(),
        decodes_written::<T13>(),
        decodes_written::<T14>(),
        decodes_written::<T15>(),
    ensures
        decodes_written::<(T1, T2, T3, T4, T5, T6, T7, T8, T9, T10, T11, T12, T13, T14, T15)>(),
{
    assert forall|x: (T1, T2, T3, T4, T5, T6, T7, T8, T9, T10, T11, T12, T13, T14, T15)| #[trigger] <(T1, T2, T3, T4, T5, T6, T7, T8, T9, T10, T11, T12, T13, T14, T15) as SmolRead>::decoded_from(x.written_events(), x) by {
        let h = seq![WriteEvent::Tag(TagModel::Tuple(15))];
        let p0 = Seq::<Seq<WriteEvent>>::empty();
        assert(h =~= h + joined_events(p0));
        let q0 = h;
        lemma_tag_then_joined(h, q0, p0, x.0.written_events());
        let p1 = p0.push(x.0.written_events());
        let q1 = q0 + x.0.written_events();
        lemma_tag_then_joined(h, q1, p1, x.1.written_events());
        let p2 = p1.push(x.1.written_events());
        let q2 = q1 + x.1.written_events();
        lemma_tag_then_joined(h, q2, p2, x.2.written_events());
        let p3 = p2.push(x.2.written_events());
        let q3 = q2 + x.2.written_events();
        lemma_tag_then_joined(h, q3, p3, x.3.written_events());
        let p4 = p3.push(x.3.written_events());
        let q4 = q3 + x.3.written_events();
        lemma_tag_then_joined(h, q4, p4, x.4.written_events());
        let p5 = p4.push(x.4.written_events());
        let q5 = q4 + x.4.written_events();
        lemma_tag_then_joined(h, q5, p5, x.5.written_events());
        let p6 = p5.push(x.5.written_events());
        let q6 = q5 + x.5.written_events();
        lemma_tag_then_joined(h, q6, p6, x.6.written_events());
        let p7 = p6.push(x.6.written_events());
        let q7 = q6 + x.6.written_events();
        lemma_tag_then_joined(h, q7, p7, x.7.written_events());
        let p8 = p7.push(x.7.written_events());
        let q8 = q7 + x.7.written_events();
        lemma_tag_then_joined(h, q8, p8, x.8.written_events());
        let p9 = p8.push(x.8.written_events());
        let q9 = q8 + x.8.written_events();
        lemma_tag_then_joined(h, q9, p9, x.9.written_events());
        let p10 = p9.push(x.9.written_events());
        let q10 = q9 + x.9.written_events();
        lemma_tag_then_joined(h, q10, p10, x.10.written_events());
        let p11 = p10.push(x.10.written_events());
        let q11 = q10 + x.10.written_events();
        lemma_tag_then_joined(h, q11, p11, x.11.written_events());
        let p12 = p11.push(x.11.written_events());
        let q12 = q11 + x.11.written_events();
        lemma_tag_then_joined(h, q12, p12, x.12.written_events());
        let p13 = p12.push(x.12.written_events());
        let q13 = q12 + x.12.written_events();
        lemma_tag_then_joined(h, q13, p13, x.13.written_events());
        let p14 = p13.push(x.13.written_events());
        let q14 = q13 + x.13.written_events();
        lemma_tag_then_joined(h, q14, p14, x.14.written_events());
        let p15 = p14.push(x.14.written_events());
        let q15 = q14 + x.14.written_events();
        assert(T1::decoded_from(p15[0], x.0));
        assert(T2::decoded_from(p15[1], x.1));
        assert(T3::decoded_from(p15[2], x.2));
        assert(T4::decoded_from(p15[3], x.3));
        assert(T5::decoded_from(p15[4], x.4));
        assert(T6::decoded_from(p15[5], x.5));
        assert(T7::decoded_from(p15[6], x.6));
        assert(T8::decoded_from(p15[7], x.7));
        assert(T9::decoded_from(p15[8], x.8));
        assert(T10::decoded_from(p15[9], x.9));
        assert(T11::decoded_from(p15[10], x.10));
        assert(T12::decoded_from(p15[11], x.11));
        assert(T13::decoded_from(p15[12], x.12));
        assert(T14::decoded_from(p15[13], x.13));
        assert(T15::decoded_from(p15[14], x.14));
        assert(x.written_events() == q15);
        assert((h + joined_events(p15)).drop_first() =~= joined_events(p15));
    }
}

/// What a tuple of 16 values writes decodes to that tuple, field by field in
/// order, where what each field's type writes decodes to that field.
#[verifier::rlimit(40)]
pub proof fn lemma_tuple16_decodes_written<T1: SmolRead + SmolWrite, T2: SmolRead + SmolWrite, T3: SmolRead + SmolWrite, T4: SmolRead + SmolWrite, T5: SmolRead + SmolWrite, T6: SmolRead + SmolWrite, T7: SmolRead + SmolWrite, T8: SmolRead + SmolWrite, T9: SmolRead + SmolWrite, T10: SmolRead + SmolWrite, T11: SmolRead + SmolWrite, T12: SmolRead + SmolWrite, T13: SmolRead + SmolWrite, T14: SmolRead + SmolWrite, T15: SmolRead + SmolWrite, T16: SmolRead + SmolWrite>()
    requires
        decodes_written::<T1>(),
        decodes_written::<T2>(),
        decodes_written::<T3>(),
        decodes_written::<T4>(),
        decodes_written::<T5>(),
        decodes_written::<T6>(),
        decodes_written::<T7>(),
        decodes_written::<T8>(),
        decodes_written::<T9>(),
        decodes_written::<T10>(),
        decodes_written::<T11>(),
        decodes_written::<T12>(),
        decodes_written::<T13>(),
        decodes_written::<T14>(),
        decodes_written::<T15>(),
        decodes_written::<T16>(),
    ensures
        decodes_written::<(T1, T2, T3, T4, T5, T6, T7, T8, T9, T10, T11, T12, T13, T14, T15, T16)>(),
{
    assert forall|x: (T1, T2, T3, T4, T5, T6, T7, T8, T9, T10, T11, T12, T13, T14, T15, T16)| #[trigger] <(T1, T2, T3, T4, T5, T6, T7, T8, T9, T10, T11, T12, T13, T14, T15, T16) as SmolRead>::decoded_from(x.written_events(), x) by {
        let h = seq![WriteEvent::Tag(TagModel::Tuple(16))];
        let p0 = Seq::<Seq<WriteEvent>>::empty();
        assert(h =~= h + joined_events(p0));
        let q0 = h;
        lemma_tag_then_joined(h, q0, p0, x.0.written_events());
        let p1 = p0.push(x.0.written_events());
        let q1 = q0 + x.0.written_events();
        lemma_tag_then_joined(h, q1, p1, x.1.written_events());
        let p2 = p1.push(x.1.written_events());
        let q2 = q1 + x.1.written_events();
        lemma_tag_then_joined(h, q2, p2, x.2.written_events());
        let p3 = p2.push(x.2.written_events());
        let q3 = q2 + x.2.written_events();
        lemma_tag_then_joined(h, q3, p3, x.3.written_events());
        let p4 = p3.push(x.3.written_events());
        let q4 = q3 + x.3.written_events();
        lemma_tag_then_joined(h, q4, p4, x.4.written_events());
        let p5 = p4.push(x.4.written_events());
        let q5 = q4 + x.4.written_events();
        lemma_tag_then_joined(h, q5, p5, x.5.written_events());
        let p6 = p5.push(x.5.written_events());
        let q6 = q5 + x.5.written_events();
        lemma_tag_then_joined(h, q6, p6, x.6.written_events());
        let p7 = p6.push(x.6.written_events());
        let q7 = q6 + x.6.written_events();
        lemma_tag_then_joined(h, q7, p7, x.7.written_events());
        let p8 = p7.push(x.7.written_events());
        let q8 = q7 + x.7.written_events();
        lemma_tag_then_joined(h, q8, p8, x.8.written_events());
        let p9 = p8.push(x.8.written_events());
        let q9 = q8 + x.8.written_events();
        lemma_tag_then_joined(h, q9, p9, x.9.written_events());
        let p10 = p9.push(x.9.written_events());
        let q10 = q9 + x.9.written_events();
        lemma_tag_then_joined(h, q10, p10, x.10.written_events());
        let p11 = p10.push(x.10.written_events());
        let q11 = q10 + x.10.written_events();
        lemma_tag_then_joined(h, q11, p11, x.11.written_events());
        let p12 = p11.push(x.11.written_events());
        let q12 = q11 + x.11.written_events();
        lemma_tag_then_joined(h, q12, p12, x.12.written_events());
        let p13 = p12.push(x.12.written_events());
        let q13 = q12 + x.12.written_events();
        lemma_tag_then_joined(h, q13, p13, x.13.written_events());
        let p14 = p13.push(x.13.written_events());
        let q14 = q13 + x.13.written_events();
        lemma_tag_then_joined(h, q14, p14, x.14.written_events());
        let p15 = p14.push(x.14.written_events());
        let q15 = q14 + x.14.written_events();
        lemma_tag_then_joined(h, q15, p15, x.15.written_events());
        let p16 = p15.push(x.15.written_events());
        let q16 = q15 + x.15.written_events();
        assert(T1::decoded_from(p16[0], x.0));
        assert(T2::decoded_from(p16[1], x.1));
        assert(T3::decoded_from(p16[2], x.2));
        assert(T4::decoded_from(p16[3], x.3));
        assert(T5::decoded_from(p16[4], x.4));
        assert(T6::decoded_from(p16[5], x.5));
        assert(T7::decoded_from(p16[6], x.6));
        assert(T8::decoded_from(p16[7], x.7));
        assert(T9::decoded_from(p16[8], x.8));
        assert(T10::decoded_from(p16[9], x.9));
        assert(T11::decoded_from(p16[10], x.10));
        assert(T12::decoded_from(p16[11], x.11));
        assert(T13::decoded_from(p16[12], x.12));
        assert(T14::decoded_from(p16[13], x.13));
        assert(T15::decoded_from(p16[14], x.14));
        assert(T16::decoded_from(p16[15], x.15));
        assert(x.written_events() == q16);
        assert((h + joined_events(p16)).drop_first() =~= joined_events(p16));
    }
}

/// What each primitive writes decodes to that primitive.
pub proof fn lemma_primitives_decode_written()
    ensures
        decodes_written::<()>(),
        decodes_written::<bool>(),
        decodes_written::<char>(),
        decodes_written::<i8>(),
        decodes_written::<u8>(),
        decodes_written::<i16>(),
        decodes_written::<u16>(),
        decodes_written::<i32>(),
        decodes_written::<u32>(),
        decodes_written::<i64>(),
        decodes_written::<u64>(),
        decodes_written::<i128>(),
        decodes_written::<u128>(),
{
}

/// What an option writes decodes to that option, where what its value's type
/// writes decodes to that value.
pub proof fn lemma_option_decodes_written<T: SmolRead + SmolWrite>()
    requires
        decodes_written::<T>(),
    ensures
        decodes_written::<Option<T>>(),
{
    assert forall|x: Option<T>| #[trigger] <Option<T> as SmolRead>::decoded_from(x.written_events(), x) by {
        if let Some(y) = x {
            assert(x.written_events().drop_first() =~= y.written_events());
            assert(T::decoded_from(y.written_events(), y));
        }
    }
}

/// What a box writes decodes to that box, where what its value's type writes
/// decodes to that value.
pub proof fn lemma_box_decodes_written<T: SmolRead + SmolWrite>()
    requires
        decodes_written::<T>(),
    ensures
        decodes_written::<Box<T>>(),
{
    assert forall|x: Box<T>| #[trigger] <Box<T> as SmolRead>::decoded_from(x.written_events(), x) by {
        assert(T::decoded_from((*x).written_events(), *x));
    }
}

/// What values write, one after another, gives those values in order.
proof fn lemma_written_items_decode<T: SmolRead + SmolWrite>(xs: Seq<T>)
    requires
        decodes_written::<T>(),
    ensures
        items_from(all_written_events(xs), xs),
    decreases xs.len(),
{
    if xs.len() > 0 {
        lemma_written_items_decode(xs.drop_last());
        let a = all_written_events(xs.drop_last());
        let e = all_written_events(xs);
        let k = a.len() as int;
        assert(e.take(k) =~= a);
        assert(e.skip(k) =~= xs.last().written_events());
        assert(T::decoded_from(xs.last().written_events(), xs.last()));
        assert(items_from(e.take(k), xs.drop_last()) && T::decoded_from(e.skip(k), xs.last()));
    }
}

/// What a vector writes decodes to that vector, item by item in order, where
/// what its items' type writes decodes to each item.
pub proof fn lemma_vec_decodes_written<T: SmolRead + SmolWrite>()
    requires
        decodes_written::<T>(),
    ensures
        decodes_written::<Vec<T>>(),
{
    assert forall|x: Vec<T>| #[trigger] <Vec<T> as SmolRead>::decoded_from(x.written_events(), x) by {
        assert(x.len() == x@.len());
        lemma_written_items_decode(x@);
        assert(x.written_events().drop_first() =~= all_written_events(x@));
    }
}

/// What an array writes decodes to that array, item by item in order, where
/// what its items' type writes decodes to each item.
pub proof fn lemma_array_decodes_written<T: SmolRead + SmolWrite, const N: usize>()
    requires
        decodes_written::<T>(),
    ensures
        decodes_written::<[T; N]>(),
{
    assert forall|x: [T; N]| #[trigger] <[T; N] as SmolRead>::decoded_from(x.written_events(), x) by {
        assert(x@.len() == N);
        lemma_written_items_decode(x@);
        assert(x.written_events().drop_first() =~= all_written_events(x@));
    }
}

/// What a string writes decodes to that string, for a string whose UTF-8 bytes
/// are no more than `usize` counts.
pub proof fn lemma_string_decodes_written(x: String)
    requires
        encode_utf8(x@).len() <= usize::MAX,
    ensures
        <String as SmolRead>::decoded_from(x.written_events(), x),
{
    broadcast use encode_utf8_decode_utf8, vstd::utf8::encode_utf8_valid_utf8;

    let b = encode_utf8(x@);
    if b.len() == 0 {
        assert(decode_utf8(encode_utf8(x@)) == x@);
        assert(encode_utf8(x@) =~= Seq::<u8>::empty());
        assert(x@.len() == 0);
    } else if b.len() > MAX_OPT_STR_LEN {
        assert(valid_utf8(b));
        assert(decode_utf8(b) == x@);
    }
}

} // verus!
