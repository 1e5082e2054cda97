use vstd::prelude::*;

use crate::reader::{
    fresh_reader,
    lemma_next_tag_progress,
    progressed,
    ReadError,
    ReadResult,
    Reader,
    ReaderModel,
    ValueReader,
};
use crate::object::reads_through;
use crate::roundtrip::{
    event_matches,
    events_match,
    final_bytes,
    lemma_stream_roundtrip,
    read_all,
    read_step,
    write_all,
    write_step,
    WriteEvent,
};
use crate::tag::{OptionTag, StructTag, Tag, TagModel};
use crate::writer::{ValueWriter, WriteError, Writer, WriterModel};
use crate::{lemma_progress_trans, SmolRead, SmolWrite, FORMAT_VERSION};

verus! {

/// The bytes of one object, with no header, in the current format version.
/// They are not meant to be stored: they carry no header and no version. Read
/// them with [`Reader::new_headerless`] and [`FORMAT_VERSION`].
#[derive(Debug)]
pub struct RawValue(Vec<u8>);

impl View for RawValue {
    type V = Seq<u8>;

    closed spec fn view(&self) -> Seq<u8> {
        self.0@
    }
}

/// The bytes of a raw value that were to be written hold no whole object; the
/// error is the one that reading them gave.
#[derive(Debug)]
pub struct InvalidRawValueData(Box<ReadError>);

/// What the copy of an object still has to copy, innermost last.
#[derive(Debug, Clone, Copy, PartialEq, Eq, Structural)]
pub enum RawValueCopyStack {
    /// One object.
    Object,
    /// This many bytes of the contents of a string or of bytes.
    Data { len: usize },
    /// Objects: this many more, or, with no count, up to an end marker.
    Items { remaining: Option<usize> },
    /// Pairs of objects, the value of a started pair first when `value_next`:
    /// this many more pairs, or, with no count, up to an end marker.
    Pairs { value_next: bool, remaining: Option<usize> },
    /// Fields: this many more field names, each followed by its object.
    Struct { remaining: usize },
}

/// What follows the fields of a struct or variant tag.
pub open spec fn struct_announced(s: StructTag) -> Seq<RawValueCopyStack> {
    match s {
        StructTag::Unit => Seq::empty(),
        StructTag::Newtype => seq![RawValueCopyStack::Object],
        StructTag::Tuple { len } => seq![RawValueCopyStack::Items { remaining: Some(len) }],
        StructTag::Struct { len } => seq![RawValueCopyStack::Struct { remaining: len }],
    }
}

/// What a tag announces to follow it in the stream.
pub open spec fn announced(t: TagModel) -> Seq<RawValueCopyStack> {
    match t {
        TagModel::StrDirect(len) => seq![RawValueCopyStack::Data { len }],
        TagModel::Bytes(len) => seq![RawValueCopyStack::Data { len }],
        TagModel::Option(o) => if o == OptionTag::Present {
            seq![RawValueCopyStack::Object]
        } else {
            Seq::empty()
        },
        TagModel::Struct(s) => struct_announced(s),
        TagModel::Variant(_, s) => struct_announced(s),
        TagModel::Tuple(len) => seq![RawValueCopyStack::Items { remaining: Some(len) }],
        TagModel::Array(len) => seq![RawValueCopyStack::Items { remaining: len }],
        TagModel::Mapping(len) => seq![RawValueCopyStack::Pairs { value_next: false, remaining: len }],
        _ => Seq::empty(),
    }
}

/// Whether the frame `f` is done with nothing more to copy: no objects, pairs
/// or fields left of a count.
pub open spec fn frame_done(f: RawValueCopyStack) -> bool {
    match f {
        RawValueCopyStack::Items { remaining: Some(n) } => n == 0,
        RawValueCopyStack::Pairs { value_next: false, remaining: Some(n) } => n == 0,
        RawValueCopyStack::Struct { remaining: n } => n == 0,
        _ => false,
    }
}

/// The open frames once the event `e` has come, innermost last, when the
/// innermost frame is not done; `None` when it does not expect `e`. An object
/// is a tag, followed by what the tag announces; data is a run of bytes of its
/// length; counted objects, pairs or fields come in their number, uncounted
/// ones up to an end marker; a field is a field name, then an object.
pub open spec fn frames_after(frames: Seq<RawValueCopyStack>, e: WriteEvent) -> Option<
    Seq<RawValueCopyStack>,
> {
    let rest = frames.drop_last();
    match (frames.last(), e) {
        (RawValueCopyStack::Object, WriteEvent::Tag(t)) => Some(rest + announced(t)),
        (RawValueCopyStack::Data { len }, WriteEvent::Raw(b)) => if b.len() == len {
            Some(rest)
        } else {
            None
        },
        (RawValueCopyStack::Items { remaining: Some(n) }, WriteEvent::Tag(t)) => Some(
            rest.push(RawValueCopyStack::Items { remaining: Some((n - 1) as usize) }) + announced(
                t,
            ),
        ),
        (RawValueCopyStack::Items { remaining: None }, WriteEvent::End) => Some(rest),
        (RawValueCopyStack::Items { remaining: None }, WriteEvent::Tag(t)) => Some(
            frames + announced(t),
        ),
        (RawValueCopyStack::Pairs { value_next: true, remaining }, WriteEvent::Tag(t)) => Some(
            rest.push(RawValueCopyStack::Pairs { value_next: false, remaining }) + announced(t),
        ),
        (
            RawValueCopyStack::Pairs { value_next: false, remaining: Some(n) },
            WriteEvent::Tag(t),
        ) => Some(
            rest.push(
                RawValueCopyStack::Pairs { value_next: true, remaining: Some((n - 1) as usize) },
            ) + announced(t),
        ),
        (RawValueCopyStack::Pairs { value_next: false, remaining: None }, WriteEvent::End) => Some(
            rest,
        ),
        (RawValueCopyStack::Pairs { value_next: false, remaining: None }, WriteEvent::Tag(t)) => Some(
            rest.push(RawValueCopyStack::Pairs { value_next: true, remaining: None }) + announced(
                t,
            ),
        ),
        (RawValueCopyStack::Struct { remaining: n }, WriteEvent::Str(_)) => Some(
            rest.push(RawValueCopyStack::Struct { remaining: (n - 1) as usize }).push(
                RawValueCopyStack::Object,
            ),
        ),
        _ => None,
    }
}

/// `es` is exactly what the open frames `frames` still expect, the innermost
/// frame last: a frame that is done ends, else its next event comes.
pub open spec fn expects(frames: Seq<RawValueCopyStack>, es: Seq<WriteEvent>) -> bool
    decreases es.len(), frames.len(),
{
    if frames.len() == 0 {
        es.len() == 0
    } else if frame_done(frames.last()) {
        expects(frames.drop_last(), es)
    } else {
        es.len() > 0 && match frames_after(frames, es[0]) {
            Some(f) => expects(f, es.drop_first()),
            None => false,
        }
    }
}

/// `es` is exactly one object.
pub open spec fn one_object(es: Seq<WriteEvent>) -> bool {
    expects(seq![RawValueCopyStack::Object], es)
}

/// The writer after the step `e`, made with the writer's own operations.
pub open spec fn write_event(w: WriterModel, e: WriteEvent) -> Option<WriterModel> {
    match e {
        WriteEvent::Tag(t) => w.write_tag(t),
        WriteEvent::Str(s) => w.write_str(s),
        WriteEvent::End => Some(w.write_seq_end()),
        WriteEvent::Raw(b) => Some(w.write_raw(b)),
    }
}

/// The writer after the steps `es`, in order, made with the writer's own
/// operations; `None` when one fails.
pub open spec fn write_events(w: WriterModel, es: Seq<WriteEvent>) -> Option<WriterModel>
    decreases es.len(),
{
    if es.len() == 0 {
        Some(w)
    } else {
        match write_event(w, es[0]) {
            Some(w2) => write_events(w2, es.drop_first()),
            None => None,
        }
    }
}

/// Writing one event is that event's write.
pub broadcast proof fn lemma_write_one(w: WriterModel, e: WriteEvent)
    ensures
        #[trigger] write_events(w, seq![e]) == write_event(w, e),
{
    assert(seq![e].drop_first() =~= Seq::<WriteEvent>::empty());
    reveal_with_fuel(write_events, 2);
}

/// The events `es` are one object, read back as they are by a reader from `r0`
/// to `r1` and written by a writer from `w0` to `w1`.
pub open spec fn copied(
    r0: ReaderModel,
    w0: WriterModel,
    es: Seq<WriteEvent>,
    r1: ReaderModel,
    w1: WriterModel,
) -> bool {
    &&& one_object(es)
    &&& read_all(r0, es) == Some((es, r1))
    &&& write_events(w0, es) == Some(w1)
}

proof fn lemma_write_events_push(w: WriterModel, es: Seq<WriteEvent>, e: WriteEvent)
    requires
        write_events(w, es) is Some,
    ensures
        write_events(w, es.push(e)) == write_event(write_events(w, es).unwrap(), e),
    decreases es.len(),
{
    if es.len() == 0 {
        assert(es.push(e).drop_first() =~= Seq::<WriteEvent>::empty());
        assert(es.push(e)[0] == e);
        reveal_with_fuel(write_events, 2);
    } else {
        let w1 = write_event(w, es[0]).unwrap();
        assert(es.push(e).drop_first() =~= es.drop_first().push(e));
        assert(es.push(e)[0] == es[0]);
        lemma_write_events_push(w1, es.drop_first(), e);
    }
}

proof fn lemma_read_all_push(r: ReaderModel, es: Seq<WriteEvent>, e: WriteEvent)
    requires
        read_all(r, es) is Some,
        read_step(read_all(r, es).unwrap().1, e) is Some,
    ensures
        ({
            let (rs, r1) = read_all(r, es).unwrap();
            let (e2, r2) = read_step(r1, e).unwrap();
            read_all(r, es.push(e)) == Some((rs.push(e2), r2))
        }),
    decreases es.len(),
{
    if es.len() == 0 {
        assert(es.push(e).drop_first() =~= Seq::<WriteEvent>::empty());
        assert(es.push(e)[0] == e);
        reveal_with_fuel(read_all, 2);
        let (e2, r2) = read_step(r, e).unwrap();
        assert(seq![e2] + Seq::<WriteEvent>::empty() =~= Seq::<WriteEvent>::empty().push(e2));
    } else {
        let (e1, r1) = read_step(r, es[0]).unwrap();
        assert(es.push(e).drop_first() =~= es.drop_first().push(e));
        assert(es.push(e)[0] == es[0]);
        lemma_read_all_push(r1, es.drop_first(), e);
        let (rest, _) = read_all(r1, es.drop_first()).unwrap();
        let (e2, _) = read_step(read_all(r, es).unwrap().1, e).unwrap();
        assert(seq![e1] + rest.push(e2) =~= (seq![e1] + rest).push(e2));
    }
}

/// One more event copied: the reader read it as it is, the writer wrote it, and
/// what the new frames expect completes the object.
proof fn lemma_copy_step(
    r0: ReaderModel,
    w0: WriterModel,
    done: Seq<WriteEvent>,
    s_old: Seq<RawValueCopyStack>,
    s_new: Seq<RawValueCopyStack>,
    rd_old: ReaderModel,
    rd_new: ReaderModel,
    wr_old: WriterModel,
    wr_new: WriterModel,
    e: WriteEvent,
)
    requires
        read_all(r0, done) == Some((done, rd_old)),
        write_events(w0, done) == Some(wr_old),
        forall|c: Seq<WriteEvent>|
            #[trigger] expects(s_old, c) ==> expects(seq![RawValueCopyStack::Object], done + c),
        read_step(rd_old, e) == Some((e, rd_new)),
        write_event(wr_old, e) == Some(wr_new),
        forall|c: Seq<WriteEvent>| #[trigger] expects(s_new, c) ==> expects(s_old, seq![e] + c),
    ensures
        read_all(r0, done.push(e)) == Some((done.push(e), rd_new)),
        write_events(w0, done.push(e)) == Some(wr_new),
        forall|c: Seq<WriteEvent>|
            #[trigger] expects(s_new, c) ==> expects(
                seq![RawValueCopyStack::Object],
                done.push(e) + c,
            ),
{
    lemma_read_all_push(r0, done, e);
    lemma_write_events_push(w0, done, e);
    assert forall|c: Seq<WriteEvent>| #[trigger] expects(s_new, c) implies expects(
        seq![RawValueCopyStack::Object],
        done.push(e) + c,
    ) by {
        assert(expects(s_old, seq![e] + c));
        assert(done + (seq![e] + c) =~= done.push(e) + c);
    }
}

/// Looking for an end marker and finding a tag, then reading that tag, reads
/// the same tag as reading it at once.
pub(crate) proof fn lemma_seq_end_then_tag(r: ReaderModel)
    requires
        r.wf(),
        r.next_seq_end() matches Ok((b, _)) && !b,
    ensures
        r.next_tag() == r.next_seq_end().unwrap().1.next_tag(),
{
}

/// Pushes what tag `tag` announces to follow it.
fn push_announced(stack: &mut Vec<RawValueCopyStack>, tag: &Tag)
    ensures
        final(stack)@ == old(stack)@ + announced(tag@),
{
    let ghost s0 = stack@;
    let ty = match tag {
        Tag::StrDirect { len } => Some(RawValueCopyStack::Data { len: *len }),
        Tag::Bytes { len } => Some(RawValueCopyStack::Data { len: *len }),
        Tag::Option(OptionTag::Present) => Some(RawValueCopyStack::Object),
        Tag::Struct(s) => struct_frame(*s),
        Tag::Variant { name: _, ty } => struct_frame(*ty),
        Tag::Tuple { len } => Some(RawValueCopyStack::Items { remaining: Some(*len) }),
        Tag::Array { len } => Some(RawValueCopyStack::Items { remaining: *len }),
        Tag::Mapping { len } => Some(RawValueCopyStack::Pairs { value_next: false, remaining: *len }),
        _ => None,
    };
    match ty {
        Some(f) => {
            stack.push(f);
            assert(stack@ =~= s0 + announced(tag@));
        },
        None => {
            assert(stack@ =~= s0 + announced(tag@));
        },
    }
}

/// The frame that the fields of a struct or variant tag make, if any.
fn struct_frame(s: StructTag) -> (r: Option<RawValueCopyStack>)
    ensures
        match r {
            Some(f) => struct_announced(s) == seq![f],
            None => struct_announced(s) == Seq::<RawValueCopyStack>::empty(),
        },
{
    match s {
        StructTag::Unit => None,
        StructTag::Newtype => Some(RawValueCopyStack::Object),
        StructTag::Tuple { len } => Some(RawValueCopyStack::Items { remaining: Some(len) }),
        StructTag::Struct { len } => Some(RawValueCopyStack::Struct { remaining: len }),
    }
}

/// Reads one tag, writes it, and pushes what it announces.
fn copy_tag(reader: &mut Reader, writer: &mut Writer, stack: &mut Vec<RawValueCopyStack>) -> (r:
    ReadResult<Ghost<TagModel>>)
    ensures
        final(reader)@.wf(),
        final(reader)@.input == old(reader)@.input,
        final(reader)@.format_version == old(reader)@.format_version,
        r matches Ok(t) ==> {
            &&& old(reader)@.next_tag() == Ok::<(TagModel, ReaderModel), ReadError>(
                (t@, final(reader)@),
            )
            &&& old(writer)@.write_tag(t@) == Some(final(writer)@)
            &&& final(stack)@ == old(stack)@ + announced(t@)
        },
        r is Err ==> old(reader)@.next_tag() is Err || old(writer)@.write_tag(
            old(reader)@.next_tag().unwrap().0,
        ) is None,
{
    let tag = match reader.read_tag() {
        Ok(t) => t,
        Err(e) => {
            return Err(e);
        },
    };
    let copy = tag.clone();
    match writer.write_tag(copy) {
        Ok(()) => {},
        Err(e) => {
            return Err(Box::new(ReadError::WriteFailed(e)));
        },
    }
    push_announced(stack, &tag);
    Ok(Ghost(tag@))
}

/// What one step of a copy did: the frames `frames` became `s_new`, and the
/// reader and the writer went from `rd_old` and `wr_old` to `rd_new` and
/// `wr_new`; with an event, the innermost frame expected it, it was read as it
/// is and written; else the innermost frame was done and ended.
pub open spec fn copy_step_done(
    frames: Seq<RawValueCopyStack>,
    s_new: Seq<RawValueCopyStack>,
    rd_old: ReaderModel,
    rd_new: ReaderModel,
    wr_old: WriterModel,
    wr_new: WriterModel,
    ev: Option<WriteEvent>,
) -> bool {
    &&& frames.len() > 0
    &&& match ev {
        Some(e) => {
            &&& !frame_done(frames.last())
            &&& frames_after(frames, e) == Some(s_new)
            &&& read_step(rd_old, e) == Some((e, rd_new))
            &&& write_event(wr_old, e) == Some(wr_new)
        },
        None => {
            &&& frame_done(frames.last())
            &&& s_new == frames.drop_last()
            &&& rd_new == rd_old
            &&& wr_new == wr_old
        },
    }
}

/// The events `rest` are what the frames `frames` still expect, read as they
/// are by the reader `r`, and written without error by the writer `w`: what a
/// copy in that state is owed to succeed on.
pub open spec fn owed(
    frames: Seq<RawValueCopyStack>,
    rest: Seq<WriteEvent>,
    r: ReaderModel,
    w: WriterModel,
) -> bool {
    &&& expects(frames, rest)
    &&& read_all(r, rest) is Some
    &&& read_all(r, rest).unwrap().0 == rest
    &&& write_events(w, rest) is Some
}

/// A tag that comes next is no end marker.
pub(crate) proof fn lemma_tag_not_end(r: ReaderModel)
    requires
        r.next_tag() is Ok,
    ensures
        r.next_seq_end() matches Ok((b, _)) && !b,
{
}

/// What the owed events start with, and where reading and writing it leaves
/// reader and writer.
proof fn lemma_owed_first(
    frames: Seq<RawValueCopyStack>,
    rest: Seq<WriteEvent>,
    r: ReaderModel,
    w: WriterModel,
)
    requires
        owed(frames, rest, r, w),
        frames.len() > 0,
        !frame_done(frames.last()),
    ensures
        rest.len() > 0,
        frames_after(frames, rest[0]) is Some,
        read_step(r, rest[0]) matches Some((x, _)) && x == rest[0],
        write_event(w, rest[0]) is Some,
{
    let (x, m) = read_step(r, rest[0]).unwrap();
    let (xs, _) = read_all(m, rest.drop_first()).unwrap();
    assert((seq![x] + xs)[0] == x);
}

/// Copies what the innermost frame expects next: a tag with what it announces
/// pushed, a field name, an end marker or a run of data; or ends the frame.
/// Where `rest` is owed, it succeeds and copies the first event of `rest`.
#[verifier::rlimit(60)]
fn copy_step(
    reader: &mut Reader,
    writer: &mut Writer,
    stack: &mut Vec<RawValueCopyStack>,
    Ghost(rest): Ghost<Seq<WriteEvent>>,
) -> (r: ReadResult<Ghost<Option<WriteEvent>>>)
    requires
        old(stack)@.len() > 0,
        old(reader)@.wf(),
    ensures
        final(reader)@.wf(),
        final(reader)@.input == old(reader)@.input,
        final(reader)@.format_version == old(reader)@.format_version,
        r matches Ok(ev) ==> {
            &&& copy_step_done(
                old(stack)@,
                final(stack)@,
                old(reader)@,
                final(reader)@,
                old(writer)@,
                final(writer)@,
                ev@,
            )
            &&& progressed(old(reader)@, final(reader)@) || (final(reader)@ == old(reader)@
                && final(stack)@.len() < old(stack)@.len())
            &&& old(stack)@.last() == RawValueCopyStack::Object ==> (ev@ matches Some(
                WriteEvent::Tag(_),
            )) && progressed(old(reader)@, final(reader)@)
        },
        owed(old(stack)@, rest, old(reader)@, old(writer)@) ==> (r matches Ok(ev) && (ev@ matches Some(
            e,
        ) ==> rest.len() > 0 && e == rest[0])),
{
    let ghost s_old = stack@;
    let ghost rd_old = reader@;
    let ghost wr_old = writer@;
    let ghost is_owed = owed(s_old, rest, rd_old, wr_old);
    let top = stack.pop().unwrap();
    let ghost rest_frames = stack@;
    assert(rest_frames == s_old.drop_last() && top == s_old.last());
    proof {
        if is_owed && !frame_done(top) {
            lemma_owed_first(s_old, rest, rd_old, wr_old);
        }
    }
    match top {
        RawValueCopyStack::Object => {
            let t = match copy_tag(reader, writer, stack) {
                Ok(t) => t,
                Err(e) => {
                    return Err(e);
                },
            };
            proof {
                lemma_next_tag_progress(rd_old);
            }
            Ok(Ghost(Some(WriteEvent::Tag(t@))))
        },
        RawValueCopyStack::Data { len } => {
            let bytes = match reader.read_raw(len) {
                Ok(b) => b,
                Err(e) => {
                    return Err(e);
                },
            };
            writer.write_raw(bytes.as_slice());
            Ok(Ghost(Some(WriteEvent::Raw(bytes@))))
        },
        RawValueCopyStack::Items { remaining: Some(n) } => {
            if n == 0 {
                Ok(Ghost(None))
            } else {
                stack.push(RawValueCopyStack::Items { remaining: Some(n - 1) });
                let r = copy_tag_after(reader, writer, stack, Ghost(s_old));
                proof {
                    if r is Ok {
                        lemma_next_tag_progress(rd_old);
                    }
                }
                r
            }
        },
        RawValueCopyStack::Items { remaining: None } => {
            proof {
                if is_owed && rest[0] is Tag {
                    lemma_tag_not_end(rd_old);
                }
            }
            let ended = match reader.read_seq_end() {
                Ok(b) => b,
                Err(e) => {
                    return Err(e);
                },
            };
            if ended {
                writer.write_seq_end();
                Ok(Ghost(Some(WriteEvent::End)))
            } else {
                stack.push(RawValueCopyStack::Items { remaining: None });
                proof {
                    lemma_seq_end_then_tag(rd_old);
                    assert(stack@ =~= s_old);
                }
                let r = copy_tag_after(reader, writer, stack, Ghost(s_old));
                proof {
                    if r is Ok {
                        lemma_next_tag_progress(rd_old);
                    }
                }
                r
            }
        },
        RawValueCopyStack::Pairs { value_next: true, remaining } => {
            stack.push(RawValueCopyStack::Pairs { value_next: false, remaining });
            let r = copy_tag_after(reader, writer, stack, Ghost(s_old));
            proof {
                if r is Ok {
                    lemma_next_tag_progress(rd_old);
                }
            }
            r
        },
        RawValueCopyStack::Pairs { value_next: false, remaining: Some(n) } => {
            if n == 0 {
                Ok(Ghost(None))
            } else {
                stack.push(RawValueCopyStack::Pairs { value_next: true, remaining: Some(n - 1) });
                let r = copy_tag_after(reader, writer, stack, Ghost(s_old));
                proof {
                    if r is Ok {
                        lemma_next_tag_progress(rd_old);
                    }
                }
                r
            }
        },
        RawValueCopyStack::Pairs { value_next: false, remaining: None } => {
            proof {
                if is_owed && rest[0] is Tag {
                    lemma_tag_not_end(rd_old);
                }
            }
            let ended = match reader.read_seq_end() {
                Ok(b) => b,
                Err(e) => {
                    return Err(e);
                },
            };
            if ended {
                writer.write_seq_end();
                Ok(Ghost(Some(WriteEvent::End)))
            } else {
                stack.push(RawValueCopyStack::Pairs { value_next: true, remaining: None });
                proof {
                    lemma_seq_end_then_tag(rd_old);
                }
                let r = copy_tag_after(reader, writer, stack, Ghost(s_old));
                proof {
                    if r is Ok {
                        lemma_next_tag_progress(rd_old);
                    }
                }
                r
            }
        },
        RawValueCopyStack::Struct { remaining } => {
            if remaining == 0 {
                Ok(Ghost(None))
            } else {
                let name = match reader.read_str() {
                    Ok(s) => s,
                    Err(e) => {
                        return Err(e);
                    },
                };
                match writer.write_str(name.as_str()) {
                    Ok(()) => {},
                    Err(e) => {
                        return Err(Box::new(ReadError::WriteFailed(e)));
                    },
                }
                stack.push(RawValueCopyStack::Struct { remaining: remaining - 1 });
                stack.push(RawValueCopyStack::Object);
                proof {
                    assert(stack@ =~= rest_frames.push(
                        RawValueCopyStack::Struct { remaining: (remaining - 1) as usize },
                    ).push(RawValueCopyStack::Object));
                }
                Ok(Ghost(Some(WriteEvent::Str(name@))))
            }
        },
    }
}

/// Copies a tag once the innermost frame `frames.last()` has been replaced by
/// what remains of it; the reader may have looked for an end marker and found
/// the tag.
fn copy_tag_after(
    reader: &mut Reader,
    writer: &mut Writer,
    stack: &mut Vec<RawValueCopyStack>,
    Ghost(frames): Ghost<Seq<RawValueCopyStack>>,
) -> (r: ReadResult<Ghost<Option<WriteEvent>>>)
    requires
        old(reader)@.wf(),
        frames.len() > 0,
        !frame_done(frames.last()),
        forall|t: TagModel| #[trigger]
            frames_after(frames, WriteEvent::Tag(t)) == Some(old(stack)@ + announced(t)),
    ensures
        final(reader)@.wf(),
        final(reader)@.input == old(reader)@.input,
        final(reader)@.format_version == old(reader)@.format_version,
        r matches Ok(ev) ==> (ev@ matches Some(WriteEvent::Tag(t)) && old(reader)@.next_tag() == Ok::<
            (TagModel, ReaderModel),
            ReadError,
        >((t, final(reader)@)) && old(writer)@.write_tag(t) == Some(final(writer)@)
            && frames_after(frames, WriteEvent::Tag(t)) == Some(final(stack)@)),
        r is Err ==> old(reader)@.next_tag() is Err || old(writer)@.write_tag(
            old(reader)@.next_tag().unwrap().0,
        ) is None,
{
    let t = match copy_tag(reader, writer, stack) {
        Ok(t) => t,
        Err(e) => {
            return Err(e);
        },
    };
    Ok(Ghost(Some(WriteEvent::Tag(t@))))
}

/// A step that the frames `frames` allow keeps the owed events owed after it.
proof fn lemma_owed_step(
    frames: Seq<RawValueCopyStack>,
    s_new: Seq<RawValueCopyStack>,
    rest: Seq<WriteEvent>,
    rd_old: ReaderModel,
    rd_new: ReaderModel,
    wr_old: WriterModel,
    wr_new: WriterModel,
    ev: Option<WriteEvent>,
)
    requires
        owed(frames, rest, rd_old, wr_old),
        copy_step_done(frames, s_new, rd_old, rd_new, wr_old, wr_new, ev),
        ev matches Some(e) ==> rest.len() > 0 && e == rest[0],
    ensures
        owed(
            s_new,
            if ev is Some {
                rest.drop_first()
            } else {
                rest
            },
            rd_new,
            wr_new,
        ),
{
    match ev {
        Some(e) => {
            let (x, m) = read_step(rd_old, rest[0]).unwrap();
            let (xs, _) = read_all(m, rest.drop_first()).unwrap();
            assert((seq![x] + xs).drop_first() =~= xs);
        },
        None => {},
    }
}

/// The events that frames expect are read in one way only: two runs that the
/// same frames expect, each read as it is by one reader, are one run.
pub(crate) proof fn lemma_expects_deterministic(
    frames: Seq<RawValueCopyStack>,
    r: ReaderModel,
    a: Seq<WriteEvent>,
    ra: ReaderModel,
    b: Seq<WriteEvent>,
    rb: ReaderModel,
)
    requires
        expects(frames, a),
        expects(frames, b),
        read_all(r, a) == Some((a, ra)),
        read_all(r, b) == Some((b, rb)),
    ensures
        a == b,
        ra == rb,
    decreases a.len(), frames.len(),
{
    if frames.len() == 0 {
    } else if frame_done(frames.last()) {
        lemma_expects_deterministic(frames.drop_last(), r, a, ra, b, rb);
    } else {
        let (xa, ma) = read_step(r, a[0]).unwrap();
        let (xb, mb) = read_step(r, b[0]).unwrap();
        let (ya, _) = read_all(ma, a.drop_first()).unwrap();
        let (yb, _) = read_all(mb, b.drop_first()).unwrap();
        assert((seq![xa] + ya)[0] == xa && (seq![xa] + ya).drop_first() =~= ya);
        assert((seq![xb] + yb)[0] == xb && (seq![xb] + yb).drop_first() =~= yb);
        if a[0] is Tag && b[0] is End {
            lemma_tag_not_end(r);
        }
        if a[0] is End && b[0] is Tag {
            lemma_tag_not_end(r);
        }
        assert(a[0] == b[0]);
        assert(ma == mb);
        let f = frames_after(frames, a[0]).unwrap();
        lemma_expects_deterministic(f, ma, a.drop_first(), ra, b.drop_first(), rb);
        assert(a =~= seq![a[0]] + a.drop_first());
        assert(b =~= seq![b[0]] + b.drop_first());
    }
}

/// Copies one object from `reader` to `writer`: each tag, field name, end
/// marker and run of data read is written as it was read. It succeeds where
/// one object is there to read that the writer can write, and copies it.
fn copy_object(reader: &mut Reader, writer: &mut Writer) -> (r: ReadResult<()>)
    requires
        old(reader)@.wf(),
    ensures
        final(reader)@.wf(),
        final(reader)@.input == old(reader)@.input,
        final(reader)@.format_version == old(reader)@.format_version,
        r is Ok ==> progressed(old(reader)@, final(reader)@),
        r is Ok ==> exists|es: Seq<WriteEvent>|
            copied(old(reader)@, old(writer)@, es, final(reader)@, final(writer)@),
        forall|es: Seq<WriteEvent>|
            #![trigger read_all(old(reader)@, es), one_object(es)]
            one_object(es) && read_all(old(reader)@, es) is Some && read_all(old(reader)@, es).unwrap().0
                == es && write_events(old(writer)@, es) is Some ==> r is Ok && copied(
                old(reader)@,
                old(writer)@,
                es,
                final(reader)@,
                final(writer)@,
            ),
{
    let ghost r0 = reader@;
    let ghost w0 = writer@;
    let ghost mut done: Seq<WriteEvent> = Seq::empty();
    let ghost is_owed = exists|es: Seq<WriteEvent>|
        #[trigger] owed(seq![RawValueCopyStack::Object], es, r0, w0);
    let ghost es_f = choose|es: Seq<WriteEvent>|
        #[trigger] owed(seq![RawValueCopyStack::Object], es, r0, w0);
    let ghost mut rest = es_f;
    let mut stack: Vec<RawValueCopyStack> = Vec::new();
    stack.push(RawValueCopyStack::Object);
    proof {
        assert forall|c: Seq<WriteEvent>| #[trigger] expects(stack@, c) implies expects(
            seq![RawValueCopyStack::Object],
            done + c,
        ) by {
            assert(done + c =~= c);
            assert(stack@ =~= seq![RawValueCopyStack::Object]);
        }
        assert(stack@ =~= seq![RawValueCopyStack::Object]);
        assert(done + rest =~= es_f);
    }
    while stack.len() > 0
        invariant
            old(reader)@ == r0,
            old(writer)@ == w0,
            reader@.wf(),
            reader@.input == r0.input,
            reader@.format_version == r0.format_version,
            read_all(r0, done) == Some((done, reader@)),
            write_events(w0, done) == Some(writer@),
            forall|c: Seq<WriteEvent>|
                #[trigger] expects(stack@, c) ==> expects(
                    seq![RawValueCopyStack::Object],
                    done + c,
                ),
            done.len() == 0 ==> reader@ == r0 && stack@ == seq![RawValueCopyStack::Object],
            done.len() > 0 ==> progressed(r0, reader@),
            is_owed ==> owed(stack@, rest, reader@, writer@) && es_f == done + rest,
            is_owed == exists|es: Seq<WriteEvent>|
                #[trigger] owed(seq![RawValueCopyStack::Object], es, r0, w0),
        decreases
            usize::MAX - reader@.pos,
            reader@.repeat,
            if reader@.peeked { 1int } else { 0int },
            stack.len(),
    {
        let ghost s_old = stack@;
        let ghost rd_old = reader@;
        let ghost wr_old = writer@;
        let ev = match copy_step(&mut *reader, &mut *writer, &mut stack, Ghost(rest)) {
            Ok(ev) => ev,
            Err(e) => {
                proof {
                    assert forall|es: Seq<WriteEvent>|
                        one_object(es) && read_all(r0, es) is Some && read_all(r0, es).unwrap().0
                            == es && #[trigger] write_events(w0, es) is Some implies false by {
                        assert(owed(seq![RawValueCopyStack::Object], es, r0, w0));
                        assert(is_owed);
                        assert(owed(s_old, rest, rd_old, wr_old));
                    }
                }
                return Err(e);
            },
        };
        proof {
            if is_owed {
                lemma_owed_step(s_old, stack@, rest, rd_old, reader@, wr_old, writer@, ev@);
            }
            match ev@ {
                Some(e) => {
                    lemma_step_expects(s_old, stack@, e);
                    lemma_copy_step(r0, w0, done, s_old, stack@, rd_old, reader@, wr_old, writer@, e);
                    if done.len() > 0 && progressed(rd_old, reader@) {
                        lemma_progress_trans(r0, rd_old, reader@);
                    }
                    if is_owed {
                        assert(done.push(e) + rest.drop_first() =~= done + rest);
                        rest = rest.drop_first();
                    }
                    done = done.push(e);
                },
                None => {
                    assert forall|c: Seq<WriteEvent>| #[trigger] expects(stack@, c) implies expects(
                        seq![RawValueCopyStack::Object],
                        done + c,
                    ) by {
                        assert(expects(s_old, c));
                    }
                },
            }
        }
    }
    proof {
        assert(expects(stack@, Seq::<WriteEvent>::empty()));
        assert(done + Seq::<WriteEvent>::empty() =~= done);
        assert(copied(r0, w0, done, reader@, writer@));
        assert forall|es: Seq<WriteEvent>|
            #![trigger read_all(r0, es), one_object(es)]
            one_object(es) && read_all(r0, es) is Some && read_all(r0, es).unwrap().0 == es
                && write_events(w0, es) is Some implies copied(r0, w0, es, reader@, writer@) by {
            let r1 = read_all(r0, es).unwrap().1;
            lemma_expects_deterministic(seq![RawValueCopyStack::Object], r0, es, r1, done, reader@);
        }
    }
    Ok(())
}

/// A step that the frames allow: what the new frames expect after the event is
/// what the old frames expect with the event first.
proof fn lemma_step_expects(
    frames: Seq<RawValueCopyStack>,
    s_new: Seq<RawValueCopyStack>,
    e: WriteEvent,
)
    requires
        frames.len() > 0,
        !frame_done(frames.last()),
        frames_after(frames, e) == Some(s_new),
    ensures
        forall|c: Seq<WriteEvent>| #[trigger] expects(s_new, c) ==> expects(frames, seq![e] + c),
{
    assert forall|c: Seq<WriteEvent>| #[trigger] expects(s_new, c) implies expects(
        frames,
        seq![e] + c,
    ) by {
        assert((seq![e] + c).drop_first() =~= c);
    }
}

/// A writer with no header and nothing written.
pub open spec fn empty_writer() -> WriterModel {
    WriterModel { out: Seq::empty(), strings: Seq::empty(), last_tag: None, repeats: 0 }
}

/// The bytes of the events `es` written alone with no header; `None` when a
/// write fails.
pub open spec fn object_bytes(es: Seq<WriteEvent>) -> Option<Seq<u8>> {
    match write_events(empty_writer(), es) {
        Some(w) => Some(w.flushed().out),
        None => None,
    }
}

/// Reading the bytes `data` with no header in the current format version gives
/// the events `es` of one object as they are, and leaves the reader at `rd`.
pub open spec fn reads_object(data: Seq<u8>, es: Seq<WriteEvent>, rd: ReaderModel) -> bool {
    &&& one_object(es)
    &&& read_all(fresh_reader(data, 0, FORMAT_VERSION), es) == Some((es, rd))
}

/// `Vec::into_boxed_slice`: the same bytes, as a boxed slice.
#[verifier::external_body]
fn vec_into_boxed_slice(v: Vec<u8>) -> (r: Box<[u8]>)
    ensures
        r@ == v@,
{
    v.into_boxed_slice()
}

impl RawValue {
    /// The bytes of the object. They carry no header or version: read them
    /// with [`Reader::new_headerless`] and [`FORMAT_VERSION`].
    pub fn bytes(&self) -> (r: &[u8])
        ensures
            r@ == self@,
    {
        self.0.as_slice()
    }

    /// The bytes of the object, with no header or version.
    pub fn into_bytes(self) -> (r: Box<[u8]>)
        ensures
            r@ == self@,
    {
        vec_into_boxed_slice(self.0)
    }

    /// A raw value holding `data`, taken as the bytes of one object with no
    /// header in the current format version. Bytes that are not are refused
    /// when the value is written.
    pub fn from_bytes(data: Box<[u8]>) -> (r: Self)
        ensures
            r@ == data@,
    {
        RawValue(data.into_vec())
    }

    /// A raw value holding the bytes `v`.
    pub(crate) fn from_vec(v: Vec<u8>) -> (r: Self)
        ensures
            r@ == v@,
    {
        RawValue(v)
    }

    /// The bytes that `obj` writes as an object, with no header.
    pub fn write_object<T: SmolWrite>(obj: &T) -> (r: Result<Self, WriteError>)
        ensures
            r matches Ok(v) ==> object_bytes(obj.written_events()) == Some(v@),
    {
        let mut writer = Writer::new_headerless();
        match obj.write(writer.write()) {
            Ok(()) => Ok(RawValue(writer.finish())),
            Err(e) => Err(e),
        }
    }

    /// Reads a `T` from the bytes.
    pub fn read_object<T: SmolRead>(&self) -> (r: ReadResult<T>)
        ensures
            r matches Ok(v) ==> exists|es: Seq<WriteEvent>|
                #![trigger reads_through(fresh_reader(self@, 0, FORMAT_VERSION), es)]
                T::decoded_from(es, v) && es.len() > 0 && es[0] is Tag && reads_through(
                    fresh_reader(self@, 0, FORMAT_VERSION),
                    es,
                ),
            forall|es: Seq<WriteEvent>|
                #[trigger] T::read_owed(es) && reads_through(fresh_reader(self@, 0, FORMAT_VERSION), es)
                    ==> r is Ok,
    {
        let mut reader = Reader::new_headerless(self.0.as_slice(), FORMAT_VERSION);
        let ghost r0 = reader@;
        let obj = T::read(reader.read());
        proof {
            if obj is Ok {
                let es = choose|es: Seq<WriteEvent>|
                    #![trigger read_all(r0, es)]
                    T::decoded_from(es, obj->Ok_0) && es.len() > 0 && es[0] is Tag && read_all(r0, es)
                        == Some((es, reader@));
                assert(reads_through(r0, es));
            }
        }
        let _ = reader.finish();
        obj
    }
}

impl SmolRead for RawValue {
    open spec fn decoded_from(es: Seq<WriteEvent>, v: Self) -> bool {
        one_object(es) && object_bytes(es) == Some(v@)
    }

    /// Copies the next object of the stream: its bytes are those of the events
    /// read, written alone with no header.
    fn read(main_reader: ValueReader) -> (r: ReadResult<Self>)
        ensures
            (*final(main_reader.reader))@.wf(),
            r is Err ==> (*old(main_reader.reader))@.failed_to((*final(main_reader.reader))@),
            r matches Ok(v) ==> exists|es: Seq<WriteEvent>|
                {
                    &&& one_object(es)
                    &&& read_all((*old(main_reader.reader))@, es) == Some(
                        (es, (*final(main_reader.reader))@),
                    )
                    &&& object_bytes(es) == Some(v@)
                },
            (exists|es: Seq<WriteEvent>|
                {
                    &&& #[trigger] one_object(es)
                    &&& read_all((*old(main_reader.reader))@, es) is Some
                    &&& read_all((*old(main_reader.reader))@, es).unwrap().0 == es
                    &&& object_bytes(es) is Some
                }) ==> r is Ok,
    {
        main_reader.reader.well_formed();
        let ghost r0 = (*main_reader.reader)@;
        let mut writer = Writer::new_headerless();
        let ghost w0 = writer@;
        assert(w0 == empty_writer());
        match copy_object(main_reader.reader, &mut writer) {
            Ok(()) => {},
            Err(e) => {
                proof {
                    assert forall|es: Seq<WriteEvent>|
                        #[trigger] one_object(es) && read_all(r0, es) is Some && read_all(
                            r0,
                            es,
                        ).unwrap().0 == es && object_bytes(es) is Some implies false by {
                        assert(write_events(w0, es) is Some);
                    }
                }
                return Err(e);
            },
        }
        let ghost w1 = writer@;
        let out = writer.finish();
        assert(w0 == empty_writer());
        assert(forall|es: Seq<WriteEvent>|
            #[trigger] write_events(w0, es) == Some(w1) ==> object_bytes(es) == Some(out@));
        Ok(RawValue(out))
    }
}

/// The events of the object that the bytes `data` hold, read as they are up
/// to the end of the bytes.
pub open spec fn held_events(data: Seq<u8>) -> Seq<WriteEvent> {
    (choose|es: Seq<WriteEvent>, rd: ReaderModel|
        #[trigger] reads_object(data, es, rd) && rd.pos == data.len()).0
}

impl SmolWrite for RawValue {
    open spec fn written_events(&self) -> Seq<WriteEvent> {
        held_events(self@)
    }

    /// Writes the object that the bytes hold, as read from them; the bytes
    /// must hold one whole object and nothing after it.
    fn write(&self, main_writer: ValueWriter) -> (r: Result<(), WriteError>)
        ensures
            r is Ok ==> exists|es: Seq<WriteEvent>, rd: ReaderModel|
                {
                    &&& reads_object(self@, es, rd)
                    &&& rd.pos == self@.len()
                    &&& write_events((*old(main_writer.writer))@, es) == Some(
                        (*final(main_writer.writer))@,
                    )
                },
            r matches Err(WriteError::RawValueTrailingData) ==> exists|
                es: Seq<WriteEvent>,
                rd: ReaderModel,
            | #[trigger] reads_object(self@, es, rd) && rd.pos < self@.len(),
            forall|es: Seq<WriteEvent>, rd: ReaderModel|
                #[trigger] reads_object(self@, es, rd) && write_events(
                    (*old(main_writer.writer))@,
                    es,
                ) is Some ==> if rd.pos == self@.len() {
                    r is Ok
                } else {
                    r matches Err(WriteError::RawValueTrailingData)
                },
    {
        let mut reader = Reader::new_headerless(self.0.as_slice(), FORMAT_VERSION);
        reader.well_formed();
        let ghost r0 = reader@;
        let ghost w0 = (*main_writer.writer)@;
        match copy_object(&mut reader, main_writer.writer) {
            Ok(()) => {},
            Err(e) => {
                proof {
                    assert forall|es: Seq<WriteEvent>, rd: ReaderModel|
                        #[trigger] reads_object(self@, es, rd) && write_events(w0, es) is Some
                        implies false by {
                        assert(read_all(r0, es) == Some((es, rd)));
                        assert(one_object(es));
                    }
                }
                let err = match *e {
                    ReadError::WriteFailed(WriteError::StringTableFull) => WriteError::StringTableFull,
                    other => WriteError::InvalidRawValueData(InvalidRawValueData(Box::new(other))),
                };
                return Err(err);
            },
        }
        let ghost r1 = reader@;
        let ghost w1 = (*main_writer.writer)@;
        let ghost es = choose|es: Seq<WriteEvent>| copied(r0, w0, es, r1, w1);
        assert(reads_object(self@, es, r1));
        proof {
            assert forall|es2: Seq<WriteEvent>, rd: ReaderModel|
                #[trigger] reads_object(self@, es2, rd) && write_events(w0, es2) is Some
                implies rd == r1 by {
                assert(read_all(r0, es2) == Some((es2, rd)));
                assert(one_object(es2));
                assert(copied(r0, w0, es2, r1, w1));
            }
        }
        let end = reader.finish();
        if end != self.0.len() {
            return Err(WriteError::RawValueTrailingData);
        }
        proof {
            assert(reads_object(self@, es, r1) && r1.pos == self@.len());
            let (es2, rd2) = choose|es: Seq<WriteEvent>, rd: ReaderModel|
                #[trigger] reads_object(self@, es, rd) && rd.pos == self@.len();
            lemma_expects_deterministic(seq![RawValueCopyStack::Object], r0, es, r1, es2, rd2);
        }
        Ok(())
    }
}

/// Tags equal as the writer compares them announce the same, so an event and
/// one that matches it leave the same frames.
proof fn lemma_frames_after_matching(frames: Seq<RawValueCopyStack>, e: WriteEvent, e2: WriteEvent)
    requires
        event_matches(e, e2),
    ensures
        frames_after(frames, e) == frames_after(frames, e2),
{
}

/// Events that match the events of what frames expect are expected too.
proof fn lemma_expects_matching(
    frames: Seq<RawValueCopyStack>,
    es: Seq<WriteEvent>,
    es2: Seq<WriteEvent>,
)
    requires
        expects(frames, es),
        events_match(es, es2),
    ensures
        expects(frames, es2),
    decreases es.len(), frames.len(),
{
    if frames.len() == 0 {
    } else if frame_done(frames.last()) {
        lemma_expects_matching(frames.drop_last(), es, es2);
    } else {
        assert(event_matches(es[0], es2[0]));
        lemma_frames_after_matching(frames, es[0], es2[0]);
        let f = frames_after(frames, es[0]).unwrap();
        assert forall|i: int| 0 <= i < es.drop_first().len() implies event_matches(
            es.drop_first()[i],
            #[trigger] es2.drop_first()[i],
        ) by {
            assert(es2.drop_first()[i] == es2[i + 1]);
        }
        lemma_expects_matching(f, es.drop_first(), es2.drop_first());
    }
}

/// Reading goes by the kind of each event and the length of raw bytes, so
/// matching events are read alike.
proof fn lemma_read_all_matching(r: ReaderModel, es: Seq<WriteEvent>, es2: Seq<WriteEvent>)
    requires
        events_match(es, es2),
    ensures
        read_all(r, es) == read_all(r, es2),
    decreases es.len(),
{
    if es.len() > 0 {
        assert(event_matches(es[0], es2[0]));
        assert(read_step(r, es[0]) == read_step(r, es2[0]));
        assert forall|i: int| 0 <= i < es.drop_first().len() implies event_matches(
            es.drop_first()[i],
            #[trigger] es2.drop_first()[i],
        ) by {
            assert(es2.drop_first()[i] == es2[i + 1]);
        }
        match read_step(r, es[0]) {
            Some((_, r2)) => {
                lemma_read_all_matching(r2, es.drop_first(), es2.drop_first());
            },
            None => {},
        }
    }
}

/// Writing a stream step by step is the writer's own operations, one after
/// another.
pub(crate) proof fn lemma_write_all_is_write_events(w: WriterModel, es: Seq<WriteEvent>)
    ensures
        write_events(w, es) == write_all(w, es),
    decreases es.len(),
{
    if es.len() > 0 {
        if let Some(w2) = write_step(w, es[0]) {
            lemma_write_all_is_write_events(w2, es.drop_first());
        }
    }
}

/// The bytes of an object written alone read back as that object: for the
/// events `es` of one object, where every write succeeds, a reader of the bytes with no
/// header in the current format version reads one object back, its events equal
/// to `es` as the writer compares tags, and ends at the end of the bytes.
pub proof fn lemma_raw_value_reads_back(es: Seq<WriteEvent>)
    requires
        one_object(es),
        write_all(empty_writer(), es) is Some,
        final_bytes(empty_writer(), es).len() <= usize::MAX,
    ensures
        object_bytes(es) == Some(final_bytes(empty_writer(), es)),
        ({
            let data = final_bytes(empty_writer(), es);
            read_all(fresh_reader(data, 0, FORMAT_VERSION), es) matches Some((es2, rd))
                && events_match(es, es2) && reads_object(data, es2, rd) && rd.pos == data.len()
        }),
{
    let w = empty_writer();
    lemma_write_all_is_write_events(w, es);
    lemma_stream_roundtrip(Seq::empty(), es, FORMAT_VERSION);
    assert(w == (WriterModel { out: Seq::empty(), strings: Seq::empty(), last_tag: None, repeats: 0 }));
    let data = final_bytes(w, es);
    let r0 = fresh_reader(data, 0, FORMAT_VERSION);
    let (es2, rd) = read_all(r0, es).unwrap();
    lemma_expects_matching(seq![RawValueCopyStack::Object], es, es2);
    lemma_read_all_matching(r0, es, es2);
}

} // verus!
