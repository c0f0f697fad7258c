//! What holds of an encoder and a decoder whatever they are given.

use vstd::prelude::*;

use crate::decoder::model::{lemma_next_item, lemma_step_measure, DecoderView, State, StepView};
use crate::decoder::read::{lemma_advanced, InputView};
use crate::encoder::model::{
    filename_item, metadata_items, payload_ref_item, EncodeError, EncoderView,
};
use crate::encoder::write::{header_of, wire_of, ItemView};
use crate::entry::{EntryView, KindView};
use crate::errors::Error;
use crate::format::wire::Wire;
use crate::format::{HEADER_SIZE, PXAR_PAYLOAD};
use crate::laws::tree::{lemma_put, lemma_settled, lemma_started};
use crate::metadata::MetadataView;
use crate::path::joined;
use crate::util::filename_error;

verus! {

/// With a separate payload stream, the archive holds a reference to the contents of a file: they
/// stand right after the payload header at the referenced position. Both positions move on by what
/// was written.
pub proof fn law_payload_reference(
    e: EncoderView,
    metadata: MetadataView,
    name: Seq<u8>,
    contents: Seq<u8>,
)
    requires
        e.payload is Some,
        e.states.len() > 0,
        contents.len() <= u64::MAX,
        e.add_file(metadata, name, contents.len() as u64, contents) is Ok,
    ensures
        ({
            let f = e.add_file(metadata, name, contents.len() as u64, contents)->Ok_0;
            let at = e.last().payload_write_position;
            let entry = filename_item(name).wire() + (wire_of(metadata_items(metadata))
                + payload_ref_item(at, contents.len() as u64).wire());
            let payload = header_of(PXAR_PAYLOAD, contents.len()).wire() + contents;
            &&& f.archive == e.archive + entry
            &&& f.last().write_position == e.last().write_position + entry.len()
            &&& f.payload == Some(e.payload->0 + payload)
            &&& f.last().payload_write_position == at + payload.len()
            &&& payload.len() == HEADER_SIZE + contents.len()
        }),
{
    lemma_settled(e);
    let s = e.settled();
    let size = contents.len() as u64;
    let at = e.last().payload_write_position;
    assert(s.last().payload_write_position == at);
    lemma_started(s, Some(metadata), name);
    let d = s.start_file(Some(metadata), name)->Ok_0;
    assert(d.last().payload_write_position == at);
    let header = header_of(PXAR_PAYLOAD, size as nat);
    header.lemma_wire_round_trip();
    let c = d.payload_cursor().put(header.wire())->Ok_0;
    let p = d.at_payload(c);
    let item = payload_ref_item(at, size);
    lemma_put(p, item);
    let o = e.create_file(metadata, name, size)->Ok_0;
    let f = o.with_contents(contents);
    assert(f.archive =~= e.archive + (filename_item(name).wire() + (wire_of(
        metadata_items(metadata),
    ) + item.wire())));
    assert(f.payload->0 =~= e.payload->0 + (header.wire() + contents));
}

/// It makes no difference in how many parts the contents of a file are written.
pub proof fn law_contents_in_parts(
    e: EncoderView,
    metadata: MetadataView,
    name: Seq<u8>,
    size: u64,
    a: Seq<u8>,
    b: Seq<u8>,
)
    requires
        e.create_file(metadata, name, size) is Ok,
        a.len() + b.len() <= size,
    ensures
        e.add_file(metadata, name, size, a + b) == Ok::<_, Error>(
            e.create_file(metadata, name, size)->Ok_0.with_contents(a).with_contents(b),
        ),
{
    let d = e.create_file(metadata, name, size)->Ok_0;
    assert(d.open->0.remaining_size == size);
    assert(d.contents_position() + size <= u64::MAX);
    assert(d.archive + a + b =~= d.archive + (a + b));
    if let Some(p) = d.payload {
        assert(p + a + b =~= p + (a + b));
    }
    assert(d.with_contents(a).with_contents(b) =~= d.with_contents(a + b));
}

/// Once a file has been left incomplete, nothing can be added to its directory any more, and the
/// error is passed on when the directory is finished, so that the archive cannot be finished
/// without it.
pub proof fn law_incomplete_file(
    e: EncoderView,
    metadata: MetadataView,
    name: Seq<u8>,
    size: u64,
    item: Option<ItemView>,
)
    requires
        e.open matches Some(file) && file.remaining_size != 0,
        e.states.len() > 0,
        e.last().encode_error is None,
        !e.finished,
    ensures
        e.create_file(metadata, name, size) == Err::<EncoderView, Error>(Error::IncompleteFile),
        e.add_entry(Some(metadata), name, item) == Err::<EncoderView, Error>(
            Error::IncompleteFile,
        ),
        e.add_entry(None, name, item) == Err::<EncoderView, Error>(Error::IncompleteFile),
        e.create_directory(name, metadata) == Err::<EncoderView, Error>(Error::IncompleteFile),
        match e.finish() {
            Ok(f) => f.last().encode_error is Some && f.states.len() == e.states.len() - 1 > 0,
            Err(_) => true,
        },
{
    let s = e.settled();
    assert(s.last().encode_error == Some(EncodeError::IncompleteFile));
}

/// What has been read of the contents of a file makes no difference to what a decoder reports next,
/// nor to where it then stands in its input, be it that the archive is refused.
pub proof fn law_reading_contents(d: DecoderView, offset: u64, n: nat)
    requires
        d.state == (State::InPayload { offset }),
        offset + n <= d.content_size() <= u64::MAX,
        n <= d.input.unread.len(),
    ensures
        (DecoderView {
            input: d.input.advanced(n),
            state: State::InPayload { offset: (offset + n) as u64 },
            ..d
        }).next() == d.next(),
        (DecoderView {
            input: d.input.advanced(n),
            state: State::InPayload { offset: (offset + n) as u64 },
            ..d
        }).refused().input == d.refused().input,
{
    let later = DecoderView {
        input: d.input.advanced(n),
        state: State::InPayload { offset: (offset + n) as u64 },
        ..d
    };
    if d.content_size() - offset <= d.input.unread.len() {
        lemma_advanced(d.input, n, (d.content_size() - offset - n) as nat);
    }
    assert(later.step() == d.step());
    if !(d.step() matches Ok((_, StepView::Continue))) {
        lemma_passed(d.input, n, (d.content_size() - offset) as nat);
        if let Ok(after) = d.skip_content(offset) {
            lemma_next_boundary_refused(
                after,
                DecoderView {
                    state: State::InPayload { offset: (offset + n) as u64 },
                    ..after
                },
            );
        }
    }
}

/// To go on from some bytes further on leads to the same place.
proof fn lemma_passed(i: InputView, n: nat, m: nat)
    requires
        n <= m,
        n <= i.unread.len(),
    ensures
        i.advanced(n).passed((m - n) as nat) == i.passed(m),
{
    if m < i.unread.len() {
        lemma_advanced(i, n, (m - n) as nat);
    } else {
        lemma_advanced(i, n, (i.unread.len() - n) as nat);
    }
}

/// In a payload it makes no difference to the place of a refusal how much of it has been read.
proof fn lemma_next_boundary_refused(a: DecoderView, b: DecoderView)
    requires
        a.state is InPayload,
        b.state is InPayload,
        b == (DecoderView { state: b.state, ..a }),
    ensures
        a.next_boundary_refused().input == b.next_boundary_refused().input,
{
}

/// The name of a reported entry is a single path component other than `.` and `..`, in some
/// directory. Only the path of the first entry is given from outside, and a goodbye table has
/// none.
pub proof fn law_names(d: DecoderView)
    ensures
        d.next() matches Ok((_, Some(entry))) ==> {
            ||| d.state is Begin && entry.path == d.entry.path
            ||| entry.kind is GoodbyeTable && entry.path == Seq::<u8>::empty()
            ||| exists|dir: Seq<u8>, name: Seq<u8>|
                filename_error(name) is None && entry.path == #[trigger] joined(dir, name)
        },
    decreases d.measure(),
{
    lemma_step_measure(d);
    lemma_step_names(d);
    if let Ok((e, StepView::Continue)) = d.step() {
        law_names(e);
    }
}

proof fn lemma_step_names(d: DecoderView)
    ensures
        d.step() matches Ok((_, StepView::Report(Some(entry)))) ==> {
            ||| d.state is Begin && entry.path == d.entry.path
            ||| entry.kind is GoodbyeTable && entry.path == Seq::<u8>::empty()
            ||| exists|dir: Seq<u8>, name: Seq<u8>|
                filename_error(name) is None && entry.path == #[trigger] joined(dir, name)
        },
        d.step() matches Ok((e, StepView::Continue)) ==> !(e.state is Begin),
{
    match d.state {
        State::Begin => {
            lemma_entry_path(d);
        },
        State::Default => {
            if let Ok((e, _)) = d.next_item() {
                lemma_boundary_names(e);
            }
        },
        State::InPayload { offset } => {
            if let Ok(s) = d.skip_content(offset) {
                if let Ok((e, _)) = s.next_item() {
                    lemma_boundary_names(e);
                }
            }
        },
        State::InSpecialFile | State::InDirectory => {
            lemma_boundary_names(d.started());
        },
        _ => {},
    }
}

proof fn lemma_boundary_names(d: DecoderView)
    ensures
        d.at_boundary() matches Ok((_, StepView::Report(Some(entry)))) ==> {
            ||| entry.kind is GoodbyeTable && entry.path == Seq::<u8>::empty()
            ||| exists|dir: Seq<u8>, name: Seq<u8>|
                filename_error(name) is None && entry.path == #[trigger] joined(dir, name)
        },
        d.at_boundary() matches Ok((e, StepView::Continue)) ==> !(e.state is Begin),
{
    if let Ok((data, c)) = d.take_content() {
        let name = data.drop_last();
        let path = c.path_in_directory(name);
        lemma_entry_path(DecoderView { entry: EntryView { path, ..c.entry }, ..c });
    }
}

/// An entry is reported under the path that was put together before.
proof fn lemma_entry_path(d: DecoderView)
    ensures
        d.next_entry() matches Ok((_, entry)) ==> entry.path == d.entry.path,
{
    if let Ok(Some(h)) = d.restarted().next_header_or_eof() {
        if let Ok(s) = h.stat_item(h.header.htype) {
            lemma_rest_path(s);
        }
    }
}

proof fn lemma_rest_path(d: DecoderView)
    ensures
        d.rest_of_entry() matches Ok(e) ==> e.entry.path == d.entry.path,
    decreases d.input.unread.len(),
{
    lemma_next_item(d);
    if let Ok(Some((e, _))) = d.next_item_or_eof() {
        lemma_rest_path(e);
    }
}

} // verus!
