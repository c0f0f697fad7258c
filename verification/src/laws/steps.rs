//! What an encoder keeps from one call to the next: where it stands in its outputs.

use vstd::prelude::*;

use crate::encoder::model::{
    filename_item, metadata_items, new_encoder, payload_ref_item, preamble_items, EncoderView,
    StateView,
};
use crate::encoder::write::{
    header_of, lemma_put_items, lemma_starts_with, starts_with, wire_of, Cursor, ItemView,
};
use crate::errors::Error;
use crate::format::goodbye::filename_hash;
use crate::format::wire::{le64, lemma_le64_len, Wire};
use crate::format::{Device, FormatVersion, GoodbyeItem, PXAR_PAYLOAD, PXAR_PAYLOAD_START_MARKER};
use crate::laws::layout::{
    item_bytes, law_entry_items, law_metadata, law_preamble, metadata_bytes, optional_bytes,
};
use crate::laws::outcomes::law_payload_reference;
use crate::laws::tables::listed;
use crate::laws::tree::{lemma_put, lemma_started};
use crate::metadata::MetadataView;

verus! {

/// A call that an encoder is given.
pub enum Step {
    /// Add a file whose contents are still to be written.
    Create { metadata: MetadataView, name: Seq<u8>, size: u64 },
    /// Write some of the contents of the file that was added last.
    Write { data: Seq<u8> },
    /// Add something that has no contents.
    Entry { attributes: Option<MetadataView>, name: Seq<u8>, item: Option<ItemView> },
    /// Add a reference to contents in the payload stream.
    Reference { metadata: MetadataView, name: Seq<u8>, size: u64, offset: u64 },
    /// Move on in the payload stream.
    Advance { size: u64 },
    /// Enter a new directory.
    Enter { name: Seq<u8>, metadata: MetadataView },
    /// Finish the innermost directory.
    Finish,
}

impl Step {
    /// What comes of this call.
    pub open spec fn apply(self, e: EncoderView) -> Result<EncoderView, Error> {
        match self {
            Step::Create { metadata, name, size } => e.create_file(metadata, name, size),
            Step::Write { data } => if e.open is None {
                Err(Error::FileOverrun)
            } else {
                match e.contents_refusal(data) {
                    Some(error) => Err(error),
                    None => Ok(e.with_contents(data)),
                }
            },
            Step::Entry { attributes, name, item } => e.add_entry(attributes, name, item),
            Step::Reference { metadata, name, size, offset } => e.add_payload_ref(
                metadata,
                name,
                size,
                offset,
            ),
            Step::Advance { size } => e.advance(size),
            Step::Enter { name, metadata } => e.create_directory(name, metadata),
            Step::Finish => e.finish(),
        }
    }

    /// The number of bytes of the payload stream that this call passes over.
    pub open spec fn passes_over(self) -> int {
        match self {
            Step::Advance { size } => size as int,
            _ => 0,
        }
    }
}

/// What comes of some calls one after the other.
pub open spec fn run(e: EncoderView, steps: Seq<Step>) -> Result<EncoderView, Error>
    decreases steps.len(),
{
    if steps.len() == 0 {
        Ok(e)
    } else {
        match run(e, steps.drop_last()) {
            Ok(f) => steps.last().apply(f),
            Err(error) => Err(error),
        }
    }
}

/// The number of bytes of the payload stream that some calls pass over.
pub open spec fn passed_over(steps: Seq<Step>) -> int
    decreases steps.len(),
{
    if steps.len() == 0 {
        0
    } else {
        passed_over(steps.drop_last()) + steps.last().passes_over()
    }
}

/// An encoder whose innermost directory knows where its outputs stand. The archive output held
/// `archive_start` bytes before the encoder was made and the payload output `payload_start`, and
/// `skipped` bytes of the payload stream have been passed over.
pub open spec fn counted(
    e: EncoderView,
    archive_start: int,
    payload_start: int,
    skipped: int,
) -> bool {
    &&& e.states.len() > 0
    &&& e.last().write_position == e.archive.len() - archive_start
    &&& e.last().payload_write_position == match e.payload {
        Some(payload) => payload.len() - payload_start + skipped,
        None => skipped,
    }
}

/// The outputs of `f` are those of `e`, or go on from there.
pub open spec fn goes_on(e: EncoderView, f: EncoderView) -> bool {
    &&& starts_with(f.archive, e.archive)
    &&& match (e.payload, f.payload) {
        (Some(p), Some(q)) => starts_with(q, p),
        (None, None) => true,
        _ => false,
    }
}

/// Nothing but the archive has grown, and the position in it with it.
spec fn archive_grown(e: EncoderView, f: EncoderView) -> bool {
    &&& f.states.len() == e.states.len()
    &&& starts_with(f.archive, e.archive)
    &&& f.payload == e.payload
    &&& e.states.len() > 0 ==> {
        &&& f.last().write_position - e.last().write_position == f.archive.len() - e.archive.len()
        &&& f.last().payload_write_position == e.last().payload_write_position
    }
}

proof fn lemma_grown_item(e: EncoderView, item: ItemView)
    ensures
        e.put_item(item) matches Ok(f) ==> archive_grown(e, f),
{
    if let Ok(f) = e.put_item(item) {
        let header = header_of(item.htype, item.content.len()).wire();
        assert(f.archive =~= e.archive + header + item.content);
        assert(f.archive.take(e.archive.len() as int) =~= e.archive);
    }
}

proof fn lemma_grown_items(e: EncoderView, items: Seq<ItemView>)
    ensures
        e.put_items(items) matches Ok(f) ==> archive_grown(e, f),
{
    if let Ok(f) = e.put_items(items) {
        lemma_put_items(e.cursor(), items);
        assert(f.archive.take(e.archive.len() as int) =~= e.archive);
    }
}

proof fn lemma_grown_twice(a: EncoderView, b: EncoderView, c: EncoderView)
    requires
        archive_grown(a, b),
        archive_grown(b, c),
    ensures
        archive_grown(a, c),
{
    assert(c.archive.take(a.archive.len() as int) =~= b.archive.take(a.archive.len() as int));
}

proof fn lemma_grown_start(e: EncoderView, metadata: Option<MetadataView>, name: Seq<u8>)
    ensures
        e.start_file(metadata, name) matches Ok(f) ==> archive_grown(e, f),
{
    lemma_grown_item(e, filename_item(name));
    if let Ok(d) = e.put_filename(name) {
        if let Some(m) = metadata {
            lemma_grown_items(d, metadata_items(m));
            if let Ok(f) = d.put_items(metadata_items(m)) {
                lemma_grown_twice(e, d, f);
            }
        }
    }
}

proof fn lemma_grown_settled(e: EncoderView)
    requires
        e.open is Some ==> e.states.len() > 0,
    ensures
        archive_grown(e, e.settled()),
        e.settled().version == e.version,
{
    assert(e.archive.take(e.archive.len() as int) =~= e.archive);
}

proof fn lemma_grown_entry(
    e: EncoderView,
    metadata: Option<MetadataView>,
    name: Seq<u8>,
    item: Option<ItemView>,
)
    requires
        e.states.len() > 0,
    ensures
        e.add_entry(metadata, name, item) matches Ok(f) ==> archive_grown(e, f),
{
    let s = e.settled();
    lemma_grown_settled(e);
    if let Ok(f) = e.add_entry(metadata, name, item) {
        lemma_grown_start(s, metadata, name);
        let d = s.start_file(metadata, name)->Ok_0;
        lemma_grown_twice(e, s, d);
        if let Some(i) = item {
            lemma_grown_item(d, i);
            let g = d.put_item(i)->Ok_0;
            lemma_grown_twice(e, d, g);
            assert(archive_grown(e, f));
        }
    }
}

/// A directory is entered or left with the positions unchanged but for what is written.
proof fn lemma_grown_directory(e: EncoderView, name: Seq<u8>, metadata: MetadataView)
    requires
        e.states.len() > 0,
    ensures
        e.create_directory(name, metadata) matches Ok(f) ==> {
            &&& f.states.len() == e.states.len() + 1
            &&& starts_with(f.archive, e.archive)
            &&& f.payload == e.payload
            &&& f.last().write_position - e.last().write_position == f.archive.len()
                - e.archive.len()
            &&& f.last().payload_write_position == e.last().payload_write_position
        },
{
    let s = e.settled();
    lemma_grown_settled(e);
    if let Ok(f) = e.create_directory(name, metadata) {
        lemma_grown_start(s, Some(metadata), name);
        let d = s.start_file(Some(metadata), name)->Ok_0;
        lemma_grown_twice(e, s, d);
        assert(f.archive == d.archive);
        assert(f.last().write_position == d.last().write_position);
    }
}

proof fn lemma_grown_finish(e: EncoderView)
    requires
        e.states.len() > 0,
    ensures
        e.finish() matches Ok(f) ==> {
            &&& f.states.len() == e.states.len() - 1
            &&& starts_with(f.archive, e.archive)
            &&& f.payload == e.payload
            &&& f.states.len() > 0 ==> {
                &&& f.last().write_position - e.last().write_position == f.archive.len()
                    - e.archive.len()
                &&& f.last().payload_write_position == e.last().payload_write_position
            }
        },
{
    let s = e.settled();
    lemma_grown_settled(e);
    if let Ok(f) = e.finish() {
        lemma_grown_item(s, s.goodbye_item());
        let d = s.put_item(s.goodbye_item())->Ok_0;
        lemma_grown_twice(e, s, d);
        assert(f.archive == d.archive);
    }
}

/// Both outputs go on, each position with its output.
spec fn both_grown(e: EncoderView, f: EncoderView) -> bool {
    &&& f.states.len() == e.states.len() > 0
    &&& goes_on(e, f)
    &&& f.last().write_position - e.last().write_position == f.archive.len() - e.archive.len()
    &&& f.last().payload_write_position - e.last().payload_write_position == match f.payload {
        Some(q) => q.len() - e.payload->0.len(),
        None => 0,
    }
}

proof fn lemma_both_grown(e: EncoderView, d: EncoderView, f: EncoderView)
    requires
        e.states.len() > 0,
        archive_grown(e, d),
        both_grown(d, f) || archive_grown(d, f),
    ensures
        both_grown(e, f),
{
    assert(f.archive.take(e.archive.len() as int) =~= d.archive.take(e.archive.len() as int));
    if let Some(p) = e.payload {
        assert(p.take(p.len() as int) =~= p);
    }
}

proof fn lemma_grown_payload(e: EncoderView, size: u64)
    requires
        e.states.len() > 0,
    ensures
        e.start_payload(size) matches Ok(f) ==> both_grown(e, f),
{
    if let Ok(f) = e.start_payload(size) {
        let header = header_of(PXAR_PAYLOAD, size as nat).wire();
        match e.payload {
            None => {
                assert(f.archive.take(e.archive.len() as int) =~= e.archive);
            },
            Some(p) => {
                let c = e.payload_cursor().put(header)->Ok_0;
                let d = e.at_payload(c);
                let item = payload_ref_item(
                    e.last().payload_write_position,
                    size,
                );
                lemma_grown_item(d, item);
                assert(d.payload == Some(p + header));
                assert((p + header).take(p.len() as int) =~= p);
                assert(d.last().payload_write_position == e.last().payload_write_position
                    + header.len());
                assert(d.last().write_position == e.last().write_position);
            },
        }
    }
}

proof fn lemma_grown_file(e: EncoderView, metadata: MetadataView, name: Seq<u8>, size: u64)
    requires
        e.states.len() > 0,
    ensures
        e.create_file(metadata, name, size) matches Ok(f) ==> both_grown(e, f),
{
    let s = e.settled();
    lemma_grown_settled(e);
    if let Ok(f) = e.create_file(metadata, name, size) {
        lemma_grown_start(s, Some(metadata), name);
        let d = s.start_file(Some(metadata), name)->Ok_0;
        lemma_grown_twice(e, s, d);
        lemma_grown_payload(d, size);
        let g = d.start_payload(size)->Ok_0;
        lemma_both_grown(e, d, g);
        assert(f == EncoderView { open: f.open, ..g });
    }
}

proof fn lemma_grown_contents(e: EncoderView, data: Seq<u8>)
    requires
        e.states.len() > 0,
        e.open is Some,
        e.contents_refusal(data) is None,
    ensures
        both_grown(e, e.with_contents(data)),
{
    let f = e.with_contents(data);
    match e.payload {
        None => {
            assert(f.archive == e.archive + data);
            assert(f.archive.take(e.archive.len() as int) =~= e.archive);
        },
        Some(p) => {
            assert(f.payload == Some(p + data));
            assert((p + data).take(p.len() as int) =~= p);
            assert(e.archive.take(e.archive.len() as int) =~= e.archive);
        },
    }
}

/// One call keeps the count, and nothing that was written is lost.
pub proof fn lemma_step(
    e: EncoderView,
    step: Step,
    archive_start: int,
    payload_start: int,
    skipped: int,
)
    requires
        counted(e, archive_start, payload_start, skipped),
    ensures
        step.apply(e) matches Ok(f) ==> {
            &&& goes_on(e, f)
            &&& f.states.len() > 0 ==> counted(
                f,
                archive_start,
                payload_start,
                skipped + step.passes_over(),
            )
            &&& f.states.len() == 0 ==> f.open is None
        },
{
    if let Some(p) = e.payload {
        assert(p.take(p.len() as int) =~= p);
    }
    match step {
        Step::Create { metadata, name, size } => {
            lemma_grown_file(e, metadata, name, size);
        },
        Step::Write { data } => {
            if e.open is Some && e.contents_refusal(data) is None {
                lemma_grown_contents(e, data);
            }
        },
        Step::Entry { attributes, name, item } => {
            lemma_grown_entry(e, attributes, name, item);
        },
        Step::Reference { metadata, name, size, offset } => {
            let s = e.settled();
            lemma_grown_settled(e);
            lemma_grown_entry(s, Some(metadata), name, Some(payload_ref_item(offset, size)));
            if let Ok(f) = e.add_payload_ref(metadata, name, size, offset) {
                lemma_grown_twice(e, s, f);
            }
        },
        Step::Advance { size } => {
            lemma_grown_settled(e);
            assert(e.archive.take(e.archive.len() as int) =~= e.archive);
        },
        Step::Enter { name, metadata } => {
            lemma_grown_directory(e, name, metadata);
        },
        Step::Finish => {
            lemma_grown_finish(e);
        },
    }
}

/// Once the root directory is finished, nothing more comes of any call.
proof fn lemma_ended(e: EncoderView, step: Step)
    requires
        e.states.len() == 0,
        e.open is None,
    ensures
        step.apply(e) is Err,
{
}

/// Calls one after the other keep the count, and nothing that was written is lost.
pub proof fn lemma_run(
    e: EncoderView,
    steps: Seq<Step>,
    archive_start: int,
    payload_start: int,
    skipped: int,
)
    requires
        counted(e, archive_start, payload_start, skipped),
    ensures
        run(e, steps) matches Ok(f) ==> {
            &&& goes_on(e, f)
            &&& f.states.len() > 0 ==> counted(
                f,
                archive_start,
                payload_start,
                skipped + passed_over(steps),
            )
            &&& f.states.len() == 0 ==> f.open is None
        },
    decreases steps.len(),
{
    if steps.len() == 0 {
        assert(e.archive.take(e.archive.len() as int) =~= e.archive);
        if let Some(p) = e.payload {
            assert(p.take(p.len() as int) =~= p);
        }
    } else {
        let before = steps.drop_last();
        lemma_run(e, before, archive_start, payload_start, skipped);
        if let Ok(d) = run(e, before) {
            if d.states.len() == 0 {
                lemma_ended(d, steps.last());
            } else {
                lemma_step(
                    d,
                    steps.last(),
                    archive_start,
                    payload_start,
                    skipped + passed_over(before),
                );
                if let Ok(f) = steps.last().apply(d) {
                    lemma_starts_with(f.archive, d.archive, e.archive);
                    if let (Some(p), Some(q), Some(r)) = (e.payload, d.payload, f.payload) {
                        lemma_starts_with(r, q, p);
                    }
                }
            }
        }
    }
}

/// The length of an output that may be missing.
pub open spec fn length_of(output: Option<Seq<u8>>) -> int {
    match output {
        Some(bytes) => bytes.len() as int,
        None => 0,
    }
}

/// A new encoder has written the version and the prelude, where there is a payload stream, and the
/// metadata of the root directory; the payload stream starts with a marker. It stands where it has
/// written to, in a root directory without files.
pub proof fn law_new_encoder(
    archive: Seq<u8>,
    payload: Option<Seq<u8>>,
    metadata: MetadataView,
    prelude: Option<Seq<u8>>,
)
    requires
        new_encoder(archive, payload, metadata, prelude) is Ok,
    ensures
        ({
            let e = new_encoder(archive, payload, metadata, prelude)->Ok_0;
            let preamble = if payload is Some {
                item_bytes(0x730f6c75df16a40d, le64(2)) + optional_bytes(
                    0xe309d79d9f7b771b,
                    prelude,
                )
            } else {
                Seq::empty()
            };
            &&& metadata.stat.mode & 0o170000 == 0o040000
            &&& payload is None ==> prelude is None
            &&& e.archive == archive + (preamble + metadata_bytes(metadata))
            &&& e.payload == match payload {
                Some(p) => Some(p + item_bytes(0x834c68c2194a4ed2, Seq::empty())),
                None => None,
            }
            &&& counted(e, archive.len() as int, length_of(payload), 0)
            &&& e.states.len() == 1
            &&& e.last().items == Seq::<GoodbyeItem>::empty()
            &&& e.last().encode_error is None
            &&& e.last().entry_offset == 0
            &&& e.last().files_offset == e.last().write_position
            &&& e.last().file_offset is None
            &&& e.open is None
            &&& !e.finished
            &&& e.version == if payload is Some {
                FormatVersion::Version2
            } else {
                FormatVersion::Version1
            }
        }),
{
    let e = new_encoder(archive, payload, metadata, prelude)->Ok_0;
    let version = e.version;
    let items = preamble_items(version, prelude);
    let start = EncoderView {
        archive,
        payload,
        states: seq![StateView::initial()],
        open: None,
        finished: false,
        version,
    };
    let marker = header_of(PXAR_PAYLOAD_START_MARKER, 0);
    marker.lemma_wire_round_trip();
    assert(marker.wire() =~= item_bytes(0x834c68c2194a4ed2, Seq::empty()));
    let marked = match payload {
        Some(p) => start.at_payload(
            Cursor { bytes: p + marker.wire(), position: 16 },
        ),
        None => start,
    };
    lemma_put_items(marked.cursor(), items);
    let d = marked.put_items(items)->Ok_0;
    lemma_put_items(d.cursor(), metadata_items(metadata));
    law_preamble(prelude);
    law_metadata(metadata);
    assert(d.states.len() == 1);
    assert(d.last().entry_offset == 0);
    assert(e.archive =~= archive + (wire_of(items) + wire_of(metadata_items(metadata))));
}

/// After any calls, the position that the innermost directory keeps for the archive is the number
/// of bytes written to it, and the position in the payload stream is the number of bytes written to
/// that and passed over, be it that other directories were finished in between. What had been
/// written stays.
pub proof fn law_positions(
    archive: Seq<u8>,
    payload: Option<Seq<u8>>,
    metadata: MetadataView,
    prelude: Option<Seq<u8>>,
    steps: Seq<Step>,
)
    requires
        new_encoder(archive, payload, metadata, prelude) is Ok,
        run(new_encoder(archive, payload, metadata, prelude)->Ok_0, steps) is Ok,
    ensures
        ({
            let e = run(new_encoder(archive, payload, metadata, prelude)->Ok_0, steps)->Ok_0;
            &&& starts_with(e.archive, archive)
            &&& match payload {
                Some(p) => e.payload is Some && starts_with(e.payload->0, p),
                None => e.payload is None,
            }
            &&& e.states.len() > 0 ==> {
                &&& e.last().write_position == e.archive.len() - archive.len()
                &&& e.last().payload_write_position == length_of(e.payload) - length_of(payload)
                    + passed_over(steps)
            }
        }),
{
    let d = new_encoder(archive, payload, metadata, prelude)->Ok_0;
    let e = run(d, steps)->Ok_0;
    law_new_encoder(archive, payload, metadata, prelude);
    lemma_run(d, steps, archive.len() as int, length_of(payload), 0);
    assert(d.archive.take(archive.len() as int) =~= archive);
    lemma_starts_with(e.archive, d.archive, archive);
    if let Some(p) = payload {
        assert(d.payload->0.take(p.len() as int) =~= p);
        lemma_starts_with(e.payload->0, d.payload->0, p);
    }
}

/// What is written for a file where there is a payload stream.
proof fn lemma_reference_written(
    e: EncoderView,
    archive_start: int,
    payload_start: int,
    metadata: MetadataView,
    name: Seq<u8>,
    contents: Seq<u8>,
)
    requires
        counted(e, archive_start, payload_start, 0),
        e.payload is Some,
        0 <= payload_start <= e.payload->0.len(),
        contents.len() <= u64::MAX,
        e.add_file(metadata, name, contents.len() as u64, contents) is Ok,
    ensures
        ({
            let f = e.add_file(metadata, name, contents.len() as u64, contents)->Ok_0;
            let at = e.payload->0.len() - payload_start;
            &&& at + 16 + contents.len() <= u64::MAX
            &&& f.archive == e.archive + (item_bytes(0x16701121063917b3, name + seq![0u8]) + (
            metadata_bytes(metadata) + item_bytes(
                0x419d3d6bc4ba977e,
                le64(at as u64) + le64(contents.len() as u64),
            )))
            &&& f.payload == Some(e.payload->0 + item_bytes(0x28147a1b0b7c1a25, contents))
            &&& item_bytes(0x28147a1b0b7c1a25, contents).len() == 16 + contents.len()
            &&& counted(f, archive_start, payload_start, 0)
        }),
{
    let size = contents.len() as u64;
    let f = e.add_file(metadata, name, size, contents)->Ok_0;
    let at = e.payload->0.len() - payload_start;
    law_payload_reference(e, metadata, name, contents);
    law_entry_items(name, Seq::empty(), 0, Device { major: 0, minor: 0 }, at as u64, size);
    law_metadata(metadata);
    let bytes = header_of(PXAR_PAYLOAD, contents.len()).wire() + contents;
    assert(bytes =~= item_bytes(0x28147a1b0b7c1a25, contents));
    assert(f.states.len() > 0);
}

/// What was put behind something stays there when more follows.
proof fn lemma_part_stays(before: Seq<u8>, part: Seq<u8>, all: Seq<u8>)
    requires
        starts_with(all, before + part),
    ensures
        before.len() + part.len() <= all.len(),
        all.subrange(before.len() as int, (before.len() + part.len()) as int) == part,
{
    let grown = before + part;
    let end = (before.len() + part.len()) as int;
    assert(all.take(end) =~= grown);
    assert(all.subrange(before.len() as int, end) =~= grown.subrange(before.len() as int, end));
    assert(grown.subrange(before.len() as int, end) =~= part);
}

/// What is written for a file where there is a payload stream stays, whatever follows.
proof fn lemma_reference_stays(
    e: EncoderView,
    archive_start: int,
    payload_start: int,
    metadata: MetadataView,
    name: Seq<u8>,
    contents: Seq<u8>,
    after: Seq<Step>,
)
    requires
        counted(e, archive_start, payload_start, 0),
        e.payload is Some,
        0 <= payload_start <= e.payload->0.len(),
        contents.len() <= u64::MAX,
        e.add_file(metadata, name, contents.len() as u64, contents) matches Ok(f) && run(
            f,
            after,
        ) is Ok,
    ensures
        ({
            let f = e.add_file(metadata, name, contents.len() as u64, contents)->Ok_0;
            let g = run(f, after)->Ok_0;
            let at = e.payload->0.len() as int;
            &&& starts_with(g.archive, f.archive)
            &&& g.payload is Some
            &&& at + 16 + contents.len() <= g.payload->0.len()
            &&& g.payload->0.subrange(at, at + 16 + contents.len()) == item_bytes(
                0x28147a1b0b7c1a25,
                contents,
            )
        }),
{
    let f = e.add_file(metadata, name, contents.len() as u64, contents)->Ok_0;
    let g = run(f, after)->Ok_0;
    lemma_reference_written(e, archive_start, payload_start, metadata, name, contents);
    lemma_run(f, after, archive_start, payload_start, 0);
    lemma_part_stays(e.payload->0, item_bytes(0x28147a1b0b7c1a25, contents), g.payload->0);
}

proof fn lemma_file_reference(
    d: EncoderView,
    archive_start: int,
    payload_start: int,
    before: Seq<Step>,
    e: EncoderView,
)
    requires
        counted(d, archive_start, payload_start, 0),
        d.payload matches Some(p) && p.len() == payload_start + 16,
        passed_over(before) == 0,
        run(d, before) == Ok::<_, Error>(e),
        e.states.len() > 0,
    ensures
        counted(e, archive_start, payload_start, 0),
        e.payload matches Some(p) && p.len() >= payload_start + 16,
{
    lemma_run(d, before, archive_start, payload_start, 0);
}

/// A file in an archive with a separate payload stream is referred to by the place where its
/// payload header and its contents stand in that stream, and by its size. That holds whatever was
/// added before, as long as nothing was passed over, also behind a finished directory, and whatever
/// is added later: `d` is the new encoder, `e` the one before the file is added, `f` the one after
/// it, and `g` the one at the end.
pub proof fn law_file_reference(
    archive: Seq<u8>,
    payload: Seq<u8>,
    root: MetadataView,
    prelude: Option<Seq<u8>>,
    d: EncoderView,
    before: Seq<Step>,
    e: EncoderView,
    metadata: MetadataView,
    name: Seq<u8>,
    contents: Seq<u8>,
    f: EncoderView,
    after: Seq<Step>,
    g: EncoderView,
)
    requires
        contents.len() <= u64::MAX,
        new_encoder(archive, Some(payload), root, prelude) == Ok::<_, Error>(d),
        run(d, before) == Ok::<_, Error>(e),
        passed_over(before) == 0,
        e.states.len() > 0,
        e.add_file(metadata, name, contents.len() as u64, contents) == Ok::<_, Error>(f),
        run(f, after) == Ok::<_, Error>(g),
    ensures
        ({
            let at = e.payload->0.len() - payload.len();
            let end = at + 16 + contents.len();
            &&& 16 <= at <= end <= u64::MAX
            &&& f.archive == e.archive + (item_bytes(0x16701121063917b3, name + seq![0u8]) + (
            metadata_bytes(metadata) + item_bytes(
                0x419d3d6bc4ba977e,
                le64(at as u64) + le64(contents.len() as u64),
            )))
            &&& starts_with(g.archive, f.archive)
            &&& g.payload is Some
            &&& payload.len() + end <= g.payload->0.len()
            &&& g.payload->0.subrange(payload.len() + at, payload.len() + end) == item_bytes(
                0x28147a1b0b7c1a25,
                contents,
            )
        }),
{
    let start = archive.len() as int;
    let base = payload.len() as int;
    lemma_le64_len(0x834c68c2194a4ed2);
    lemma_le64_len(16);
    law_new_encoder(archive, Some(payload), root, prelude);
    lemma_file_reference(d, start, base, before, e);
    lemma_reference_written(e, start, base, metadata, name, contents);
    lemma_reference_stays(e, start, base, metadata, name, contents, after);
}

/// A reference to contents that already exist is written with the offset and the size that were
/// asked for, behind the name and the metadata. The payload stream and the position in it stay, and
/// the entry is listed.
pub proof fn law_payload_ref(
    e: EncoderView,
    metadata: MetadataView,
    name: Seq<u8>,
    size: u64,
    offset: u64,
)
    requires
        e.states.len() > 0,
        e.add_payload_ref(metadata, name, size, offset) is Ok,
    ensures
        ({
            let f = e.add_payload_ref(metadata, name, size, offset)->Ok_0;
            let entry = item_bytes(0x16701121063917b3, name + seq![0u8]) + (metadata_bytes(metadata)
                + item_bytes(0x419d3d6bc4ba977e, le64(offset) + le64(size)));
            &&& e.payload is Some
            &&& e.version == FormatVersion::Version2
            &&& offset >= e.last().payload_write_position
            &&& f.archive == e.archive + entry
            &&& f.last().write_position == e.last().write_position + entry.len()
            &&& f.payload == e.payload
            &&& f.last().payload_write_position == e.last().payload_write_position
            &&& f.states.len() == e.states.len()
            &&& f.open is None
            &&& listed(f) == listed(e).push(
                GoodbyeItem {
                    hash: filename_hash(name),
                    offset: e.last().write_position,
                    size: entry.len() as u64,
                },
            )
        }),
{
    let s = e.settled();
    let f = e.add_payload_ref(metadata, name, size, offset)->Ok_0;
    let item = payload_ref_item(offset, size);
    assert(s.settled() == s);
    assert(s.add_entry(Some(metadata), name, Some(item)) == Ok::<_, Error>(f));
    lemma_started(s, Some(metadata), name);
    let d = s.start_file(Some(metadata), name)->Ok_0;
    lemma_put(d, item);
    let g = d.put_item(item)->Ok_0;
    assert(f == g.listed(s.last().write_position, name));
    law_entry_items(name, Seq::empty(), 0, Device { major: 0, minor: 0 }, offset, size);
    law_metadata(metadata);
    lemma_grown_settled(e);
    lemma_grown_start(s, Some(metadata), name);
    lemma_grown_item(d, item);
    let entry = item_bytes(0x16701121063917b3, name + seq![0u8]) + (metadata_bytes(metadata)
        + item.wire());
    assert(f.archive =~= e.archive + entry);
    assert(f.last().write_position == e.last().write_position + entry.len());
    assert(d.last().items == s.last().items);
    assert(g.last().items == s.last().items);
    assert(f.settled() == f);
}

/// Passing over some of the payload stream moves the position in it by that much, changes nothing
/// else and writes nothing, and can be done in parts.
pub proof fn law_advance(e: EncoderView, a: u64, b: u64)
    requires
        e.states.len() > 0,
        e.open is None,
    ensures
        e.advance(a) is Ok <==> e.last().payload_write_position + a <= u64::MAX,
        e.advance(a) matches Ok(f) ==> {
            &&& f.archive == e.archive
            &&& f.payload == e.payload
            &&& f.last().payload_write_position == e.last().payload_write_position + a
            &&& f.last().write_position == e.last().write_position
            &&& f.states.drop_last() == e.states.drop_last()
            &&& f.last().items == e.last().items
            &&& f.last().encode_error == e.last().encode_error
            &&& f.open is None
            &&& f.finished == e.finished
            &&& f.version == e.version
            &&& a + b <= u64::MAX ==> f.advance(b) == e.advance((a + b) as u64)
        },
{
    if let Ok(f) = e.advance(a) {
        assert(f.states.drop_last() =~= e.states.drop_last());
        if a + b <= u64::MAX {
            if let Ok(g) = f.advance(b) {
                assert(g =~= e.advance((a + b) as u64)->Ok_0);
            }
        }
    }
}

} // verus!
