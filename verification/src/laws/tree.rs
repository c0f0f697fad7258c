//! Decoding an archive gives back the files that were encoded.

use vstd::prelude::*;

use crate::decoder::model::{initial_decoder, DecoderView, State};
use crate::decoder::read::InputView;
use crate::encoder::model::{
    device_item, filename_item, hardlink_item, metadata_items, new_encoder, preamble_items,
    symlink_item, EncoderView, StateView,
};
use crate::encoder::write::{header_of, lemma_put_items, wire_of, ItemView};
use crate::entry::{EntryView, KindView};
use crate::errors::Error;
use crate::format::mode;
use crate::format::wire::Wire;
use crate::format::{
    header_error, Device, Header, HEADER_SIZE, PXAR_FILENAME, PXAR_GOODBYE, PXAR_HARDLINK,
    PXAR_PAYLOAD,
};
use crate::laws::entries::{
    end_position, goodbye_entry, is_boundary, lemma_end_position, lemma_end_boundary, lemma_end_device, lemma_end_eof, lemma_end_payload,
    lemma_end_symlink, lemma_leave_directory, lemma_leave_root, lemma_next_name, lemma_open_entry,
    lemma_read_hardlink, nested, opened, path_lengths_of, pending,
};
use crate::laws::items::{acceptable, all_acceptable, lemma_put_accepted, readable_xattrs};
use crate::metadata::MetadataView;
use crate::path::joined;
use crate::util::{filename_error, SLASH};

verus! {

/// Something in a directory that is not a directory itself.
pub enum Leaf {
    Symlink { metadata: MetadataView, target: Seq<u8> },
    /// The target is `distance` bytes back in the archive.
    Hardlink { distance: u64, target: Seq<u8> },
    Device { metadata: MetadataView, device: Device },
    Fifo { metadata: MetadataView },
    Socket { metadata: MetadataView },
    File { metadata: MetadataView, contents: Seq<u8> },
}

/// The files of a directory, in the order in which they are added.
pub enum Files {
    Nil,
    Leaf { name: Seq<u8>, leaf: Leaf, next: Box<Files> },
    Directory { name: Seq<u8>, metadata: MetadataView, files: Box<Files>, next: Box<Files> },
}

impl Leaf {
    pub open spec fn metadata(self) -> MetadataView {
        match self {
            Leaf::Symlink { metadata, .. } => metadata,
            Leaf::Hardlink { .. } => MetadataView::empty(),
            Leaf::Device { metadata, .. } => metadata,
            Leaf::Fifo { metadata } => metadata,
            Leaf::Socket { metadata } => metadata,
            Leaf::File { metadata, .. } => metadata,
        }
    }

    /// The kind of its entry. Where positions are known, `position` is that of the contents.
    pub open spec fn kind(self, position: Option<u64>) -> KindView {
        match self {
            Leaf::Symlink { target, .. } => KindView::Symlink(target.push(0)),
            Leaf::Hardlink { distance, target } => KindView::Hardlink {
                offset: distance,
                data: target.push(0),
            },
            Leaf::Device { device, .. } => KindView::Device(device),
            Leaf::Fifo { .. } => KindView::Fifo,
            Leaf::Socket { .. } => KindView::Socket,
            Leaf::File { contents, .. } => KindView::File {
                size: contents.len() as u64,
                position,
            },
        }
    }

    pub open spec fn contents(self) -> Option<Seq<u8>> {
        match self {
            Leaf::File { contents, .. } => Some(contents),
            _ => None,
        }
    }

    /// Add this to an archive.
    #[verifier::opaque]
    pub open spec fn encode(self, e: EncoderView, name: Seq<u8>) -> Result<EncoderView, Error> {
        match self {
            Leaf::Symlink { metadata, target } => e.add_entry(
                Some(metadata),
                name,
                Some(symlink_item(target)),
            ),
            Leaf::Hardlink { distance, target } => if distance
                > e.settled().last().write_position {
                Err(Error::InvalidHardlinkOffset)
            } else {
                e.add_hardlink(
                    name,
                    target,
                    (e.settled().last().write_position - distance) as u64,
                )
            },
            Leaf::Device { metadata, device } => e.add_device(metadata, name, device),
            Leaf::Fifo { metadata } => e.add_fifo(metadata, name),
            Leaf::Socket { metadata } => e.add_socket(metadata, name),
            Leaf::File { metadata, contents } => if contents.len() > u64::MAX {
                Err(Error::OutOfRange)
            } else {
                e.add_file(metadata, name, contents.len() as u64, contents)
            },
        }
    }

    /// What is written for this after its name.
    pub open spec fn body(self) -> Seq<u8> {
        match self {
            Leaf::Symlink { metadata, target } => wire_of(metadata_items(metadata)) + symlink_item(
                target,
            ).wire(),
            Leaf::Hardlink { distance, target } => hardlink_item(distance, target).wire(),
            Leaf::Device { metadata, device } => wire_of(metadata_items(metadata)) + device_item(
                device,
            ).wire(),
            Leaf::Fifo { metadata } => wire_of(metadata_items(metadata)),
            Leaf::Socket { metadata } => wire_of(metadata_items(metadata)),
            Leaf::File { metadata, contents } => wire_of(metadata_items(metadata)) + (header_of(
                PXAR_PAYLOAD,
                contents.len(),
            ).wire() + contents),
        }
    }

    /// Everything in this is something that an encoder accepts.
    pub open spec fn accepted(self) -> bool {
        &&& self is Hardlink || all_acceptable(metadata_items(self.metadata()))
        &&& match self {
            Leaf::Symlink { target, .. } => acceptable(symlink_item(target)),
            Leaf::Hardlink { distance, target } => acceptable(hardlink_item(distance, target)),
            Leaf::Device { .. } => true,
            Leaf::Fifo { metadata } => metadata.file_type() == mode::IFIFO,
            Leaf::Socket { metadata } => metadata.file_type() == mode::IFSOCK,
            Leaf::File { contents, .. } => contents.len() + HEADER_SIZE <= u64::MAX,
        }
    }
}

/// Enter a new directory of an archive.
#[verifier::opaque]
pub open spec fn enter(e: EncoderView, name: Seq<u8>, metadata: MetadataView) -> Result<
    EncoderView,
    Error,
> {
    e.create_directory(name, metadata)
}

/// Finish the innermost directory of an archive.
#[verifier::opaque]
pub open spec fn leave(e: EncoderView) -> Result<EncoderView, Error> {
    e.finish()
}

/// Add files to the innermost directory of an archive.
pub open spec fn encode_files(e: EncoderView, files: Files) -> Result<EncoderView, Error>
    decreases files,
{
    match files {
        Files::Nil => Ok(e),
        Files::Leaf { name, leaf, next } => match leaf.encode(e, name) {
            Ok(e) => encode_files(e, *next),
            Err(e) => Err(e),
        },
        Files::Directory { name, metadata, files, next } => match enter(
            e,
            name,
            metadata,
        ) {
            Ok(e) => match encode_files(e, *files) {
                Ok(e) => match leave(e) {
                    Ok(e) => encode_files(e, *next),
                    Err(e) => Err(e),
                },
                Err(e) => Err(e),
            },
            Err(e) => Err(e),
        },
    }
}

/// A whole archive: the root directory with its files.
pub open spec fn encode_archive(metadata: MetadataView, files: Files) -> Result<
    EncoderView,
    Error,
> {
    match new_encoder(Seq::empty(), None, metadata, None) {
        Ok(e) => match encode_files(e, files) {
            Ok(e) => leave(e),
            Err(e) => Err(e),
        },
        Err(e) => Err(e),
    }
}

/// Extended attributes can only be read back if their names hold no zero.
pub open spec fn readable(files: Files) -> bool
    decreases files,
{
    match files {
        Files::Nil => true,
        Files::Leaf { leaf, next, .. } => readable_xattrs(leaf.metadata().xattrs) && readable(
            *next,
        ),
        Files::Directory { metadata, files, next, .. } => readable_xattrs(metadata.xattrs)
            && readable(*files) && readable(*next),
    }
}

/// An entry, and the contents of the file that it stands for.
#[verifier::ext_equal]
pub struct Listed {
    pub entry: EntryView,
    pub contents: Option<Seq<u8>>,
}

/// Where the contents of a file start that is added by `e`, in an archive that itself starts at
/// `start`.
pub open spec fn contents_at(
    e: EncoderView,
    name: Seq<u8>,
    metadata: MetadataView,
    start: Option<int>,
) -> Option<u64> {
    match start {
        Some(at) => Some(
            (at + e.archive.len() + filename_item(name).wire().len() + wire_of(
                metadata_items(metadata),
            ).len() + HEADER_SIZE) as u64,
        ),
        None => None,
    }
}

/// What is reported at the end of a directory.
pub open spec fn directory_end(tables: bool) -> Seq<Listed> {
    if tables {
        seq![Listed { entry: goodbye_entry(), contents: None }]
    } else {
        Seq::empty()
    }
}

/// The files of a directory, each directory in front of what is in it. The first of them was added
/// by `e` to an archive that starts at `start`, where positions are known. Goodbye tables are
/// listed where that is asked for.
pub open spec fn listing(
    e: EncoderView,
    dir: Seq<u8>,
    files: Files,
    start: Option<int>,
    tables: bool,
) -> Seq<Listed>
    decreases files,
{
    match files {
        Files::Nil => Seq::empty(),
        Files::Leaf { name, leaf, next } => seq![
            Listed {
                entry: EntryView {
                    path: joined(dir, name),
                    metadata: leaf.metadata(),
                    kind: leaf.kind(contents_at(e, name, leaf.metadata(), start)),
                },
                contents: leaf.contents(),
            },
        ] + listing(leaf.encode(e, name)->Ok_0, dir, *next, start, tables),
        Files::Directory { name, metadata, files, next } => {
            let inner = enter(e, name, metadata)->Ok_0;
            let after = leave(encode_files(inner, *files)->Ok_0)->Ok_0;
            seq![
                Listed {
                    entry: EntryView {
                        path: joined(dir, name),
                        metadata,
                        kind: KindView::Directory,
                    },
                    contents: None,
                },
            ] + listing(inner, joined(dir, name), *files, start, tables) + directory_end(tables)
                + listing(after, dir, *next, start, tables)
        },
    }
}

/// The decoder stands in front of the contents of a file.
pub open spec fn has_contents(d: DecoderView, contents: Option<Seq<u8>>) -> bool {
    contents matches Some(c) ==> {
        &&& d.state == State::InPayload { offset: 0 }
        &&& d.content_size() == c.len()
        &&& c.len() <= d.input.unread.len()
        &&& d.input.unread.take(c.len() as int) == c
    }
}

/// What a decoder reports next.
#[verifier::opaque]
pub open spec fn reported(d: DecoderView) -> Result<(DecoderView, Option<EntryView>), Error> {
    d.next()
}

/// A decoder reports the given entries and then goes on as `last` does.
#[verifier::opaque]
pub open spec fn yields(d: DecoderView, entries: Seq<Listed>, last: DecoderView) -> bool
    decreases entries.len(),
{
    if entries.len() == 0 {
        reported(d) == reported(last)
    } else {
        match reported(d) {
            Ok((e, Some(entry))) => {
                &&& entry == entries[0].entry
                &&& has_contents(e, entries[0].contents)
                &&& yields(e, entries.skip(1), last)
            },
            _ => false,
        }
    }
}

/// A decoder reports the given entries, and then the end of the archive.
pub open spec fn decodes_to(d: DecoderView, entries: Seq<Listed>) -> bool
    decreases entries.len(),
{
    if entries.len() == 0 {
        reported(d) matches Ok((_, None))
    } else {
        match reported(d) {
            Ok((e, Some(entry))) => {
                &&& entry == entries[0].entry
                &&& has_contents(e, entries[0].contents)
                &&& decodes_to(e, entries.skip(1))
            },
            _ => false,
        }
    }
}

proof fn lemma_yields_concat(
    d: DecoderView,
    a: Seq<Listed>,
    m: DecoderView,
    b: Seq<Listed>,
    last: DecoderView,
)
    requires
        yields(d, a, m),
        yields(m, b, last),
    ensures
        yields(d, a + b, last),
    decreases a.len(),
{
    reveal_with_fuel(yields, 2);
    if a.len() == 0 {
        if b.len() == 0 {
            assert(reported(d) == reported(m));
        }
        assert(a + b =~= b);
    } else {
        assert((a + b)[0] == a[0]);
        assert((a + b).skip(1) =~= a.skip(1) + b);
        if let Ok((e, Some(entry))) = reported(d) {
            lemma_yields_concat(e, a.skip(1), m, b, last);
        }
    }
}

proof fn lemma_yields_nothing(d: DecoderView)
    ensures
        yields(d, Seq::empty(), d),
{
    reveal_with_fuel(yields, 2);
}

proof fn lemma_yields_one(d: DecoderView, entry: Listed, e: DecoderView)
    requires
        d.next() == Ok::<_, Error>((e, Some(entry.entry))),
        has_contents(e, entry.contents),
    ensures
        yields(d, seq![entry], e),
{
    reveal(reported);
    reveal_with_fuel(yields, 2);
    assert(seq![entry].skip(1) =~= Seq::<Listed>::empty());
    assert(yields(e, seq![entry].skip(1), e));
}

proof fn lemma_yields_to_end(d: DecoderView, entries: Seq<Listed>, last: DecoderView)
    requires
        yields(d, entries, last),
        reported(last) matches Ok((_, None)),
    ensures
        decodes_to(d, entries),
    decreases entries.len(),
{
    reveal_with_fuel(yields, 2);
    if entries.len() > 0 {
        if let Ok((e, Some(entry))) = reported(d) {
            lemma_yields_to_end(e, entries.skip(1), last);
        }
    }
}

/// The bytes start with a file name or a goodbye table.
pub open spec fn at_boundary(rest: Seq<u8>) -> bool {
    exists|header: Header, more: Seq<u8>|
        is_boundary(header) && rest == #[trigger] (header.wire() + more)
}

pub proof fn lemma_item_boundary(item: ItemView, more: Seq<u8>)
    requires
        acceptable(item),
        item.htype == PXAR_FILENAME || item.htype == PXAR_GOODBYE,
    ensures
        at_boundary(item.wire() + more),
{
    let header = header_of(item.htype, item.content.len());
    assert(item.wire() + more =~= header.wire() + (item.content + more));
}

proof fn lemma_joined_prefix(dir: Seq<u8>, name: Seq<u8>)
    ensures
        dir.len() <= joined(dir, name).len(),
        joined(dir, name).take(dir.len() as int) == dir,
{
    assert(joined(dir, name).take(dir.len() as int) =~= dir);
}

/// The position of the contents of a leaf that is about to be read, where positions are known.
pub open spec fn contents_position(f: DecoderView, leaf: Leaf) -> Option<u64> {
    match f.input.offset {
        Some(at) => Some(
            (at + wire_of(metadata_items(leaf.metadata())).len() + HEADER_SIZE) as u64,
        ),
        None => None,
    }
}

/// An entry without an item that tells its kind can end here.
pub open spec fn can_end(f: DecoderView, rest: Seq<u8>) -> bool {
    at_boundary(rest) || f.eof_after_entry && rest.len() == 0
}

/// A decoder at what stands after the name of a leaf reports it and gets to `rest`.
pub open spec fn reads_leaf(f: DecoderView, leaf: Leaf, rest: Seq<u8>, g: DecoderView) -> bool {
    &&& f.next_entry_or_eof() == Ok::<_, Error>(
        Some(
            (
                g,
                EntryView {
                    path: f.entry.path,
                    metadata: leaf.metadata(),
                    kind: leaf.kind(contents_position(f, leaf)),
                },
            ),
        ),
    )
    &&& has_contents(g, leaf.contents())
    &&& end_position(g.input) == end_position(f.input)
    &&& g.path_lengths == f.path_lengths
    &&& g.with_goodbye_tables == f.with_goodbye_tables
    &&& g.entry.path == f.entry.path
    &&& match g.state {
        State::Default => g.input.unread == rest,
        State::InPayload { offset } => {
            &&& header_error(g.header) is None
            &&& offset == 0
            &&& g.content_size() <= g.input.unread.len()
            &&& g.input.unread.skip(g.content_size() as int) == rest
        },
        State::InSpecialFile => {
            &&& header_error(g.header) is None
            &&& g.header.wire() + g.input.unread == rest
        },
        _ => false,
    }
}

proof fn lemma_reads_hardlink(f: DecoderView, distance: u64, target: Seq<u8>, rest: Seq<u8>) -> (g:
    DecoderView)
    requires
        acceptable(hardlink_item(distance, target)),
        f.input.unread == hardlink_item(distance, target).wire() + rest,
    ensures
        reads_leaf(f, Leaf::Hardlink { distance, target }, rest, g),
{
    let item = hardlink_item(distance, target);
    lemma_read_hardlink(f, distance, target, rest);
    lemma_end_position(f.input, item.wire().len());
    DecoderView {
        state: State::Default,
        header: header_of(PXAR_HARDLINK, item.content.len()),
        input: f.input.advanced(item.wire().len()),
        entry: EntryView {
            path: f.entry.path,
            metadata: MetadataView::empty(),
            kind: KindView::Hardlink { offset: distance, data: target.push(0) },
        },
        ..f
    }.handed_out().0
}

proof fn lemma_reads_symlink(f: DecoderView, m: MetadataView, target: Seq<u8>, rest: Seq<u8>) -> (g:
    DecoderView)
    requires
        all_acceptable(metadata_items(m)),
        readable_xattrs(m.xattrs),
        acceptable(symlink_item(target)),
        f.input.unread == wire_of(metadata_items(m)) + (symlink_item(target).wire() + rest),
    ensures
        reads_leaf(f, Leaf::Symlink { metadata: m, target }, rest, g),
{
    let h = lemma_open_entry(f, m, symlink_item(target).wire() + rest);
    let e = opened(f, h, wire_of(metadata_items(m)).len(), m);
    lemma_end_symlink(e, target, rest);
    lemma_end_position(f.input, wire_of(metadata_items(m)).len());
    lemma_end_position(e.input, symlink_item(target).wire().len());
    e.finish_entry()->Ok_0.handed_out().0
}

proof fn lemma_reads_device(f: DecoderView, m: MetadataView, device: Device, rest: Seq<u8>) -> (g:
    DecoderView)
    requires
        all_acceptable(metadata_items(m)),
        readable_xattrs(m.xattrs),
        f.input.unread == wire_of(metadata_items(m)) + (device_item(device).wire() + rest),
    ensures
        reads_leaf(f, Leaf::Device { metadata: m, device }, rest, g),
{
    let h = lemma_open_entry(f, m, device_item(device).wire() + rest);
    let e = opened(f, h, wire_of(metadata_items(m)).len(), m);
    lemma_end_device(e, device, rest);
    lemma_end_position(f.input, wire_of(metadata_items(m)).len());
    lemma_end_position(e.input, device_item(device).wire().len());
    e.finish_entry()->Ok_0.handed_out().0
}

proof fn lemma_reads_file(f: DecoderView, m: MetadataView, contents: Seq<u8>, rest: Seq<u8>) -> (g:
    DecoderView)
    requires
        all_acceptable(metadata_items(m)),
        readable_xattrs(m.xattrs),
        contents.len() + HEADER_SIZE <= u64::MAX,
        f.input.unread == wire_of(metadata_items(m)) + (header_of(
            PXAR_PAYLOAD,
            contents.len(),
        ).wire() + (contents + rest)),
    ensures
        reads_leaf(f, Leaf::File { metadata: m, contents }, rest, g),
{
    let header = header_of(PXAR_PAYLOAD, contents.len());
    let h = lemma_open_entry(f, m, header.wire() + (contents + rest));
    let e = opened(f, h, wire_of(metadata_items(m)).len(), m);
    lemma_end_payload(e, contents.len() as u64, contents + rest);
    header.lemma_wire_round_trip();
    lemma_end_position(f.input, wire_of(metadata_items(m)).len());
    lemma_end_position(e.input, HEADER_SIZE as nat);
    assert((contents + rest).take(contents.len() as int) =~= contents);
    assert((contents + rest).skip(contents.len() as int) =~= rest);
    e.finish_entry()->Ok_0.handed_out().0
}

proof fn lemma_reads_special(f: DecoderView, m: MetadataView, leaf: Leaf, rest: Seq<u8>) -> (g:
    DecoderView)
    requires
        all_acceptable(metadata_items(m)),
        readable_xattrs(m.xattrs),
        leaf == (Leaf::Fifo { metadata: m }) && m.file_type() == mode::IFIFO || leaf == (
        Leaf::Socket { metadata: m }) && m.file_type() == mode::IFSOCK,
        can_end(f, rest),
        f.input.unread == wire_of(metadata_items(m)) + rest,
    ensures
        reads_leaf(f, leaf, rest, g),
{
    let h = lemma_open_entry(f, m, rest);
    let e = opened(f, h, wire_of(metadata_items(m)).len(), m);
    lemma_end_position(f.input, wire_of(metadata_items(m)).len());
    if at_boundary(rest) {
        let (header, more) = choose|header: Header, more: Seq<u8>|
            is_boundary(header) && rest == #[trigger] (header.wire() + more);
        lemma_end_boundary(e, header, more);
        header.lemma_wire_round_trip();
        lemma_end_position(e.input, HEADER_SIZE as nat);
    } else {
        lemma_end_eof(e);
    }
    e.finish_entry()->Ok_0.handed_out().0
}

/// What stands after the name of a leaf is read as it was written.
pub proof fn lemma_reads_leaf(f: DecoderView, leaf: Leaf, rest: Seq<u8>) -> (g: DecoderView)
    requires
        leaf.accepted(),
        readable_xattrs(leaf.metadata().xattrs),
        can_end(f, rest),
        f.input.unread == leaf.body() + rest,
    ensures
        reads_leaf(f, leaf, rest, g),
{
    let head = wire_of(metadata_items(leaf.metadata()));
    match leaf {
        Leaf::Hardlink { distance, target } => lemma_reads_hardlink(f, distance, target, rest),
        Leaf::Symlink { metadata, target } => {
            assert(leaf.body() + rest =~= head + (symlink_item(target).wire() + rest));
            lemma_reads_symlink(f, metadata, target, rest)
        },
        Leaf::Device { metadata, device } => {
            assert(leaf.body() + rest =~= head + (device_item(device).wire() + rest));
            lemma_reads_device(f, metadata, device, rest)
        },
        Leaf::File { metadata, contents } => {
            assert(leaf.body() + rest =~= head + (header_of(PXAR_PAYLOAD, contents.len()).wire() + (
            contents + rest)));
            lemma_reads_file(f, metadata, contents, rest)
        },
        Leaf::Fifo { metadata } => lemma_reads_special(f, metadata, leaf, rest),
        Leaf::Socket { metadata } => lemma_reads_special(f, metadata, leaf, rest),
    }
}

/// A leaf is read as it was written.
proof fn lemma_read_leaf(
    e: EncoderView,
    start: Option<int>,
    d: DecoderView,
    dirs: Seq<Seq<u8>>,
    name: Seq<u8>,
    leaf: Leaf,
    rest: Seq<u8>,
) -> (g: DecoderView)
    requires
        filename_error(name) is None,
        leaf.accepted(),
        readable_xattrs(leaf.metadata().xattrs),
        at_boundary(rest),
        pending(d, dirs, filename_item(name).wire() + (leaf.body() + rest)),
        ends_after(d, e, start, filename_item(name).wire() + (leaf.body() + rest)),
    ensures
        yields(
            d,
            seq![
                Listed {
                    entry: EntryView {
                        path: joined(dirs.last(), name),
                        metadata: leaf.metadata(),
                        kind: leaf.kind(contents_at(e, name, leaf.metadata(), start)),
                    },
                    contents: leaf.contents(),
                },
            ],
            g,
        ),
        end_position(g.input) == end_position(d.input),
        g.with_goodbye_tables == d.with_goodbye_tables,
        pending(g, dirs, rest),
{
    let f = lemma_next_name(d, dirs, name, leaf.body() + rest);
    let path = joined(dirs.last(), name);
    lemma_joined_prefix(dirs.last(), name);
    let g = lemma_reads_leaf(f, leaf, rest);
    let kind = leaf.kind(contents_at(e, name, leaf.metadata(), start));
    assert(kind == leaf.kind(contents_position(f, leaf))) by {
        reveal(end_position);
    }
    let first = Listed {
        entry: EntryView { path, metadata: leaf.metadata(), kind },
        contents: leaf.contents(),
    };
    lemma_yields_one(d, first, g);
    g
}

/// A directory is read as it was written, and entered.
proof fn lemma_read_directory(
    d: DecoderView,
    dirs: Seq<Seq<u8>>,
    name: Seq<u8>,
    metadata: MetadataView,
    rest: Seq<u8>,
) -> (g: DecoderView)
    requires
        filename_error(name) is None,
        all_acceptable(metadata_items(metadata)),
        metadata.file_type() == mode::IFDIR,
        readable_xattrs(metadata.xattrs),
        at_boundary(rest),
        pending(
            d,
            dirs,
            filename_item(name).wire() + (wire_of(metadata_items(metadata)) + rest),
        ),
    ensures
        yields(
            d,
            seq![
                Listed {
                    entry: EntryView {
                        path: joined(dirs.last(), name),
                        metadata,
                        kind: KindView::Directory,
                    },
                    contents: None,
                },
            ],
            g,
        ),
        end_position(g.input) == end_position(d.input),
        g.with_goodbye_tables == d.with_goodbye_tables,
        pending(g, dirs.push(joined(dirs.last(), name)), rest),
{
    let f = lemma_next_name(d, dirs, name, wire_of(metadata_items(metadata)) + rest);
    let path = joined(dirs.last(), name);
    lemma_joined_prefix(dirs.last(), name);
    let n = wire_of(metadata_items(metadata)).len();
    let (header, more) = choose|header: Header, more: Seq<u8>|
        is_boundary(header) && rest == #[trigger] (header.wire() + more);
    let h = lemma_open_entry(f, metadata, rest);
    let e = opened(f, h, n, metadata);
    lemma_end_boundary(e, header, more);
    header.lemma_wire_round_trip();
    lemma_end_position(f.input, n);
    lemma_end_position(e.input, HEADER_SIZE as nat);
    let g = e.finish_entry()->Ok_0.handed_out().0;
    let inner = dirs.push(path);
    assert(path_lengths_of(inner) =~= path_lengths_of(dirs).push(path.len()));
    assert forall|j: int, k: int| 0 <= j <= k < inner.len() implies (#[trigger] inner[j]).len()
        <= (#[trigger] inner[k]).len() && inner[k].take(inner[j].len() as int) == inner[j] by {
        if k < dirs.len() {
            assert(inner[j] == dirs[j] && inner[k] == dirs[k]);
        } else if j < dirs.len() {
            let last = dirs.len() - 1;
            assert(inner[j] == dirs[j] && dirs[last] == dirs.last());
            assert(path.take(inner[j].len() as int) =~= dirs[last].take(inner[j].len() as int));
        } else {
            assert(path.take(path.len() as int) =~= path);
        }
    }
    assert(path.take(path.len() as int) =~= path);
    lemma_yields_one(
        d,
        Listed {
            entry: EntryView { path, metadata, kind: KindView::Directory },
            contents: None,
        },
        g,
    );
    g
}

/// The end of a directory is reported where that is asked for.
proof fn lemma_read_end(
    d: DecoderView,
    dirs: Seq<Seq<u8>>,
    content: Seq<u8>,
    rest: Seq<u8>,
) -> (g: DecoderView)
    requires
        acceptable(ItemView { htype: PXAR_GOODBYE, content }),
        dirs.len() > 1,
        pending(d, dirs, (ItemView { htype: PXAR_GOODBYE, content }).wire() + rest),
    ensures
        yields(d, directory_end(d.with_goodbye_tables), g),
        end_position(g.input) == end_position(d.input),
        g.with_goodbye_tables == d.with_goodbye_tables,
        pending(g, dirs.drop_last(), rest),
{
    reveal_with_fuel(yields, 2);
    reveal(reported);
    let (b, g) = lemma_leave_directory(d, dirs, content, rest);
    assert(yields(b, Seq::empty(), g));
    assert(directory_end(true).skip(1) =~= Seq::<Listed>::empty());
    g
}

/// What is written grows by `delta`, and the position moves on with it.
pub open spec fn grown(e: EncoderView, f: EncoderView, delta: Seq<u8>) -> bool {
    &&& f.archive == e.archive + delta
    &&& f.payload == e.payload
    &&& e.states.len() > 0
    &&& f.states.len() == e.states.len()
    &&& f.last().write_position == e.last().write_position + delta.len()
}

pub proof fn lemma_settled(e: EncoderView)
    requires
        e.open is Some ==> e.states.len() > 0,
    ensures
        e.settled().archive == e.archive,
        e.settled().payload == e.payload,
        e.settled().states.len() == e.states.len(),
        e.states.len() > 0 ==> e.settled().last().write_position == e.last().write_position,
        e.settled().open is None,
{
}

/// What is written for a name and metadata.
pub proof fn lemma_started(e: EncoderView, metadata: Option<MetadataView>, name: Seq<u8>)
    requires
        e.start_file(metadata, name) is Ok,
    ensures
        filename_error(name) is None,
        metadata matches Some(m) ==> all_acceptable(metadata_items(m)),
        grown(
            e,
            e.start_file(metadata, name)->Ok_0,
            filename_item(name).wire() + match metadata {
                Some(m) => wire_of(metadata_items(m)),
                None => Seq::empty(),
            },
        ),
{
    let item = filename_item(name);
    let f = e.put_filename(name)->Ok_0;
    lemma_put(e, item);
    match metadata {
        Some(m) => {
            lemma_put_items(f.cursor(), metadata_items(m));
            lemma_put_accepted(f.cursor(), metadata_items(m));
            assert(e.archive + item.wire() + wire_of(metadata_items(m)) =~= e.archive + (item.wire()
                + wire_of(metadata_items(m))));
        },
        None => {
            assert(item.wire() + Seq::<u8>::empty() =~= item.wire());
        },
    }
}

/// What is written for an item.
pub proof fn lemma_put(e: EncoderView, item: ItemView)
    requires
        e.put_item(item) is Ok,
    ensures
        acceptable(item),
        grown(e, e.put_item(item)->Ok_0, item.wire()),
{
    let header = header_of(item.htype, item.content.len());
    header.lemma_wire_round_trip();
    assert(e.archive + header.wire() + item.content =~= e.archive + item.wire());
}

/// What is written for an entry.
pub proof fn lemma_added(
    e: EncoderView,
    metadata: Option<MetadataView>,
    name: Seq<u8>,
    item: Option<ItemView>,
)
    requires
        e.open is Some ==> e.states.len() > 0,
        e.add_entry(metadata, name, item) is Ok,
    ensures
        filename_error(name) is None,
        metadata matches Some(m) ==> all_acceptable(metadata_items(m)),
        item matches Some(i) ==> acceptable(i),
        e.add_entry(metadata, name, item)->Ok_0.open is None,
        grown(
            e,
            e.add_entry(metadata, name, item)->Ok_0,
            filename_item(name).wire() + ((match metadata {
                Some(m) => wire_of(metadata_items(m)),
                None => Seq::empty(),
            }) + (match item {
                Some(i) => i.wire(),
                None => Seq::empty(),
            })),
        ),
{
    lemma_settled(e);
    let s = e.settled();
    lemma_started(s, metadata, name);
    let f = s.start_file(metadata, name)->Ok_0;
    let m = match metadata {
        Some(m) => wire_of(metadata_items(m)),
        None => Seq::empty(),
    };
    match item {
        Some(i) => {
            lemma_put(f, i);
            assert(e.archive + (filename_item(name).wire() + m) + i.wire() =~= e.archive + (
            filename_item(name).wire() + (m + i.wire())));
        },
        None => {
            assert(filename_item(name).wire() + (m + Seq::<u8>::empty()) =~= filename_item(
                name,
            ).wire() + m);
        },
    }
}

/// What is written for a leaf.
pub proof fn lemma_leaf_written(e: EncoderView, name: Seq<u8>, leaf: Leaf)
    requires
        e.payload is None,
        e.open is Some ==> e.states.len() > 0,
        leaf.encode(e, name) is Ok,
    ensures
        filename_error(name) is None,
        leaf.accepted(),
        grown(e, leaf.encode(e, name)->Ok_0, filename_item(name).wire() + leaf.body()),
{
    reveal(Leaf::encode);
    match leaf {
        Leaf::Symlink { metadata, target } => {
            lemma_added(e, Some(metadata), name, Some(symlink_item(target)));
        },
        Leaf::Hardlink { distance, target } => {
            lemma_settled(e);
            lemma_added(e.settled(), None, name, Some(hardlink_item(distance, target)));
            assert(Seq::<u8>::empty() + hardlink_item(distance, target).wire() =~= hardlink_item(
                distance,
                target,
            ).wire());
        },
        Leaf::Device { metadata, device } => {
            lemma_added(e, Some(metadata), name, Some(device_item(device)));
        },
        Leaf::Fifo { metadata } => {
            lemma_added(e, Some(metadata), name, None);
            assert(wire_of(metadata_items(metadata)) + Seq::<u8>::empty() =~= wire_of(
                metadata_items(metadata),
            ));
        },
        Leaf::Socket { metadata } => {
            lemma_added(e, Some(metadata), name, None);
            assert(wire_of(metadata_items(metadata)) + Seq::<u8>::empty() =~= wire_of(
                metadata_items(metadata),
            ));
        },
        Leaf::File { metadata, contents } => {
            lemma_file_written(e, name, metadata, contents);
        },
    }
}

/// What is written for a file.
proof fn lemma_file_written(
    e: EncoderView,
    name: Seq<u8>,
    metadata: MetadataView,
    contents: Seq<u8>,
)
    requires
        e.payload is None,
        e.open is Some ==> e.states.len() > 0,
        contents.len() <= u64::MAX,
        e.add_file(metadata, name, contents.len() as u64, contents) is Ok,
    ensures
        ({
            let f = e.add_file(metadata, name, contents.len() as u64, contents)->Ok_0;
            let leaf = Leaf::File { metadata, contents };
            &&& filename_error(name) is None
            &&& leaf.accepted()
            &&& grown(e, f, filename_item(name).wire() + leaf.body())
        }),
{
    lemma_settled(e);
    let s = e.settled();
    let size = contents.len() as u64;
    lemma_started(s, Some(metadata), name);
    let f = s.start_file(Some(metadata), name)->Ok_0;
    let header = header_of(PXAR_PAYLOAD, size as nat);
    header.lemma_wire_round_trip();
    let g = e.create_file(metadata, name, size)->Ok_0;
    assert(g.archive == f.archive + header.wire());
    let h = g.with_contents(contents);
    let leaf = Leaf::File { metadata, contents };
    assert(h.archive =~= e.archive + (filename_item(name).wire() + leaf.body()));
}

/// What is written for a directory before its files.
pub proof fn lemma_directory_written(e: EncoderView, name: Seq<u8>, metadata: MetadataView)
    requires
        e.payload is None,
        e.open is Some ==> e.states.len() > 0,
        enter(e, name, metadata) is Ok,
    ensures
        ({
            let f = enter(e, name, metadata)->Ok_0;
            &&& filename_error(name) is None
            &&& all_acceptable(metadata_items(metadata))
            &&& metadata.file_type() == mode::IFDIR
            &&& f.archive == e.archive + (filename_item(name).wire() + wire_of(
                metadata_items(metadata),
            ))
            &&& f.payload is None
            &&& e.states.len() > 0
            &&& f.states.len() == e.states.len() + 1
            &&& f.last().write_position == e.last().write_position + filename_item(name).wire().len()
                + wire_of(metadata_items(metadata)).len()
            &&& f.open is None
        }),
{
    reveal(enter);
    lemma_settled(e);
    let s = e.settled();
    let item = filename_item(name);
    lemma_put(s, item);
    let named = s.put_filename(name)->Ok_0;
    lemma_put_items(named.cursor(), metadata_items(metadata));
    lemma_put_accepted(named.cursor(), metadata_items(metadata));
    assert(e.archive + item.wire() + wire_of(metadata_items(metadata)) =~= e.archive + (item.wire()
        + wire_of(metadata_items(metadata))));
}

/// What is written at the end of a directory.
pub proof fn lemma_finish_written(e: EncoderView)
    requires
        e.payload is None,
        e.open is Some ==> e.states.len() > 0,
        leave(e) is Ok,
    ensures
        ({
            let f = leave(e)->Ok_0;
            let item = e.settled().goodbye_item();
            &&& acceptable(item)
            &&& item.htype == PXAR_GOODBYE
            &&& f.archive == e.archive + item.wire()
            &&& f.payload is None
            &&& e.states.len() > 0
            &&& e.last().write_position + item.wire().len() <= u64::MAX
            &&& f.states.len() == e.states.len() - 1
            &&& f.states.len() > 0 ==> f.last().write_position == e.last().write_position
                + item.wire().len()
            &&& f.open is None
        }),
{
    reveal(leave);
    lemma_settled(e);
    lemma_put(e.settled(), e.settled().goodbye_item());
}

/// What is written for files: some bytes, which start with a name unless there are none.
pub open spec fn files_delta(e: EncoderView, files: Files) -> Seq<u8> {
    encode_files(e, files)->Ok_0.archive.skip(e.archive.len() as int)
}

pub proof fn lemma_files_written(e: EncoderView, files: Files, rest: Seq<u8>)
    requires
        e.payload is None,
        e.states.len() > 0,
        encode_files(e, files) is Ok,
        at_boundary(rest),
    ensures
        grown(e, encode_files(e, files)->Ok_0, files_delta(e, files)),
        at_boundary(files_delta(e, files) + rest),
    decreases files,
{
    let z = encode_files(e, files)->Ok_0;
    match files {
        Files::Nil => {
            assert(files_delta(e, files) =~= Seq::<u8>::empty());
            assert(e.archive + files_delta(e, files) =~= e.archive);
            assert(files_delta(e, files) + rest =~= rest);
        },
        Files::Leaf { name, leaf, next } => {
            lemma_leaf_written(e, name, leaf);
            let f = leaf.encode(e, name)->Ok_0;
            lemma_files_written(f, *next, rest);
            let more = files_delta(f, *next);
            let item = filename_item(name);
            assert(z.archive =~= e.archive + (item.wire() + leaf.body() + more));
            assert(files_delta(e, files) =~= item.wire() + leaf.body() + more);
            lemma_item_boundary(item, leaf.body() + more + rest);
            assert(files_delta(e, files) + rest =~= item.wire() + (leaf.body() + more + rest));
        },
        Files::Directory { name, metadata, files: inner, next } => {
            lemma_directory_written(e, name, metadata);
            let f = enter(e, name, metadata)->Ok_0;
            lemma_files_written(f, *inner, rest);
            let g = encode_files(f, *inner)->Ok_0;
            lemma_finish_written(g);
            let h = leave(g)->Ok_0;
            lemma_files_written(h, *next, rest);
            let item = filename_item(name);
            let body = wire_of(metadata_items(metadata)) + files_delta(f, *inner)
                + g.settled().goodbye_item().wire() + files_delta(h, *next);
            assert(z.archive =~= e.archive + (item.wire() + body));
            assert(files_delta(e, files) =~= item.wire() + body);
            lemma_item_boundary(item, body + rest);
            assert(files_delta(e, files) + rest =~= item.wire() + (body + rest));
        },
    }
}

/// What is written for a leaf and the files after it.
proof fn lemma_leaf_delta(e: EncoderView, name: Seq<u8>, leaf: Leaf, next: Files, rest: Seq<u8>)
    requires
        e.payload is None,
        e.open is Some ==> e.states.len() > 0,
        encode_files(e, Files::Leaf { name, leaf, next: Box::new(next) }) is Ok,
        at_boundary(rest),
    ensures
        ({
            let f = leaf.encode(e, name)->Ok_0;
            &&& leaf.encode(e, name) is Ok
            &&& filename_error(name) is None
            &&& leaf.accepted()
            &&& f.payload is None
            &&& f.states.len() > 0
            &&& encode_files(f, next) is Ok
            &&& at_boundary(files_delta(f, next) + rest)
            &&& files_delta(e, Files::Leaf { name, leaf, next: Box::new(next) }) + rest
                == filename_item(name).wire() + (leaf.body() + (files_delta(f, next) + rest))
            &&& f.archive.len() == e.archive.len() + filename_item(name).wire().len()
                + leaf.body().len()
        }),
{
    let files = Files::Leaf { name, leaf, next: Box::new(next) };
    lemma_leaf_written(e, name, leaf);
    let f = leaf.encode(e, name)->Ok_0;
    lemma_files_written(f, next, rest);
    let more = files_delta(f, next);
    let z = encode_files(e, files)->Ok_0;
    assert(z.archive =~= e.archive + (filename_item(name).wire() + leaf.body() + more));
    assert(files_delta(e, files) =~= filename_item(name).wire() + leaf.body() + more);
    assert(files_delta(e, files) + rest =~= filename_item(name).wire() + (leaf.body() + (more
        + rest)));
}

/// What is written for a directory and the files after it.
proof fn lemma_directory_delta(
    e: EncoderView,
    name: Seq<u8>,
    metadata: MetadataView,
    inner: Files,
    next: Files,
    rest: Seq<u8>,
)
    requires
        e.payload is None,
        e.open is Some ==> e.states.len() > 0,
        encode_files(
            e,
            Files::Directory { name, metadata, files: Box::new(inner), next: Box::new(next) },
        ) is Ok,
        at_boundary(rest),
    ensures
        ({
            let files = Files::Directory {
                name,
                metadata,
                files: Box::new(inner),
                next: Box::new(next),
            };
            let f = enter(e, name, metadata)->Ok_0;
            let g = encode_files(f, inner)->Ok_0;
            let h = leave(g)->Ok_0;
            let bye = g.settled().goodbye_item();
            let after = bye.wire() + (files_delta(h, next) + rest);
            &&& enter(e, name, metadata) is Ok
            &&& encode_files(f, inner) is Ok
            &&& leave(g) is Ok
            &&& encode_files(h, next) is Ok
            &&& filename_error(name) is None
            &&& all_acceptable(metadata_items(metadata))
            &&& metadata.file_type() == mode::IFDIR
            &&& f.payload is None
            &&& f.states.len() > 0
            &&& h.payload is None
            &&& h.open is None
            &&& acceptable(bye)
            &&& bye.htype == PXAR_GOODBYE
            &&& at_boundary(files_delta(h, next) + rest)
            &&& at_boundary(after)
            &&& at_boundary(files_delta(f, inner) + after)
            &&& files_delta(e, files) + rest == filename_item(name).wire() + (wire_of(
                metadata_items(metadata),
            ) + (files_delta(f, inner) + after))
            &&& f.archive.len() == e.archive.len() + filename_item(name).wire().len() + wire_of(
                metadata_items(metadata),
            ).len()
            &&& h.archive.len() == f.archive.len() + files_delta(f, inner).len()
                + bye.wire().len()
        }),
{
    let files = Files::Directory { name, metadata, files: Box::new(inner), next: Box::new(next) };
    lemma_directory_written(e, name, metadata);
    let f = enter(e, name, metadata)->Ok_0;
    lemma_files_written(f, inner, rest);
    let g = encode_files(f, inner)->Ok_0;
    lemma_finish_written(g);
    let h = leave(g)->Ok_0;
    lemma_files_written(h, next, rest);
    let bye = g.settled().goodbye_item();
    let more = files_delta(h, next);
    let after = bye.wire() + (more + rest);
    lemma_item_boundary(bye, more + rest);
    lemma_files_written(f, inner, after);
    let item = filename_item(name);
    let head = wire_of(metadata_items(metadata));
    let within = files_delta(f, inner);
    let z = encode_files(e, files)->Ok_0;
    assert(z.archive =~= e.archive + (item.wire() + (head + within + bye.wire() + more)));
    assert(files_delta(e, files) =~= item.wire() + (head + within + bye.wire() + more));
    assert(files_delta(e, files) + rest =~= item.wire() + (head + (within + after)));
}

/// The input of a decoder ends with `rest`, which follows what `e` has written to an archive that
/// starts at `start`, where positions are known.
pub open spec fn ends_after(d: DecoderView, e: EncoderView, start: Option<int>, rest: Seq<u8>) -> bool {
    end_position(d.input) == match start {
        Some(at) => Some(at + e.archive.len() + rest.len()),
        None => None,
    }
}

/// Files are read as they were written.
proof fn lemma_read_files(
    e: EncoderView,
    files: Files,
    start: Option<int>,
    d: DecoderView,
    dirs: Seq<Seq<u8>>,
    rest: Seq<u8>,
) -> (g: DecoderView)
    requires
        e.payload is None,
        e.open is Some ==> e.states.len() > 0,
        encode_files(e, files) is Ok,
        readable(files),
        at_boundary(rest),
        dirs.len() > 0,
        pending(d, dirs, files_delta(e, files) + rest),
        ends_after(d, e, start, files_delta(e, files) + rest),
    ensures
        yields(d, listing(e, dirs.last(), files, start, d.with_goodbye_tables), g),
        end_position(g.input) == end_position(d.input),
        g.with_goodbye_tables == d.with_goodbye_tables,
        pending(g, dirs, rest),
    decreases files,
{
    let dir = dirs.last();
    let tables = d.with_goodbye_tables;
    match files {
        Files::Nil => {
            assert(files_delta(e, files) + rest =~= rest);
            lemma_yields_nothing(d);
            d
        },
        Files::Leaf { name, leaf, next } => {
            lemma_leaf_delta(e, name, leaf, *next, rest);
            let f = leaf.encode(e, name)->Ok_0;
            let after = files_delta(f, *next) + rest;
            let d1 = lemma_read_leaf(e, start, d, dirs, name, leaf, after);
            let g = lemma_read_files(f, *next, start, d1, dirs, rest);
            let first = Listed {
                entry: EntryView {
                    path: joined(dir, name),
                    metadata: leaf.metadata(),
                    kind: leaf.kind(contents_at(e, name, leaf.metadata(), start)),
                },
                contents: leaf.contents(),
            };
            lemma_yields_concat(d, seq![first], d1, listing(f, dir, *next, start, tables), g);
            g
        },
        Files::Directory { name, metadata, files: inner, next } => {
            lemma_directory_delta(e, name, metadata, *inner, *next, rest);
            let f = enter(e, name, metadata)->Ok_0;
            let ge = encode_files(f, *inner)->Ok_0;
            let h = leave(ge)->Ok_0;
            let bye = ge.settled().goodbye_item();
            let after = files_delta(h, *next) + rest;
            let within = files_delta(f, *inner) + (bye.wire() + after);
            let d1 = lemma_read_directory(d, dirs, name, metadata, within);
            let path = joined(dir, name);
            let deeper = dirs.push(path);
            let d2 = lemma_read_files(f, *inner, start, d1, deeper, bye.wire() + after);
            let d3 = lemma_read_end(d2, deeper, bye.content, after);
            assert(deeper.drop_last() =~= dirs);
            let g = lemma_read_files(h, *next, start, d3, dirs, rest);
            let first = Listed {
                entry: EntryView { path, metadata, kind: KindView::Directory },
                contents: None,
            };
            let inner_listing = listing(f, path, *inner, start, tables);
            let inside = seq![first] + inner_listing;
            lemma_yields_concat(d, seq![first], d1, inner_listing, d2);
            lemma_yields_concat(d, inside, d2, directory_end(tables), d3);
            let whole = inside + directory_end(tables);
            lemma_yields_concat(d, whole, d3, listing(h, dir, *next, start, tables), g);
            g
        },
    }
}

/// The entry of a directory is read as it was written, and then its files are pending.
proof fn lemma_read_root(d: DecoderView, metadata: MetadataView, rest: Seq<u8>) -> (d1: DecoderView)
    requires
        all_acceptable(metadata_items(metadata)),
        metadata.file_type() == mode::IFDIR,
        readable_xattrs(metadata.xattrs),
        d.state is Begin,
        d.path_lengths.len() == 0,
        d.input.unread == wire_of(metadata_items(metadata)) + rest,
        at_boundary(rest),
    ensures
        reported(d) == Ok::<_, Error>(
            (
                d1,
                Some(
                    EntryView { path: d.entry.path, metadata, kind: KindView::Directory },
                ),
            ),
        ),
        pending(d1, seq![d.entry.path], rest),
        end_position(d1.input) == end_position(d.input),
        d1.with_goodbye_tables == d.with_goodbye_tables,
{
    let head = wire_of(metadata_items(metadata));
    let root = d.entry.path;
    let h = lemma_open_entry(d, metadata, rest);
    let o = opened(d, h, head.len(), metadata);
    let (header, more) = choose|header: Header, more: Seq<u8>|
        is_boundary(header) && rest == #[trigger] (header.wire() + more);
    lemma_end_boundary(o, header, more);
    header.lemma_wire_round_trip();
    lemma_end_position(d.input, head.len());
    lemma_end_position(o.input, HEADER_SIZE as nat);
    let d1 = o.finish_entry()->Ok_0.handed_out().0;
    let entry = EntryView { path: root, metadata, kind: KindView::Directory };
    assert(reported(d) == Ok::<_, Error>((d1, Some(entry)))) by {
        reveal(reported);
    }
    assert(d1.path_lengths =~= path_lengths_of(seq![root]));
    assert(root.take(root.len() as int) =~= root);
    assert(nested(seq![root]));
    d1
}

/// A directory whose files are added by `e` is read as it was written, up to its end.
pub proof fn lemma_read_whole_directory(
    e: EncoderView,
    metadata: MetadataView,
    files: Files,
    start: Option<int>,
    d: DecoderView,
)
    requires
        e.payload is None,
        e.states.len() > 0,
        encode_files(e, files) is Ok,
        leave(encode_files(e, files)->Ok_0) is Ok,
        all_acceptable(metadata_items(metadata)),
        metadata.file_type() == mode::IFDIR,
        readable_xattrs(metadata.xattrs),
        readable(files),
        d.state is Begin,
        d.path_lengths.len() == 0,
        ({
            let bye = encode_files(e, files)->Ok_0.settled().goodbye_item();
            let rest = files_delta(e, files) + bye.wire();
            &&& d.input.unread == wire_of(metadata_items(metadata)) + rest
            &&& ends_after(d, e, start, rest)
        }),
    ensures
        reported(d) matches Ok((_, Some(entry))) && entry == (EntryView {
            path: d.entry.path,
            metadata,
            kind: KindView::Directory,
        }),
        decodes_to(
            reported(d)->Ok_0.0,
            listing(e, d.entry.path, files, start, d.with_goodbye_tables) + directory_end(
                d.with_goodbye_tables,
            ),
        ),
{
    let root = d.entry.path;
    let f = encode_files(e, files)->Ok_0;
    let bye = f.settled().goodbye_item();
    // what follows the directory does not matter, so it can be nothing
    let nothing = Seq::<u8>::empty();
    let within = files_delta(e, files);
    let rest = within + (bye.wire() + nothing);
    lemma_some_boundary();
    let any = choose|rest: Seq<u8>| at_boundary(rest);
    lemma_files_written(e, files, any);
    lemma_finish_written(f);
    lemma_item_boundary(bye, nothing);
    lemma_files_written(e, files, bye.wire() + nothing);
    assert(bye.wire() + nothing =~= bye.wire());
    let dirs = seq![root];
    let d1 = lemma_read_root(d, metadata, rest);
    let d2 = lemma_read_files(e, files, start, d1, dirs, bye.wire() + nothing);
    let d3 = lemma_leave_root(d2, dirs, bye.content, nothing);
    let tables = d.with_goodbye_tables;
    assert(yields(d2, directory_end(tables), d3)) by {
        reveal(reported);
        reveal_with_fuel(yields, 2);
        assert(directory_end(true).skip(1) =~= Seq::<Listed>::empty());
        assert(yields(d3, Seq::empty(), d3));
    }
    let inside = listing(e, root, files, start, tables);
    lemma_yields_concat(d1, inside, d2, directory_end(tables), d3);
    assert(reported(d3) matches Ok((_, None))) by {
        reveal(reported);
    }
    lemma_yields_to_end(d1, inside + directory_end(tables), d3);
}

/// What is written for all files of a directory and at its end.
pub proof fn lemma_whole_directory_written(e: EncoderView, files: Files)
    requires
        e.payload is None,
        e.states.len() > 0,
        encode_files(e, files) is Ok,
        leave(encode_files(e, files)->Ok_0) is Ok,
    ensures
        leave(encode_files(e, files)->Ok_0)->Ok_0.archive == e.archive + (files_delta(e, files)
            + encode_files(e, files)->Ok_0.settled().goodbye_item().wire()),
{
    let f = encode_files(e, files)->Ok_0;
    lemma_some_boundary();
    lemma_files_written(e, files, choose|rest: Seq<u8>| at_boundary(rest));
    lemma_finish_written(f);
    assert(leave(f)->Ok_0.archive =~= e.archive + (files_delta(e, files)
        + f.settled().goodbye_item().wire()));
}

/// A directory comes in front of what is in it.
proof fn lemma_decodes_directory(d: DecoderView, entry: EntryView, more: Seq<Listed>)
    requires
        reported(d) matches Ok((_, Some(first))) && first == entry,
        decodes_to(reported(d)->Ok_0.0, more),
    ensures
        decodes_to(d, seq![Listed { entry, contents: None }] + more),
{
    let all = seq![Listed { entry, contents: None }] + more;
    assert(all.skip(1) =~= more);
}

/// Decoding an archive gives back what was encoded: the root directory and all files in it, in the
/// order in which they were added, with their paths, metadata, kinds and contents, and then the
/// end of the archive. Where the input knows positions, the archive starting at `start`, the
/// position of the contents of each file is reported, too. Goodbye tables are reported where that
/// is asked for.
pub proof fn law_archive_round_trip(
    metadata: MetadataView,
    files: Files,
    start: Option<int>,
    tables: bool,
)
    requires
        encode_archive(metadata, files) is Ok,
        readable_xattrs(metadata.xattrs),
        readable(files),
    ensures
        decodes_to(
            (DecoderView {
                with_goodbye_tables: tables,
                ..initial_decoder(
                    InputView {
                        unread: encode_archive(metadata, files)->Ok_0.archive,
                        offset: start,
                    },
                    seq![SLASH],
                    false,
                )
            }),
            seq![
                Listed {
                    entry: EntryView {
                        path: seq![SLASH],
                        metadata,
                        kind: KindView::Directory,
                    },
                    contents: None,
                },
            ] + listing(
                new_encoder(Seq::empty(), None, metadata, None)->Ok_0,
                seq![SLASH],
                files,
                start,
                tables,
            ) + directory_end(tables),
        ),
{
    let e = new_encoder(Seq::empty(), None, metadata, None)->Ok_0;
    lemma_root_written(metadata);
    let f = encode_files(e, files)->Ok_0;
    let z = leave(f)->Ok_0;
    assert(encode_archive(metadata, files) == Ok::<_, Error>(z));
    lemma_whole_directory_written(e, files);
    let root = seq![SLASH];
    let d = DecoderView {
        with_goodbye_tables: tables,
        ..initial_decoder(InputView { unread: z.archive, offset: start }, root, false)
    };
    assert(ends_after(d, e, start, files_delta(e, files) + f.settled().goodbye_item().wire())) by {
        reveal(end_position);
    }
    lemma_read_whole_directory(e, metadata, files, start, d);
    let entry = EntryView { path: root, metadata, kind: KindView::Directory };
    let more = listing(e, root, files, start, tables);
    let end = directory_end(tables);
    lemma_decodes_directory(d, entry, more + end);
    assert(seq![Listed { entry, contents: None }] + more + end =~= seq![
        Listed { entry, contents: None },
    ] + (more + end));
}

pub proof fn lemma_some_boundary()
    ensures
        exists|rest: Seq<u8>| at_boundary(rest),
{
    let item = ItemView { htype: PXAR_GOODBYE, content: Seq::empty() };
    lemma_item_boundary(item, Seq::empty());
}

/// What is written for the root directory before its files.
pub proof fn lemma_root_written(metadata: MetadataView)
    requires
        new_encoder(Seq::empty(), None, metadata, None) is Ok,
    ensures
        ({
            let e = new_encoder(Seq::empty(), None, metadata, None)->Ok_0;
            &&& all_acceptable(metadata_items(metadata))
            &&& metadata.file_type() == mode::IFDIR
            &&& e.archive == wire_of(metadata_items(metadata))
            &&& e.payload is None
            &&& e.states.len() == 1
            &&& e.last().write_position == e.archive.len()
            &&& e.last().entry_offset == 0
            &&& e.last().items.len() == 0
            &&& e.open is None
        }),
{
    let version = crate::format::FormatVersion::Version1;
    let start = EncoderView {
        archive: Seq::empty(),
        payload: None,
        states: seq![StateView::initial()],
        open: None,
        finished: false,
        version,
    };
    assert(preamble_items(version, None) =~= Seq::<ItemView>::empty());
    crate::encoder::model::lemma_put_nothing(start);
    lemma_put_items(start.cursor(), metadata_items(metadata));
    lemma_put_accepted(start.cursor(), metadata_items(metadata));
    assert(Seq::<u8>::empty() + wire_of(metadata_items(metadata)) =~= wire_of(
        metadata_items(metadata),
    ));
}

} // verus!
