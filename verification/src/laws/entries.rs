//! Reading entries gives back what was written.

use vstd::prelude::*;

use crate::decoder::model::{kind_of_type, no_header, DecoderView, State, StepView};
use crate::decoder::read::{lemma_advanced, InputView};
use crate::encoder::model::{
    attribute_items, device_item, filename_item, hardlink_item, metadata_items, stat_item,
    symlink_item,
};
use crate::encoder::write::{header_of, wire_of, ItemView};
use crate::entry::{EntryView, KindView};
use crate::errors::Error;
use crate::format::wire::{le64, lemma_le64_len, Wire};
use crate::format::{
    header_error, Device, Header, HEADER_SIZE, PXAR_DEVICE, PXAR_ENTRY, PXAR_FILENAME, PXAR_GOODBYE,
    PXAR_HARDLINK, PXAR_PAYLOAD, PXAR_SYMLINK,
};
use crate::laws::items::{
    acceptable, all_acceptable, lemma_acceptable_parts, lemma_content, lemma_header, lemma_load,
    lemma_read_attributes, lemma_wire_of_concat, lemma_wire_of_one, loaded, past, readable_xattrs,
};
use crate::metadata::MetadataView;
use crate::path::joined;
use crate::util::filename_error;

verus! {

/// A decoder that has read `n` bytes of an entry, the last header among them being `header`, and
/// thereby put together `metadata`.
pub open spec fn opened(
    d: DecoderView,
    header: Header,
    n: nat,
    metadata: MetadataView,
) -> DecoderView {
    DecoderView {
        input: d.input.advanced(n),
        header,
        entry: EntryView { path: d.entry.path, metadata, kind: KindView::GoodbyeTable },
        state: State::Default,
        ..d
    }
}

/// What becomes of an entry whose metadata has been read.
pub open spec fn concluded(e: DecoderView) -> Result<Option<(DecoderView, EntryView)>, Error> {
    match e.finish_entry() {
        Ok(f) => Ok(Some(f.handed_out())),
        Err(e) => Err(e),
    }
}

/// Metadata is read as it was written.
pub proof fn lemma_open_entry(d: DecoderView, m: MetadataView, rest: Seq<u8>) -> (h: Header)
    requires
        readable_xattrs(m.xattrs),
        all_acceptable(metadata_items(m)),
        d.input.unread == wire_of(metadata_items(m)) + rest,
    ensures
        d.next_entry_or_eof() == concluded(opened(d, h, wire_of(metadata_items(m)).len(), m)),
        opened(d, h, wire_of(metadata_items(m)).len(), m).input.unread == rest,
{
    let first = stat_item(m);
    let more = attribute_items(m);
    lemma_wire_of_concat(seq![first], more);
    lemma_wire_of_one(first);
    lemma_acceptable_parts(seq![first], more);
    assert(acceptable(seq![first][0]));
    m.stat.lemma_wire_round_trip();
    let tail = wire_of(more) + rest;
    assert(d.input.unread =~= first.wire() + tail);
    let this = DecoderView { state: State::Default, entry: d.entry.cleared(), ..d };
    lemma_load(this, first, tail);
    let e = loaded(this, first);
    assert(e.input.unread.take(40) =~= first.content);
    assert(e.input.unread.skip(40) =~= tail);
    lemma_advanced(this.input, 16, 40);
    let f = DecoderView {
        input: e.input.advanced(40),
        header: no_header(),
        ..e
    }.with_metadata(MetadataView::from_stat(m.stat));
    assert(e.stat_item(PXAR_ENTRY) == Ok::<_, Error>(f));
    let h = lemma_read_attributes(f, m, rest);
    let n = wire_of(metadata_items(m)).len();
    lemma_advanced(d.input, first.wire().len(), wire_of(more).len());
    assert(past(f, h, wire_of(more).len(), m) =~= opened(d, h, n, m));
    assert(f.rest_of_entry() == f.finish_entry()) by {
        reveal(DecoderView::finish_entry);
    }
    h
}

/// A symbolic link is read as it was written.
pub proof fn lemma_end_symlink(e: DecoderView, target: Seq<u8>, rest: Seq<u8>)
    requires
        acceptable(symlink_item(target)),
        e.input.unread == symlink_item(target).wire() + rest,
    ensures
        e.finish_entry() == Ok::<_, Error>(
            DecoderView {
                header: header_of(PXAR_SYMLINK, target.len() + 1),
                input: e.input.advanced(symlink_item(target).wire().len()),
                ..e
            }.with_kind(KindView::Symlink(target.push(0))),
        ),
        e.input.advanced(symlink_item(target).wire().len()).unread == rest,
{
    reveal(DecoderView::finish_entry);
    lemma_load(e, symlink_item(target), rest);
}

/// A device node is read as it was written.
pub proof fn lemma_end_device(e: DecoderView, device: Device, rest: Seq<u8>)
    requires
        e.input.unread == device_item(device).wire() + rest,
    ensures
        e.finish_entry() == Ok::<_, Error>(
            DecoderView {
                header: header_of(PXAR_DEVICE, 16),
                input: e.input.advanced(device_item(device).wire().len()),
                ..e
            }.with_kind(KindView::Device(device)),
        ),
        e.input.advanced(device_item(device).wire().len()).unread == rest,
{
    reveal(DecoderView::finish_entry);
    device.lemma_wire_round_trip();
    lemma_load(e, device_item(device), rest);
}

/// The size of a file is read as it was written.
pub proof fn lemma_end_payload(e: DecoderView, size: u64, rest: Seq<u8>)
    requires
        size + HEADER_SIZE <= u64::MAX,
        e.input.unread == header_of(PXAR_PAYLOAD, size as nat).wire() + rest,
    ensures
        e.finish_entry() == Ok::<_, Error>(
            DecoderView {
                header: header_of(PXAR_PAYLOAD, size as nat),
                input: e.input.advanced(16),
                ..e
            }.with_kind(
                KindView::File {
                    size,
                    position: match e.input.advanced(16).offset {
                        Some(at) => Some(at as u64),
                        None => None,
                    },
                },
            ).with_state(State::InPayload { offset: 0 }),
        ),
        e.input.advanced(16).unread == rest,
{
    reveal(DecoderView::finish_entry);
    lemma_header(e, header_of(PXAR_PAYLOAD, size as nat), rest);
}

/// The header of a file name or a goodbye table.
pub open spec fn is_boundary(header: Header) -> bool {
    header_error(header) is None && (header.htype == PXAR_FILENAME || header.htype == PXAR_GOODBYE)
}

/// An entry that ends where the next one starts.
pub proof fn lemma_end_boundary(e: DecoderView, header: Header, rest: Seq<u8>)
    requires
        is_boundary(header),
        e.input.unread == header.wire() + rest,
    ensures
        ({
            let kind = kind_of_type(e.entry.metadata.file_type());
            e.finish_entry() == Ok::<_, Error>(
                DecoderView { header, input: e.input.advanced(16), ..e }.with_kind(kind).with_state(
                    if kind is Directory {
                        State::InDirectory
                    } else {
                        State::InSpecialFile
                    },
                ),
            )
        }),
        e.input.advanced(16).unread == rest,
{
    reveal(DecoderView::finish_entry);
    lemma_header(e, header, rest);
}

/// An entry that ends where the input ends.
pub proof fn lemma_end_eof(e: DecoderView)
    requires
        e.eof_after_entry,
        e.input.unread.len() == 0,
    ensures
        e.finish_entry() == Ok::<_, Error>(
            e.with_kind(kind_of_type(e.entry.metadata.file_type())),
        ),
{
    reveal(DecoderView::finish_entry);
}

/// A hard link is read as it was written.
pub proof fn lemma_read_hardlink(d: DecoderView, distance: u64, target: Seq<u8>, rest: Seq<u8>)
    requires
        acceptable(hardlink_item(distance, target)),
        d.input.unread == hardlink_item(distance, target).wire() + rest,
    ensures
        ({
            let item = hardlink_item(distance, target);
            let e = DecoderView {
                state: State::Default,
                header: header_of(PXAR_HARDLINK, item.content.len()),
                input: d.input.advanced(item.wire().len()),
                entry: EntryView {
                    path: d.entry.path,
                    metadata: MetadataView::empty(),
                    kind: KindView::Hardlink { offset: distance, data: target.push(0) },
                },
                ..d
            };
            d.next_entry_or_eof() == Ok::<_, Error>(Some(e.handed_out()))
        }),
        d.input.advanced(hardlink_item(distance, target).wire().len()).unread == rest,
{
    let item = hardlink_item(distance, target);
    let this = DecoderView { state: State::Default, entry: d.entry.cleared(), ..d };
    lemma_le64_len(distance);
    distance.lemma_wire_round_trip();
    lemma_load(this, item, rest);
    assert(item.content.take(8) =~= le64(distance));
    assert(item.content.skip(8) =~= target.push(0));
    let e = DecoderView {
        state: State::Default,
        header: header_of(PXAR_HARDLINK, item.content.len()),
        input: d.input.advanced(item.wire().len()),
        entry: EntryView {
            path: d.entry.path,
            metadata: MetadataView::empty(),
            kind: KindView::Hardlink { offset: distance, data: target.push(0) },
        },
        ..d
    };
    assert(loaded(this, item).hardlink_item() == Ok::<_, Error>(e));
}

/// Each directory lies in the one before it.
pub open spec fn nested(dirs: Seq<Seq<u8>>) -> bool {
    forall|j: int, k: int|
        0 <= j <= k < dirs.len() ==> (#[trigger] dirs[j]).len() <= (#[trigger] dirs[k]).len()
            && dirs[k].take(dirs[j].len() as int) == dirs[j]
}

/// The lengths of directory paths.
pub open spec fn path_lengths_of(dirs: Seq<Seq<u8>>) -> Seq<nat> {
    dirs.map_values(|dir: Seq<u8>| dir.len())
}

/// A decoder somewhere inside the directories `dirs`, for which nothing but `rest` is still to
/// come once it is done with the current entry.
pub open spec fn pending(d: DecoderView, dirs: Seq<Seq<u8>>, rest: Seq<u8>) -> bool {
    &&& dirs.len() > 0
    &&& nested(dirs)
    &&& d.path_lengths == path_lengths_of(dirs)
    &&& dirs.last().len() <= d.entry.path.len()
    &&& d.entry.path.take(dirs.last().len() as int) == dirs.last()
    &&& match d.state {
        State::Default => d.input.unread == rest,
        State::InPayload { offset } => {
            &&& header_error(d.header) is None
            &&& offset <= d.content_size()
            &&& d.content_size() - offset <= d.input.unread.len()
            &&& d.input.unread.skip(d.content_size() - offset) == rest
        },
        State::InDirectory | State::InSpecialFile => {
            &&& header_error(d.header) is None
            &&& d.header.wire() + d.input.unread == rest
        },
        _ => false,
    }
}

/// The position behind the last byte of an input, where positions are known.
#[verifier::opaque]
pub open spec fn end_position(i: InputView) -> Option<int> {
    match i.offset {
        Some(at) => Some(at + i.unread.len()),
        None => None,
    }
}

/// Reading does not move the end.
pub proof fn lemma_end_position(i: InputView, n: nat)
    requires
        n <= i.unread.len(),
    ensures
        end_position(i.advanced(n)) == end_position(i),
{
    reveal(end_position);
}

/// Two decoders that differ in nothing that matters at the boundary between entries.
pub open spec fn same_place(e: DecoderView, d: DecoderView) -> bool {
    &&& e.path_lengths == d.path_lengths
    &&& e.entry.path == d.entry.path
    &&& e.with_goodbye_tables == d.with_goodbye_tables
    &&& e.eof_after_entry == d.eof_after_entry
    &&& end_position(e.input) == end_position(d.input)
}

/// A decoder in a directory gets to the next boundary.
pub proof fn lemma_reach_boundary(
    d: DecoderView,
    dirs: Seq<Seq<u8>>,
    header: Header,
    rest: Seq<u8>,
) -> (e: DecoderView)
    requires
        is_boundary(header),
        pending(d, dirs, header.wire() + rest),
    ensures
        d.step() == e.at_boundary(),
        e.header == header,
        e.input.unread == rest,
        same_place(e, d),
{
    match d.state {
        State::Default => {
            lemma_header(d, header, rest);
            lemma_end_position(d.input, 16);
            DecoderView { header, input: d.input.advanced(16), ..d }.boundary_item()
        },
        State::InPayload { offset } => {
            let n = (d.content_size() - offset) as nat;
            let s = DecoderView { input: d.input.advanced(n), ..d }.with_state(State::Default);
            assert(d.skip_content(offset) matches Ok(t) && t.with_state(State::Default) == s);
            lemma_header(s, header, rest);
            lemma_end_position(d.input, n);
            lemma_end_position(s.input, 16);
            DecoderView { header, input: s.input.advanced(16), ..s }.boundary_item()
        },
        State::InSpecialFile => {
            lemma_same_header(d.header, d.input.unread, header, rest);
            DecoderView { entry: d.entry.cleared(), ..d }.with_kind(
                KindView::Directory,
            ).with_state(State::InDirectory)
        },
        _ => {
            lemma_same_header(d.header, d.input.unread, header, rest);
            d
        },
    }
}

/// A header can be told from what follows it.
proof fn lemma_same_header(a: Header, x: Seq<u8>, b: Header, y: Seq<u8>)
    requires
        a.wire() + x == b.wire() + y,
    ensures
        a == b,
        x == y,
{
    a.lemma_wire_round_trip();
    b.lemma_wire_round_trip();
    let (s, t) = (a.wire() + x, b.wire() + y);
    assert(s.take(16) =~= a.wire());
    assert(t.take(16) =~= b.wire());
    assert(s.skip(16) =~= x);
    assert(t.skip(16) =~= y);
}

/// A name in a directory is read, and the entry that follows.
pub proof fn lemma_next_name(d: DecoderView, dirs: Seq<Seq<u8>>, name: Seq<u8>, rest: Seq<u8>) -> (f:
    DecoderView)
    requires
        filename_error(name) is None,
        pending(d, dirs, filename_item(name).wire() + rest),
    ensures
        f.input.unread == rest,
        f.entry.path == joined(dirs.last(), name),
        f.path_lengths == d.path_lengths,
        f.with_goodbye_tables == d.with_goodbye_tables,
        f.eof_after_entry == d.eof_after_entry,
        end_position(f.input) == end_position(d.input),
        f.next_entry_or_eof() matches Ok(Some((g, entry))) ==> d.next() == Ok::<_, Error>(
            (g, Some(entry)),
        ),
{
    let item = filename_item(name);
    let header = header_of(PXAR_FILENAME, name.len() + 1);
    assert(item.wire() + rest =~= header.wire() + (item.content + rest));
    let e = lemma_reach_boundary(d, dirs, header, item.content + rest);
    lemma_content(e, item.content, rest);
    let n = item.content.len();
    let c = DecoderView { input: e.input.advanced(n), ..e };
    lemma_end_position(e.input, n);
    assert(item.content.drop_last() =~= name);
    assert(path_lengths_of(dirs).last() == dirs.last().len());
    assert(c.path_in_directory(name) == joined(dirs.last(), name)) by {
        if dirs.last().len() == c.entry.path.len() {
            assert(c.entry.path.take(dirs.last().len() as int) =~= c.entry.path);
        }
    }
    let f = DecoderView {
        entry: EntryView { path: joined(dirs.last(), name), ..c.entry },
        ..c
    };
    assert(e.file_entry() == f.next_entry());
    f
}

/// The entry that is reported at the end of a directory, where that is asked for.
pub open spec fn goodbye_entry() -> EntryView {
    EntryView {
        path: Seq::empty(),
        metadata: MetadataView::empty(),
        kind: KindView::GoodbyeTable,
    }
}

/// A decoder at the end of a directory gets to its goodbye table, which is reported where that is
/// asked for.
proof fn lemma_reach_goodbye(
    d: DecoderView,
    dirs: Seq<Seq<u8>>,
    content: Seq<u8>,
    rest: Seq<u8>,
) -> (g: DecoderView)
    requires
        acceptable(ItemView { htype: PXAR_GOODBYE, content }),
        pending(d, dirs, (ItemView { htype: PXAR_GOODBYE, content }).wire() + rest),
    ensures
        d.with_goodbye_tables ==> d.next() == Ok::<_, Error>((g, Some(goodbye_entry()))),
        !d.with_goodbye_tables ==> d.next() == g.next(),
        g.state == State::InGoodbyeTable,
        g.skip_content(0) == Ok::<_, Error>(
            DecoderView { input: g.input.advanced(content.len()), ..g },
        ),
        g.input.advanced(content.len()).unread == rest,
        same_place(g, d),
        end_position(g.input.advanced(content.len())) == end_position(d.input),
{
    let item = ItemView { htype: PXAR_GOODBYE, content };
    let header = header_of(PXAR_GOODBYE, content.len());
    assert(item.wire() + rest =~= header.wire() + (content + rest));
    let b = lemma_reach_boundary(d, dirs, header, content + rest);
    let s = b.with_state(State::InGoodbyeTable);
    let g = if d.with_goodbye_tables {
        DecoderView { entry: s.entry.cleared(), ..s }
    } else {
        s
    };
    if d.with_goodbye_tables {
        assert(d.step() == Ok::<_, Error>((g, StepView::Report(Some(goodbye_entry())))));
    } else {
        assert(d.step() == Ok::<_, Error>((g, StepView::Continue)));
    }
    lemma_content(g, content, rest);
    lemma_end_position(g.input, content.len());
    g
}

/// The end of a directory is passed over, and its parent goes on.
pub proof fn lemma_leave_directory(
    d: DecoderView,
    dirs: Seq<Seq<u8>>,
    content: Seq<u8>,
    rest: Seq<u8>,
) -> (r: (DecoderView, DecoderView))
    requires
        acceptable(ItemView { htype: PXAR_GOODBYE, content }),
        dirs.len() > 1,
        pending(d, dirs, (ItemView { htype: PXAR_GOODBYE, content }).wire() + rest),
    ensures
        ({
            let (g, e) = r;
            &&& d.with_goodbye_tables ==> d.next() == Ok::<_, Error>((g, Some(goodbye_entry())))
            &&& !d.with_goodbye_tables ==> d.next() == g.next()
            &&& g.next() == e.next()
            &&& pending(e, dirs.drop_last(), rest)
            &&& e.with_goodbye_tables == d.with_goodbye_tables
            &&& end_position(e.input) == end_position(d.input)
        }),
{
    let g = lemma_reach_goodbye(d, dirs, content, rest);
    let s = DecoderView { input: g.input.advanced(content.len()), ..g };
    let e = DecoderView { path_lengths: s.path_lengths.drop_last(), ..s }.with_state(
        State::Default,
    );
    assert(g.step() == Ok::<_, Error>((e, StepView::Continue)));
    let outer = dirs.drop_last();
    assert(e.path_lengths =~= path_lengths_of(outer));
    assert(outer.last() == dirs[dirs.len() - 2]);
    assert(dirs.last() == dirs[dirs.len() - 1]);
    assert forall|j: int, k: int| 0 <= j <= k < outer.len() implies (#[trigger] outer[j]).len()
        <= (#[trigger] outer[k]).len() && outer[k].take(outer[j].len() as int) == outer[j] by {
        assert(outer[j] == dirs[j] && outer[k] == dirs[k]);
    }
    assert(e.entry.path.take(outer.last().len() as int) =~= dirs.last().take(
        outer.last().len() as int,
    ));
    (g, e)
}

/// The end of the root directory is the end of the archive.
pub proof fn lemma_leave_root(d: DecoderView, dirs: Seq<Seq<u8>>, content: Seq<u8>, rest: Seq<u8>) -> (g:
    DecoderView)
    requires
        acceptable(ItemView { htype: PXAR_GOODBYE, content }),
        dirs.len() == 1,
        pending(d, dirs, (ItemView { htype: PXAR_GOODBYE, content }).wire() + rest),
    ensures
        d.with_goodbye_tables ==> d.next() == Ok::<_, Error>((g, Some(goodbye_entry()))),
        !d.with_goodbye_tables ==> d.next() == g.next(),
        g.next() matches Ok((e, None)) && e.state == State::Eof && e.input.unread == rest,
{
    let g = lemma_reach_goodbye(d, dirs, content, rest);
    let s = DecoderView { input: g.input.advanced(content.len()), ..g };
    assert(s.path_lengths.drop_last().len() == 0);
    g
}

/// At the end of the archive nothing more comes.
pub proof fn law_stays_at_end(d: DecoderView)
    requires
        d.state == State::Eof,
    ensures
        d.next() == Ok::<(DecoderView, Option<EntryView>), Error>((d, None)),
{
}

} // verus!
