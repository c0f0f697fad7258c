//! Random access finds what was encoded.

use vstd::prelude::*;

use crate::accessor::adapter::range_stream;
use crate::accessor::model::{
    directory_at, entry_in, file_named_at, filename_at, frame_at, items_of, link_target, part_of,
    tail_at, CursorView, DirectoryView, FileView,
};
use crate::accessor::read_at::bytes_at;
use crate::binary_tree_array::{
    hits, lemma_hits_sound, lemma_node_in_order, lemma_node_of, lemma_search_finds_all,
};
use crate::decoder::model::{initial_decoder, DecoderView};
use crate::encoder::model::{filename_item, metadata_items, new_encoder, EncoderView};
use crate::encoder::write::{header_of, starts_with, wire_of};
use crate::entry::{EntryView, KindView};
use crate::errors::Error;
use crate::format::goodbye::{filename_hash, GOODBYE_ITEM_SIZE};
use crate::format::mode;
use crate::format::wire::Wire;
use crate::format::{Header, HEADER_SIZE, PXAR_FILENAME, PXAR_PAYLOAD};
use crate::goodbye_table::{
    goodbye_size_of, items_wire, lemma_items_wire_at, lemma_items_wire_len, lemma_sorted_items,
    lemma_table_of, relative_item, sorted_items, table_of, tail_of,
};
use crate::laws::entries::{
    end_position, is_boundary, lemma_end_boundary, lemma_end_payload, lemma_open_entry, opened,
};
use crate::laws::items::{all_acceptable, readable_xattrs};
use crate::laws::tables::{
    add_directory, item_between, items_for, lemma_directory_listed, lemma_entered,
    lemma_files_listed, lemma_leaf_listed, listed, on_spot,
};
use crate::laws::tree::{
    at_boundary, decodes_to, directory_end, encode_archive, encode_files, ends_after, enter,
    files_delta, leave, lemma_directory_written, lemma_files_written, lemma_finish_written,
    lemma_item_boundary, lemma_leaf_written, lemma_read_whole_directory, lemma_reads_leaf,
    lemma_root_written, lemma_settled, lemma_some_boundary, lemma_whole_directory_written, listing,
    readable, reported, Files, Leaf,
};
use crate::metadata::MetadataView;
use crate::path::{components_of, joined, lemma_name_is_component, ComponentView};
use crate::util::filename_error;

verus! {

/// Something in a directory.
pub enum Node {
    Leaf(Leaf),
    Directory { metadata: MetadataView, files: Files },
}

/// A file of a directory, with the encoder before and after it was added.
pub struct Member {
    pub name: Seq<u8>,
    pub node: Node,
    pub before: EncoderView,
    pub after: EncoderView,
}

/// The files of a directory.
pub open spec fn members(e: EncoderView, files: Files) -> Seq<Member>
    decreases files,
{
    match files {
        Files::Nil => Seq::empty(),
        Files::Leaf { name, leaf, next } => {
            let after = leaf.encode(e, name)->Ok_0;
            seq![Member { name, node: Node::Leaf(leaf), before: e, after }] + members(after, *next)
        },
        Files::Directory { name, metadata, files, next } => {
            let after = add_directory(e, name, metadata, *files);
            seq![
                Member {
                    name,
                    node: Node::Directory { metadata, files: *files },
                    before: e,
                    after,
                },
            ] + members(after, *next)
        },
    }
}

impl Member {
    /// The metadata of this file.
    pub open spec fn metadata(self) -> MetadataView {
        match self.node {
            Node::Leaf(leaf) => leaf.metadata(),
            Node::Directory { metadata, .. } => metadata,
        }
    }

    /// Where this file's name starts.
    pub open spec fn name_offset(self) -> int {
        self.before.archive.len() as int
    }

    /// Where this file's entry starts.
    pub open spec fn start(self) -> int {
        self.name_offset() + filename_item(self.name).wire().len()
    }

    /// Where this file's entry ends.
    pub open spec fn end(self) -> int {
        self.after.archive.len() as int
    }

    /// Where the contents of this file would start.
    pub open spec fn contents_offset(self) -> int {
        self.start() + wire_of(metadata_items(self.metadata())).len() + HEADER_SIZE
    }

    /// This file's entry, as it is found in a directory.
    pub open spec fn entry(self, dir: Seq<u8>) -> EntryView {
        EntryView {
            path: joined(dir, self.name),
            metadata: self.metadata(),
            kind: match self.node {
                Node::Leaf(leaf) => leaf.kind(Some(self.contents_offset() as u64)),
                Node::Directory { .. } => KindView::Directory,
            },
        }
    }

    /// This file, as it is found in a directory.
    pub open spec fn file(self, archive: Seq<u8>, dir: Seq<u8>) -> FileView {
        FileView {
            archive,
            entry: self.entry(dir),
            start: self.start() as u64,
            end: self.end() as u64,
            filename_offset: Some(self.name_offset() as u64),
        }
    }

    /// This file is part of an archive.
    pub open spec fn stored(self, archive: Seq<u8>) -> bool {
        &&& on_spot(self.before)
        &&& on_spot(self.after)
        &&& starts_with(archive, self.after.archive)
        &&& readable_xattrs(self.metadata().xattrs)
        &&& match self.node {
            Node::Leaf(leaf) => leaf.encode(self.before, self.name) == Ok::<_, Error>(self.after),
            Node::Directory { metadata, files } => {
                let inner = enter(self.before, self.name, metadata)->Ok_0;
                &&& enter(self.before, self.name, metadata) is Ok
                &&& encode_files(inner, files) is Ok
                &&& leave(encode_files(inner, files)->Ok_0) == Ok::<_, Error>(self.after)
                &&& readable(files)
            },
        }
    }
}

/// An archive holds a directory with the given files, whose first one would be added by `e`.
pub open spec fn holds_directory(
    archive: Seq<u8>,
    e: EncoderView,
    metadata: MetadataView,
    files: Files,
) -> bool {
    let z = encode_files(e, files)->Ok_0;
    &&& on_spot(e)
    &&& e.open is None
    &&& e.last().items.len() == 0
    &&& e.last().entry_offset <= e.archive.len()
    &&& e.archive.skip(e.last().entry_offset as int) == wire_of(metadata_items(metadata))
    &&& all_acceptable(metadata_items(metadata))
    &&& metadata.file_type() == mode::IFDIR
    &&& readable_xattrs(metadata.xattrs)
    &&& readable(files)
    &&& encode_files(e, files) is Ok
    &&& leave(z) is Ok
    &&& starts_with(archive, leave(z)->Ok_0.archive)
    // the goodbye table has to fit into memory
    &&& items_for(e, files).len() * GOODBYE_ITEM_SIZE <= usize::MAX
}

/// Where a directory ends.
pub open spec fn end_of(e: EncoderView, files: Files) -> u64 {
    leave(encode_files(e, files)->Ok_0)->Ok_0.archive.len() as u64
}

/// A directory as it is opened.
pub open spec fn directory_of(archive: Seq<u8>, e: EncoderView, files: Files, path: Seq<u8>) -> DirectoryView {
    let goodbye_ofs = encode_files(e, files)->Ok_0.archive.len() as u64;
    DirectoryView {
        archive,
        entry_ofs: e.last().entry_offset,
        goodbye_ofs,
        size: (end_of(e, files) - e.last().entry_offset) as u64,
        table: table_of(items_for(e, files), goodbye_ofs),
        path,
    }
}

/// A part of what an archive starts with.
proof fn lemma_part(archive: Seq<u8>, start: Seq<u8>, i: int, j: int)
    requires
        starts_with(archive, start),
        0 <= i <= j <= start.len(),
    ensures
        archive.subrange(i, j) == start.subrange(i, j),
{
    assert(archive.subrange(i, j) =~= archive.take(start.len() as int).subrange(i, j));
}

/// An encoded directory can be opened.
pub proof fn law_open_directory(
    archive: Seq<u8>,
    e: EncoderView,
    metadata: MetadataView,
    files: Files,
    path: Seq<u8>,
)
    requires
        holds_directory(archive, e, metadata, files),
    ensures
        directory_at(archive, end_of(e, files), path) == Ok::<_, Error>(
            directory_of(archive, e, files, path),
        ),
{
    let z = encode_files(e, files)->Ok_0;
    let h = leave(z)->Ok_0;
    let items = items_for(e, files);
    let n = items.len();
    let entry = e.last().entry_offset;
    lemma_files_listed(e, files);
    assert(listed(e) + items =~= items);
    lemma_settled(z);
    lemma_finish_written(z);
    lemma_some_boundary();
    lemma_files_written(e, files, choose|rest: Seq<u8>| at_boundary(rest));
    let at = z.archive.len() as u64;
    let bye = z.settled().goodbye_item();
    let table = table_of(items, at);
    let tail = tail_of(n, at, entry);
    let all = table.push(tail);
    lemma_table_of(items, at);
    lemma_items_wire_len(all);
    lemma_items_wire_at(all, n as int);
    assert(bye.content == items_wire(all));
    header_of(bye.htype, bye.content.len()).lemma_wire_round_trip();
    let end = end_of(e, files);
    assert(h.archive.len() == at + 16 + (n + 1) * 24);
    assert(end == at + 16 + (n + 1) * 24);
    let size = GOODBYE_ITEM_SIZE as int;
    // the tail
    lemma_part(archive, h.archive, end - size, end as int);
    assert(h.archive.subrange(end - size, end as int) =~= bye.content.subrange(
        n * size,
        (n + 1) * size,
    ));
    tail.lemma_wire_round_trip();
    assert(tail_at(archive, end) == Ok::<_, Error>(tail));
    assert(goodbye_size_of(n) == 16 + (n + 1) * 24);
    let dir = DirectoryView { table: Seq::empty(), ..directory_of(archive, e, files, path) };
    assert(((n + 1) * 24) % 24 == 0);
    assert(frame_at(archive, end, path) == Ok::<_, Error>(dir));
    // the table
    assert(dir.table_len() == n);
    let data = bye.content.take(n * size);
    if n > 0 {
        lemma_part(archive, h.archive, at + 16, at + 16 + n * size);
        assert(h.archive.subrange(at + 16, at + 16 + n * size) =~= data);
    } else {
        assert(data =~= Seq::<u8>::empty());
    }
    assert(bytes_at(archive, dir.table_offset() as u64, n * GOODBYE_ITEM_SIZE as nat) == Ok::<
        _,
        Error,
    >(data));
    assert(items_of(data) =~= table) by {
        assert(data.len() == n * 24);
        assert forall|i: int| 0 <= i < n implies #[trigger] items_of(data)[i] == table[i] by {
            lemma_items_wire_at(all, i);
            assert(data.subrange(i * size, (i + 1) * size) =~= bye.content.subrange(
                i * size,
                (i + 1) * size,
            ));
            assert(all[i] == table[i]);
            table[i].lemma_wire_round_trip();
        }
    }
}

/// What comes first in a prefix comes first.
pub proof fn lemma_starts(archive: Seq<u8>, start: Seq<u8>, more: Seq<u8>)
    requires
        starts_with(archive, start + more),
    ensures
        starts_with(archive, start),
{
    assert(archive.take(start.len() as int) =~= archive.take((start + more).len() as int).take(
        start.len() as int,
    ));
    assert((start + more).take(start.len() as int) =~= start);
}

/// The files of a directory are part of the archive, and each is listed in the goodbye table.
pub proof fn lemma_members(archive: Seq<u8>, e: EncoderView, files: Files)
    requires
        on_spot(e),
        readable(files),
        encode_files(e, files) is Ok,
        starts_with(archive, encode_files(e, files)->Ok_0.archive),
    ensures
        members(e, files).len() == items_for(e, files).len(),
        forall|k: int|
            #![trigger members(e, files)[k]]
            0 <= k < members(e, files).len() ==> {
                let m = members(e, files)[k];
                &&& m.stored(archive)
                &&& m.end() <= encode_files(e, files)->Ok_0.archive.len()
                &&& items_for(e, files)[k] == item_between(m.before, m.after, m.name)
            },
    decreases files,
{
    let z = encode_files(e, files)->Ok_0;
    lemma_some_boundary();
    let any = choose|rest: Seq<u8>| at_boundary(rest);
    match files {
        Files::Nil => {},
        Files::Leaf { name, leaf, next } => {
            lemma_leaf_listed(e, name, leaf);
            let f = leaf.encode(e, name)->Ok_0;
            lemma_files_written(f, *next, any);
            lemma_starts(archive, f.archive, files_delta(f, *next));
            lemma_members(archive, f, *next);
            assert(members(e, files).skip(1) =~= members(f, *next));
            assert(items_for(e, files).skip(1) =~= items_for(f, *next));
            lemma_one_more_member(archive, e, files, f, *next);
        },
        Files::Directory { name, metadata, files: inner, next } => {
            lemma_directory_listed(e, name, metadata, *inner);
            let f = add_directory(e, name, metadata, *inner);
            lemma_files_written(f, *next, any);
            lemma_starts(archive, f.archive, files_delta(f, *next));
            lemma_members(archive, f, *next);
            assert(members(e, files).skip(1) =~= members(f, *next));
            assert(items_for(e, files).skip(1) =~= items_for(f, *next));
            lemma_one_more_member(archive, e, files, f, *next);
        },
    }
}

/// What holds of the first member and of the others holds of all.
proof fn lemma_one_more_member(
    archive: Seq<u8>,
    e: EncoderView,
    files: Files,
    f: EncoderView,
    next: Files,
)
    requires
        members(e, files).len() > 0,
        items_for(e, files).len() > 0,
        members(e, files).skip(1) == members(f, next),
        items_for(e, files).skip(1) == items_for(f, next),
        encode_files(e, files) == encode_files(f, next),
        ({
            let m = members(e, files)[0];
            &&& m.stored(archive)
            &&& m.end() <= encode_files(e, files)->Ok_0.archive.len()
            &&& items_for(e, files)[0] == item_between(m.before, m.after, m.name)
        }),
        members(f, next).len() == items_for(f, next).len(),
        forall|k: int|
            #![trigger members(f, next)[k]]
            0 <= k < members(f, next).len() ==> {
                let m = members(f, next)[k];
                &&& m.stored(archive)
                &&& m.end() <= encode_files(f, next)->Ok_0.archive.len()
                &&& items_for(f, next)[k] == item_between(m.before, m.after, m.name)
            },
    ensures
        members(e, files).len() == items_for(e, files).len(),
        forall|k: int|
            #![trigger members(e, files)[k]]
            0 <= k < members(e, files).len() ==> {
                let m = members(e, files)[k];
                &&& m.stored(archive)
                &&& m.end() <= encode_files(e, files)->Ok_0.archive.len()
                &&& items_for(e, files)[k] == item_between(m.before, m.after, m.name)
            },
{
    assert forall|k: int|
        #![trigger members(e, files)[k]]
        0 <= k < members(e, files).len() implies {
        let m = members(e, files)[k];
        &&& m.stored(archive)
        &&& m.end() <= encode_files(e, files)->Ok_0.archive.len()
        &&& items_for(e, files)[k] == item_between(m.before, m.after, m.name)
    } by {
        if k > 0 {
            assert(members(e, files).skip(1)[k - 1] == members(e, files)[k]);
            assert(items_for(e, files).skip(1)[k - 1] == items_for(e, files)[k]);
            assert(members(f, next)[k - 1] == members(e, files)[k]);
        }
    }
}

/// What stands between two members is the name and the entry of one.
proof fn lemma_member_bytes(archive: Seq<u8>, m: Member) -> (body: Seq<u8>)
    requires
        m.stored(archive),
    ensures
        filename_error(m.name) is None,
        m.name_offset() + filename_item(m.name).wire().len() + body.len() == m.end(),
        m.after.archive == m.before.archive + (filename_item(m.name).wire() + body),
        m.node matches Node::Leaf(leaf) ==> body == leaf.body() && leaf.accepted(),
        m.node matches Node::Directory { metadata, files } ==> {
            let inner = enter(m.before, m.name, metadata)->Ok_0;
            let z = encode_files(inner, files)->Ok_0;
            let rest = files_delta(inner, files) + z.settled().goodbye_item().wire();
            &&& body == wire_of(metadata_items(metadata)) + rest
            &&& at_boundary(rest)
            &&& all_acceptable(metadata_items(metadata))
            &&& metadata.file_type() == mode::IFDIR
        },
{
    match m.node {
        Node::Leaf(leaf) => {
            lemma_leaf_written(m.before, m.name, leaf);
            leaf.body()
        },
        Node::Directory { metadata, files } => {
            let inner = enter(m.before, m.name, metadata)->Ok_0;
            lemma_directory_written(m.before, m.name, metadata);
            let z = encode_files(inner, files)->Ok_0;
            lemma_some_boundary();
            lemma_files_written(inner, files, choose|rest: Seq<u8>| at_boundary(rest));
            lemma_finish_written(z);
            let bye = z.settled().goodbye_item();
            lemma_item_boundary(bye, Seq::empty());
            assert(bye.wire() + Seq::<u8>::empty() =~= bye.wire());
            lemma_files_written(inner, files, bye.wire());
            let body = wire_of(metadata_items(metadata)) + (files_delta(inner, files)
                + bye.wire());
            assert(m.after.archive =~= m.before.archive + (filename_item(m.name).wire() + body));
            body
        },
    }
}

/// The name of a member is found.
proof fn lemma_member_name(archive: Seq<u8>, m: Member)
    requires
        m.stored(archive),
    ensures
        filename_at(archive, m.name_offset() as u64) == Ok::<_, Error>(
            (m.name, m.start() as u64),
        ),
        m.name_offset() <= m.start() <= m.end() <= u64::MAX,
{
    let body = lemma_member_bytes(archive, m);
    let item = filename_item(m.name);
    let header = header_of(PXAR_FILENAME, item.content.len());
    header.lemma_wire_round_trip();
    let at = m.name_offset();
    let len = item.content.len() as int;
    lemma_part(archive, m.after.archive, at, at + 16);
    assert(m.after.archive.subrange(at, at + 16) =~= header.wire());
    lemma_part(archive, m.after.archive, at + 16, at + 16 + len);
    assert(m.after.archive.subrange(at + 16, at + 16 + len) =~= item.content);
    assert(item.content.drop_last() =~= m.name);
    lemma_name_is_component(m.name);
    assert(bytes_at(archive, at as u64, 16) == Ok::<_, Error>(header.wire()));
    assert(bytes_at(archive, (at + 16) as u64, len as nat) == Ok::<_, Error>(item.content));
}

/// The entry of a leaf is found.
proof fn lemma_leaf_entry(archive: Seq<u8>, m: Member, leaf: Leaf, path: Seq<u8>)
    requires
        m.stored(archive),
        m.node == Node::Leaf(leaf),
    ensures
        entry_in(archive, m.start() as u64, m.end() as u64, path) matches Ok((_, entry)) && entry
            == (EntryView {
            path,
            metadata: leaf.metadata(),
            kind: leaf.kind(Some(m.contents_offset() as u64)),
        }),
{
    let body = lemma_member_bytes(archive, m);
    lemma_part(archive, m.after.archive, m.start(), m.end());
    assert(m.after.archive.subrange(m.start(), m.end()) =~= body);
    let input = range_stream(archive, m.start() as u64, m.end() as u64);
    assert(input.unread =~= body);
    let d = initial_decoder(input, path, true);
    assert(body =~= leaf.body() + Seq::<u8>::empty());
    let g = lemma_reads_leaf(d, leaf, Seq::empty());
    reveal(entry_in);
}

/// The entry of a directory is found.
proof fn lemma_directory_entry(archive: Seq<u8>, m: Member, path: Seq<u8>)
    requires
        m.stored(archive),
        m.node is Directory,
    ensures
        entry_in(archive, m.start() as u64, m.end() as u64, path) matches Ok((_, entry)) && entry
            == (EntryView { path, metadata: m.metadata(), kind: KindView::Directory }),
{
    let body = lemma_member_bytes(archive, m);
    lemma_part(archive, m.after.archive, m.start(), m.end());
    assert(m.after.archive.subrange(m.start(), m.end()) =~= body);
    let input = range_stream(archive, m.start() as u64, m.end() as u64);
    assert(input.unread =~= body);
    let head = wire_of(metadata_items(m.metadata()));
    let rest = body.skip(head.len() as int);
    assert(body =~= head + rest);
    assert(at_boundary(rest)) by {
        if let Node::Directory { metadata, files } = m.node {
            let inner = enter(m.before, m.name, metadata)->Ok_0;
            let z = encode_files(inner, files)->Ok_0;
            assert(rest =~= files_delta(inner, files) + z.settled().goodbye_item().wire());
        }
    }
    lemma_directory_decoded(initial_decoder(input, path, true), m.metadata(), rest);
    reveal(entry_in);
}

/// A decoder at a directory reports it.
proof fn lemma_directory_decoded(d: DecoderView, metadata: MetadataView, rest: Seq<u8>)
    requires
        d.state is Begin,
        all_acceptable(metadata_items(metadata)),
        metadata.file_type() == mode::IFDIR,
        readable_xattrs(metadata.xattrs),
        at_boundary(rest),
        d.input.unread == wire_of(metadata_items(metadata)) + rest,
    ensures
        d.next() matches Ok((_, Some(entry))) && entry == (EntryView {
            path: d.entry.path,
            metadata,
            kind: KindView::Directory,
        }),
{
    let (header, more) = choose|header: Header, more: Seq<u8>|
        is_boundary(header) && rest == #[trigger] (header.wire() + more);
    let h = lemma_open_entry(d, metadata, rest);
    let e = opened(d, h, wire_of(metadata_items(metadata)).len(), metadata);
    lemma_end_boundary(e, header, more);
}

/// An opened directory shows its own entry.
pub proof fn law_directory_itself(
    archive: Seq<u8>,
    e: EncoderView,
    metadata: MetadataView,
    files: Files,
    path: Seq<u8>,
)
    requires
        holds_directory(archive, e, metadata, files),
    ensures
        directory_of(archive, e, files, path).lookup_self() == Ok::<_, Error>(
            FileView {
                archive,
                entry: EntryView { path, metadata, kind: KindView::Directory },
                start: e.last().entry_offset,
                end: end_of(e, files),
                filename_offset: None,
            },
        ),
{
    let z = encode_files(e, files)->Ok_0;
    let h = leave(z)->Ok_0;
    lemma_some_boundary();
    lemma_files_written(e, files, choose|rest: Seq<u8>| at_boundary(rest));
    lemma_files_listed(e, files);
    lemma_finish_written(z);
    let bye = z.settled().goodbye_item();
    lemma_item_boundary(bye, Seq::empty());
    assert(bye.wire() + Seq::<u8>::empty() =~= bye.wire());
    lemma_files_written(e, files, bye.wire());
    let rest = files_delta(e, files) + bye.wire();
    let start = e.last().entry_offset;
    let end = end_of(e, files);
    lemma_part(archive, h.archive, start as int, end as int);
    let head = wire_of(metadata_items(metadata));
    assert(h.archive.subrange(start as int, end as int) =~= head + rest) by {
        assert(h.archive =~= e.archive + rest);
        assert(e.archive.len() == start + head.len());
    }
    let input = range_stream(archive, start, end);
    assert(input.unread =~= head + rest);
    lemma_directory_decoded(initial_decoder(input, path, true), metadata, rest);
    assert(entry_in(archive, start, end, path) matches Ok((_, entry)) && entry == (EntryView {
        path,
        metadata,
        kind: KindView::Directory,
    })) by {
        reveal(entry_in);
    }
}

/// A written directory ends within 64 bits.
proof fn lemma_fits(e: EncoderView, files: Files)
    requires
        on_spot(e),
        encode_files(e, files) is Ok,
        leave(encode_files(e, files)->Ok_0) is Ok,
    ensures
        leave(encode_files(e, files)->Ok_0)->Ok_0.archive.len() <= u64::MAX,
{
    lemma_files_listed(e, files);
    lemma_finish_written(encode_files(e, files)->Ok_0);
}

/// To decode a directory is to decode the part of the archive where it stands.
proof fn lemma_decoded_full(dir: DirectoryView)
    ensures
        dir.decode_full() == match reported(
            initial_decoder(
                range_stream(dir.archive, dir.entry_ofs, dir.end_offset() as u64),
                dir.path,
                true,
            ),
        ) {
            Ok((d, Some(entry))) => if entry.kind is Directory {
                Ok(d)
            } else {
                Err(Error::DirectoryExpected)
            },
            Ok((_, None)) => Err(Error::EofInDirectoryEntry),
            Err(e) => Err(e),
        },
{
    reveal(entry_in);
    reveal(reported);
}

/// Decoding an opened directory from its start gives back its files, each directory in front of
/// what is in it, and then the end. The position of the contents of each file is reported, too.
pub proof fn law_decode_full(
    archive: Seq<u8>,
    e: EncoderView,
    metadata: MetadataView,
    files: Files,
    path: Seq<u8>,
)
    requires
        holds_directory(archive, e, metadata, files),
    ensures
        directory_of(archive, e, files, path).decode_full() matches Ok(d) && decodes_to(
            d,
            listing(e, path, files, Some(0), false),
        ),
{
    let z = encode_files(e, files)->Ok_0;
    let h = leave(z)->Ok_0;
    lemma_whole_directory_written(e, files);
    lemma_fits(e, files);
    let rest = files_delta(e, files) + z.settled().goodbye_item().wire();
    let start = e.last().entry_offset;
    let end = end_of(e, files);
    lemma_part(archive, h.archive, start as int, end as int);
    let head = wire_of(metadata_items(metadata));
    assert(h.archive.subrange(start as int, end as int) =~= head + rest) by {
        assert(e.archive.len() == start + head.len());
    }
    let input = range_stream(archive, start, end);
    assert(input.unread =~= head + rest);
    let d = initial_decoder(input, path, true);
    assert(ends_after(d, e, Some(0), rest)) by {
        reveal(end_position);
    }
    lemma_read_whole_directory(e, metadata, files, Some(0), d);
    let all = listing(e, path, files, Some(0), false);
    assert(all + directory_end(false) =~= all);
    lemma_decoded_full(directory_of(archive, e, files, path));
}

/// The goodbye item of a member leads to it.
proof fn lemma_cursor_at(archive: Seq<u8>, m: Member, dir: DirectoryView, j: int)
    requires
        m.stored(archive),
        dir.archive == archive,
        m.end() <= dir.goodbye_ofs,
        dir.table[j] == relative_item(item_between(m.before, m.after, m.name), dir.goodbye_ofs),
    ensures
        dir.cursor(j) == Ok::<_, Error>(
            CursorView {
                file_name: m.name,
                filename_offset: m.name_offset() as u64,
                start: m.start() as u64,
                end: m.end() as u64,
            },
        ),
{
    lemma_member_name(archive, m);
}

/// Every index of the table leads to a member.
proof fn lemma_cursor(
    archive: Seq<u8>,
    e: EncoderView,
    metadata: MetadataView,
    files: Files,
    path: Seq<u8>,
    j: int,
) -> (k: int)
    requires
        holds_directory(archive, e, metadata, files),
        0 <= j < directory_of(archive, e, files, path).table.len(),
    ensures
        0 <= k < members(e, files).len(),
        ({
            let m = members(e, files)[k];
            let dir = directory_of(archive, e, files, path);
            &&& m.stored(archive)
            &&& dir.table[j].hash == filename_hash(m.name)
            &&& dir.cursor(j) == Ok::<_, Error>(
                CursorView {
                    file_name: m.name,
                    filename_offset: m.name_offset() as u64,
                    start: m.start() as u64,
                    end: m.end() as u64,
                },
            )
        }),
{
    broadcast use vstd::seq_lib::group_to_multiset_ensures;

    let z = encode_files(e, files)->Ok_0;
    lemma_files_listed(e, files);
    lemma_finish_written(z);
    lemma_starts(archive, z.archive, z.settled().goodbye_item().wire());
    lemma_members(archive, e, files);
    let dir = directory_of(archive, e, files, path);
    let items = items_for(e, files);
    let at = dir.goodbye_ofs;
    lemma_table_of(items, at);
    lemma_sorted_items(items);
    let ordered = sorted_items(items);
    let i = lemma_node_in_order(dir.table, j);
    let item = ordered[i];
    assert(dir.table[j] == relative_item(item, at));
    assert(ordered.contains(item));
    assert(items.contains(item)) by {
        assert(ordered.to_multiset().contains(item));
        assert(items.to_multiset().contains(item));
    }
    let k = choose|k: int| 0 <= k < items.len() && items[k] == item;
    lemma_cursor_at(archive, members(e, files)[k], dir, j);
    k
}

/// A search for the name of a member comes across it.
proof fn lemma_listed_member(
    archive: Seq<u8>,
    e: EncoderView,
    metadata: MetadataView,
    files: Files,
    path: Seq<u8>,
    k: int,
) -> (r: (int, int))
    requires
        holds_directory(archive, e, metadata, files),
        0 <= k < members(e, files).len(),
    ensures
        ({
            let dir = directory_of(archive, e, files, path);
            let m = members(e, files)[k];
            let found = hits(dir.table, 0, filename_hash(m.name));
            let (x, j) = r;
            &&& 0 <= j < dir.table.len()
            &&& 0 <= x < found.len()
            &&& found[x] == j
            &&& dir.cursor(j) == Ok::<_, Error>(
                CursorView {
                    file_name: m.name,
                    filename_offset: m.name_offset() as u64,
                    start: m.start() as u64,
                    end: m.end() as u64,
                },
            )
        }),
{
    broadcast use vstd::seq_lib::group_to_multiset_ensures;

    let z = encode_files(e, files)->Ok_0;
    lemma_files_listed(e, files);
    lemma_finish_written(z);
    lemma_starts(archive, z.archive, z.settled().goodbye_item().wire());
    lemma_members(archive, e, files);
    let dir = directory_of(archive, e, files, path);
    let items = items_for(e, files);
    let at = dir.goodbye_ofs;
    lemma_table_of(items, at);
    lemma_sorted_items(items);
    let ordered = sorted_items(items);
    let m = members(e, files)[k];
    let item = items[k];
    assert(items.contains(item));
    assert(ordered.contains(item)) by {
        assert(items.to_multiset().contains(item));
        assert(ordered.to_multiset().contains(item));
    }
    let i = choose|i: int| 0 <= i < ordered.len() && ordered[i] == item;
    let j = lemma_node_of(dir.table, i);
    assert(dir.table[j] == relative_item(item, at));
    lemma_cursor_at(archive, m, dir, j);
    lemma_search_finds_all(dir.table, item.hash, j);
    let found = hits(dir.table, 0, item.hash);
    (choose|x: int| 0 <= x < found.len() && found[x] == j, j)
}

/// The file that a cursor of a directory points to is found.
proof fn lemma_decode(archive: Seq<u8>, m: Member, dir: DirectoryView)
    requires
        m.stored(archive),
        dir.archive == archive,
    ensures
        dir.decode_cursor(
            (CursorView {
                file_name: m.name,
                filename_offset: m.name_offset() as u64,
                start: m.start() as u64,
                end: m.end() as u64,
            }),
        ) == Ok::<_, Error>(m.file(archive, dir.path)),
{
    match m.node {
        Node::Leaf(leaf) => {
            lemma_leaf_entry(archive, m, leaf, joined(dir.path, m.name));
        },
        Node::Directory { .. } => {
            lemma_directory_entry(archive, m, joined(dir.path, m.name));
        },
    }
}

/// What looking up a name comes to, where only the hits from `k` on are looked at.
proof fn lemma_lookup_from(
    archive: Seq<u8>,
    e: EncoderView,
    metadata: MetadataView,
    files: Files,
    path: Seq<u8>,
    name: Seq<u8>,
    k: nat,
)
    requires
        holds_directory(archive, e, metadata, files),
        components_of(name) == seq![ComponentView::Normal(name)],
    ensures
        ({
            let dir = directory_of(archive, e, files, path);
            let found = hits(dir.table, 0, filename_hash(name));
            match dir.lookup_from(name, k) {
                Err(_) => false,
                Ok(None) => forall|i: int|
                    k <= i < found.len() ==> (#[trigger] dir.cursor(found[i]))->Ok_0.file_name
                        != name,
                Ok(Some(file)) => exists|i: int|
                    0 <= i < members(e, files).len() && members(e, files)[i].name == name && file
                        == (#[trigger] members(e, files)[i]).file(archive, path),
            }
        }),
    decreases
            hits(
                directory_of(archive, e, files, path).table,
                0,
                filename_hash(name),
            ).len() - k,
{
    let dir = directory_of(archive, e, files, path);
    let found = hits(dir.table, 0, filename_hash(name));
    if k < found.len() {
        lemma_hits_sound(dir.table, 0, filename_hash(name));
        let j = found[k as int];
        assert(found[k as int] == hits(dir.table, 0, filename_hash(name))[k as int]);
        let i = lemma_cursor(archive, e, metadata, files, path, j);
        let m = members(e, files)[i];
        lemma_decode(archive, m, dir);
        let body = lemma_member_bytes(archive, m);
        lemma_name_is_component(m.name);
        if m.name == name {
            assert(members(e, files)[i].file(archive, path) == m.file(archive, path));
        } else {
            assert(components_of(m.name)[0] == ComponentView::Normal(m.name));
            assert(components_of(name)[0] == ComponentView::Normal(name));
            lemma_lookup_from(archive, e, metadata, files, path, name, k + 1);
            if dir.lookup_from(name, k + 1) is Ok && dir.lookup_from(name, k + 1)->Ok_0 is None {
                assert forall|i: int| k <= i < found.len() implies (#[trigger] dir.cursor(
                    found[i],
                ))->Ok_0.file_name != name by {
                    if i == k {
                        assert(dir.cursor(j)->Ok_0.file_name == m.name);
                    }
                }
            }
        }
    }
}

/// Looking up a name in an encoded directory finds a file with that name, with its metadata, its
/// kind and its place, and finds nothing only where no file has that name.
pub proof fn law_lookup(
    archive: Seq<u8>,
    e: EncoderView,
    metadata: MetadataView,
    files: Files,
    path: Seq<u8>,
    name: Seq<u8>,
)
    requires
        holds_directory(archive, e, metadata, files),
        components_of(name) == seq![ComponentView::Normal(name)],
    ensures
        match directory_of(archive, e, files, path).lookup_component(name) {
            Err(_) => false,
            Ok(None) => forall|i: int|
                0 <= i < members(e, files).len() ==> (#[trigger] members(e, files)[i]).name != name,
            Ok(Some(file)) => exists|i: int|
                0 <= i < members(e, files).len() && members(e, files)[i].name == name && file == (
                #[trigger] members(e, files)[i]).file(archive, path),
        },
{
    let dir = directory_of(archive, e, files, path);
    let found = hits(dir.table, 0, filename_hash(name));
    lemma_lookup_from(archive, e, metadata, files, path, name, 0);
    if dir.lookup_from(name, 0) == Ok::<Option<FileView>, Error>(None) {
        assert forall|i: int| 0 <= i < members(e, files).len() implies (#[trigger] members(
            e,
            files,
        )[i]).name != name by {
            if members(e, files)[i].name == name {
                let x = lemma_listed_member(archive, e, metadata, files, path, i).0;
                assert(dir.cursor(found[x])->Ok_0.file_name != name);
            }
        }
    }
}

/// The root directory of an encoded archive can be opened: the archive holds it, and it ends where
/// the archive ends.
pub proof fn law_root_directory(metadata: MetadataView, files: Files)
    requires
        encode_archive(metadata, files) is Ok,
        readable_xattrs(metadata.xattrs),
        readable(files),
        ({
            let e = new_encoder(Seq::empty(), None, metadata, None)->Ok_0;
            items_for(e, files).len() * GOODBYE_ITEM_SIZE <= usize::MAX
        }),
    ensures
        ({
            let archive = encode_archive(metadata, files)->Ok_0.archive;
            let e = new_encoder(Seq::empty(), None, metadata, None)->Ok_0;
            &&& holds_directory(archive, e, metadata, files)
            &&& end_of(e, files) == archive.len()
        }),
{
    let archive = encode_archive(metadata, files)->Ok_0.archive;
    let e = new_encoder(Seq::empty(), None, metadata, None)->Ok_0;
    lemma_root_written(metadata);
    assert(e.archive.skip(0) =~= e.archive);
    assert(archive.take(archive.len() as int) =~= archive);
    let z = encode_files(e, files)->Ok_0;
    lemma_files_listed(e, files);
    lemma_finish_written(z);
}

/// A directory that was found in another one can be entered.
pub proof fn law_enter_directory(archive: Seq<u8>, m: Member, dir: Seq<u8>)
    requires
        m.stored(archive),
        m.node matches Node::Directory { metadata, files } ==> items_for(
            enter(m.before, m.name, metadata)->Ok_0,
            files,
        ).len() * GOODBYE_ITEM_SIZE <= usize::MAX,
    ensures
        match m.node {
            Node::Leaf(_) => m.file(archive, dir).enter_directory() == Err::<DirectoryView, Error>(
                Error::EnterNonDirectory,
            ),
            Node::Directory { metadata, files } => {
                let inner = enter(m.before, m.name, metadata)->Ok_0;
                &&& holds_directory(archive, inner, metadata, files)
                &&& m.file(archive, dir).enter_directory() == Ok::<_, Error>(
                    directory_of(archive, inner, files, joined(dir, m.name)),
                )
            },
        },
{
    if let Node::Directory { metadata, files } = m.node {
        let inner = enter(m.before, m.name, metadata)->Ok_0;
        lemma_entered(m.before, m.name, metadata);
        lemma_directory_written(m.before, m.name, metadata);
        let name = filename_item(m.name).wire();
        let head = wire_of(metadata_items(metadata));
        assert(inner.archive.skip(inner.last().entry_offset as int) =~= head);
        law_open_directory(archive, inner, metadata, files, joined(dir, m.name));
    }
}

/// The contents of a file that was found are those that were added.
pub proof fn law_contents(archive: Seq<u8>, m: Member, dir: Seq<u8>)
    requires
        m.stored(archive),
    ensures
        match m.node {
            Node::Leaf(Leaf::File { contents, .. }) => {
                &&& m.file(archive, dir).content_range() matches Ok(Some((start, end)))
                &&& start == m.contents_offset()
                &&& end == m.end()
                &&& part_of(archive, start, end) == contents
            },
            _ => m.file(archive, dir).content_range() == Ok::<Option<(u64, u64)>, Error>(None),
        },
{
    let body = lemma_member_bytes(archive, m);
    if let Node::Leaf(Leaf::File { metadata, contents }) = m.node {
        header_of(PXAR_PAYLOAD, contents.len()).lemma_wire_round_trip();
        lemma_part(archive, m.after.archive, m.contents_offset(), m.end());
        assert(m.after.archive.subrange(m.contents_offset(), m.end()) =~= contents);
        if contents.len() == 0 {
            assert(contents =~= Seq::<u8>::empty());
        }
    }
}

/// A hard link that was added leads back to what stands at the offset that it was added with.
pub proof fn law_hardlink_distance(
    archive: Seq<u8>,
    e: EncoderView,
    name: Seq<u8>,
    target: Seq<u8>,
    target_offset: u64,
    size: u64,
    dir: Seq<u8>,
)
    requires
        on_spot(e),
        e.add_hardlink(name, target, target_offset) is Ok,
        starts_with(archive, e.add_hardlink(name, target, target_offset)->Ok_0.archive),
    ensures
        ({
            let link = Member {
                name,
                node: Node::Leaf(
                    Leaf::Hardlink { distance: (e.archive.len() - target_offset) as u64, target },
                ),
                before: e,
                after: e.add_hardlink(name, target, target_offset)->Ok_0,
            };
            &&& link.stored(archive)
            &&& link_target(archive, size, link.file(archive, dir)) == file_named_at(
                archive,
                size,
                target_offset,
            )
        }),
{
    let distance = (e.archive.len() - target_offset) as u64;
    let leaf = Leaf::Hardlink { distance, target };
    lemma_settled(e);
    assert(leaf.encode(e, name) == e.add_hardlink(name, target, target_offset)) by {
        reveal(Leaf::encode);
    }
    lemma_leaf_listed(e, name, leaf);
    let link = Member {
        name,
        node: Node::Leaf(leaf),
        before: e,
        after: e.add_hardlink(name, target, target_offset)->Ok_0,
    };
    lemma_member_name(archive, link);
}

/// What stands at the offset of a regular file is that file, with its metadata and its contents.
pub proof fn law_follow_hardlink(archive: Seq<u8>, m: Member, size: u64)
    requires
        m.stored(archive),
        m.node matches Node::Leaf(leaf) && leaf is File,
        m.end() <= size <= archive.len(),
    ensures
        file_named_at(archive, size, m.name_offset() as u64) == Ok::<_, Error>(
            FileView {
                archive,
                entry: EntryView { path: Seq::empty(), ..m.entry(Seq::empty()) },
                start: m.start() as u64,
                end: m.end() as u64,
                filename_offset: Some(m.name_offset() as u64),
            },
        ),
{
    if let Node::Leaf(Leaf::File { metadata, contents }) = m.node {
        let body = lemma_member_bytes(archive, m);
        let item = filename_item(m.name);
        let header = header_of(PXAR_FILENAME, item.content.len());
        header.lemma_wire_round_trip();
        let at = m.name_offset();
        lemma_part(archive, m.after.archive, at, at + 16);
        assert(m.after.archive.subrange(at, at + 16) =~= header.wire());
        let head = wire_of(metadata_items(metadata));
        let payload = header_of(PXAR_PAYLOAD, contents.len());
        payload.lemma_wire_round_trip();
        lemma_part(archive, m.after.archive, m.start(), m.end());
        assert(m.after.archive.subrange(m.start(), m.end()) =~= body);
        let after = archive.subrange(m.end(), size as int);
        let rest = contents + after;
        let input = range_stream(archive, m.start() as u64, size);
        assert(input.unread =~= archive.subrange(m.start(), m.end()) + after);
        assert(input.unread =~= head + (payload.wire() + rest));
        let d = initial_decoder(input, Seq::empty(), true);
        lemma_file_decoded(d, metadata, contents.len() as u64, rest);
        assert(bytes_at(archive, at as u64, 16) == Ok::<_, Error>(header.wire()));
        lemma_entry_in(archive, m.start() as u64, size, Seq::empty());
    }
}

/// The entry in a part of an archive is what a decoder reports first there.
proof fn lemma_entry_in(archive: Seq<u8>, start: u64, end: u64, path: Seq<u8>)
    ensures
        entry_in(archive, start, end, path) == match reported(
            initial_decoder(range_stream(archive, start, end), path, true),
        ) {
            Ok((d, Some(entry))) => Ok((d, entry)),
            Ok((_, None)) => Err(Error::EofInDirectoryEntry),
            Err(e) => Err(e),
        },
{
    reveal(entry_in);
    reveal(reported);
}

/// A decoder at a regular file reports it.
proof fn lemma_file_decoded(d: DecoderView, metadata: MetadataView, size: u64, rest: Seq<u8>)
    requires
        d.state is Begin,
        d.input.offset is Some,
        all_acceptable(metadata_items(metadata)),
        readable_xattrs(metadata.xattrs),
        size + HEADER_SIZE <= u64::MAX,
        d.input.unread == wire_of(metadata_items(metadata)) + (header_of(
            PXAR_PAYLOAD,
            size as nat,
        ).wire() + rest),
    ensures
        reported(d) matches Ok((_, Some(entry))) && entry == (EntryView {
            path: d.entry.path,
            metadata,
            kind: KindView::File {
                size,
                position: Some(
                    (d.input.offset->0 + wire_of(metadata_items(metadata)).len() + HEADER_SIZE)
                        as u64,
                ),
            },
        }),
{
    let payload = header_of(PXAR_PAYLOAD, size as nat);
    let h = lemma_open_entry(d, metadata, payload.wire() + rest);
    let e = opened(d, h, wire_of(metadata_items(metadata)).len(), metadata);
    lemma_end_payload(e, size, rest);
    reveal(reported);
}

/// The `j`-th item of a goodbye table leads to a member.
pub open spec fn leads_to(dir: DirectoryView, j: int, m: Member) -> bool {
    &&& dir.cursor(j) matches Ok(cursor)
    &&& cursor.file_name == m.name
    &&& dir.decode_cursor(cursor) == Ok::<_, Error>(m.file(dir.archive, dir.path))
}

/// The `j`-th item of a goodbye table leads to one of some members.
pub open spec fn leads_to_some(dir: DirectoryView, j: int, all: Seq<Member>) -> bool {
    exists|k: int| 0 <= k < all.len() && #[trigger] leads_to(dir, j, all[k])
}

/// Some item of a goodbye table leads to a member.
pub open spec fn is_led_to(dir: DirectoryView, m: Member) -> bool {
    exists|j: int| 0 <= j < dir.table.len() && #[trigger] leads_to(dir, j, m)
}

/// Going through an encoded directory shows its files and nothing else: there are as many items
/// in the goodbye table as there are files, each item leads to a file, and to each file an item
/// leads.
pub proof fn law_read_dir(
    archive: Seq<u8>,
    e: EncoderView,
    metadata: MetadataView,
    files: Files,
    path: Seq<u8>,
)
    requires
        holds_directory(archive, e, metadata, files),
    ensures
        ({
            let dir = directory_of(archive, e, files, path);
            let all = members(e, files);
            &&& dir.table.len() == all.len()
            &&& forall|j: int| 0 <= j < dir.table.len() ==> #[trigger] leads_to_some(dir, j, all)
            &&& forall|k: int| 0 <= k < all.len() ==> #[trigger] is_led_to(dir, all[k])
        }),
{
    let dir = directory_of(archive, e, files, path);
    let all = members(e, files);
    let z = encode_files(e, files)->Ok_0;
    lemma_files_listed(e, files);
    lemma_finish_written(z);
    lemma_starts(archive, z.archive, z.settled().goodbye_item().wire());
    lemma_members(archive, e, files);
    lemma_table_of(items_for(e, files), dir.goodbye_ofs);
    assert forall|j: int| 0 <= j < dir.table.len() implies #[trigger] leads_to_some(
        dir,
        j,
        all,
    ) by {
        let k = lemma_cursor(archive, e, metadata, files, path, j);
        lemma_decode(archive, all[k], dir);
        assert(leads_to(dir, j, all[k]));
    }
    assert forall|k: int| 0 <= k < all.len() implies #[trigger] is_led_to(dir, all[k]) by {
        let j = lemma_listed_member(archive, e, metadata, files, path, k).1;
        lemma_decode(archive, all[k], dir);
        assert(leads_to(dir, j, all[k]));
    }
}

} // verus!
