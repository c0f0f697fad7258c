//! What an encoder writes for each thing that is added, byte for byte.

use vstd::prelude::*;

use crate::decoder::model::{initial_decoder, DecoderView};
use crate::decoder::read::InputView;
use crate::encoder::model::{
    device_item, filename_item, hardlink_item, metadata_items, new_encoder, symlink_item,
    EncoderView,
};
use crate::encoder::write::{header_of, wire_of, ItemView};
use crate::entry::{EntryView, KindView};
use crate::errors::Error;
use crate::format::goodbye::filename_hash;
use crate::format::items::{law_link_target, unterminated};
use crate::format::wire::{le64, Wire};
use crate::format::{Device, GoodbyeItem, PXAR_PAYLOAD};
use crate::goodbye_table::goodbye_content;
use crate::laws::additions::{has_type, metadata_size, within_limits};
use crate::laws::complete::{files_fit, files_size, law_can_be_encoded, table_size};
use crate::laws::items::readable_xattrs;
use crate::laws::layout::{item_bytes, law_entry_items, law_metadata, metadata_bytes};
use crate::laws::tables::listed;
use crate::laws::tree::{
    self, decodes_to, directory_end, encode_archive, law_archive_round_trip, lemma_leaf_written,
    lemma_put, lemma_started, listing, readable, Files, Leaf, Listed,
};
use crate::metadata::MetadataView;

verus! {

/// The bytes of a name.
pub open spec fn name_bytes(name: Seq<u8>) -> Seq<u8> {
    item_bytes(0x16701121063917b3, name + seq![0u8])
}

/// `f` is what comes of adding something to `e` that takes these bytes: they follow in the archive,
/// the position moves on by as many, and the directory lists them under the name. Nothing else is
/// written.
pub open spec fn added(e: EncoderView, f: EncoderView, name: Seq<u8>, bytes: Seq<u8>) -> bool {
    &&& f.archive == e.archive + bytes
    &&& f.payload == e.payload
    &&& f.states.len() == e.states.len()
    &&& f.states.drop_last() == e.states.drop_last()
    &&& f.last().write_position == e.last().write_position + bytes.len()
    &&& f.last().payload_write_position == e.last().payload_write_position
    &&& f.last().entry_offset == e.last().entry_offset
    &&& f.last().file_offset == e.last().file_offset
    &&& f.last().file_hash == e.last().file_hash
    &&& listed(f) == listed(e).push(
        GoodbyeItem {
            hash: filename_hash(name),
            offset: e.last().write_position,
            size: bytes.len() as u64,
        },
    )
}

/// What becomes of the directories when something is added.
proof fn lemma_added_state(
    e: EncoderView,
    metadata: Option<MetadataView>,
    name: Seq<u8>,
    item: Option<ItemView>,
)
    requires
        e.states.len() > 0,
        e.add_entry(metadata, name, item) is Ok,
    ensures
        ({
            let f = e.add_entry(metadata, name, item)->Ok_0;
            &&& f.states.drop_last() == e.states.drop_last()
            &&& f.last().payload_write_position == e.last().payload_write_position
            &&& f.last().entry_offset == e.last().entry_offset
            &&& f.last().file_offset == e.last().file_offset
            &&& f.last().file_hash == e.last().file_hash
            &&& f.open is None
            &&& f.last().items == listed(e).push(
                GoodbyeItem {
                    hash: filename_hash(name),
                    offset: e.last().write_position,
                    size: (f.last().write_position - e.last().write_position) as u64,
                },
            )
        }),
{
    let s = e.settled();
    let f = e.add_entry(metadata, name, item)->Ok_0;
    let d = s.start_file(metadata, name)->Ok_0;
    assert(s.states.drop_last() =~= e.states.drop_last());
    assert(d.last().items == s.last().items);
    assert(d.states.drop_last() =~= e.states.drop_last());
    assert(f.states.drop_last() =~= e.states.drop_last());
}

proof fn lemma_added(
    e: EncoderView,
    metadata: Option<MetadataView>,
    name: Seq<u8>,
    item: Option<ItemView>,
    bytes: Seq<u8>,
)
    requires
        e.states.len() > 0,
        e.add_entry(metadata, name, item) is Ok,
        bytes == filename_item(name).wire() + ((match metadata {
            Some(m) => wire_of(metadata_items(m)),
            None => Seq::empty(),
        }) + (match item {
            Some(i) => i.wire(),
            None => Seq::empty(),
        })),
    ensures
        added(e, e.add_entry(metadata, name, item)->Ok_0, name, bytes),
{
    tree::lemma_added(e, metadata, name, item);
    lemma_added_state(e, metadata, name, item);
}

/// A symbolic link is its name, its metadata and its target, in this order, and a device node has
/// its numbers in place of the target. A named pipe or a socket is nothing but its name and its
/// metadata. A hard link has no metadata: it is its name, the distance back from there to its
/// target's name, and the path of the target. Each is listed.
pub proof fn law_written(
    e: EncoderView,
    metadata: MetadataView,
    name: Seq<u8>,
    target: Seq<u8>,
    target_offset: u64,
    device: Device,
)
    requires
        e.states.len() > 0,
    ensures
        e.add_entry(Some(metadata), name, Some(symlink_item(target))) matches Ok(f) ==> added(
            e,
            f,
            name,
            name_bytes(name) + (metadata_bytes(metadata) + item_bytes(
                0x27f971e7dbf5dc5f,
                target + seq![0u8],
            )),
        ),
        e.add_device(metadata, name, device) matches Ok(f) ==> added(
            e,
            f,
            name,
            name_bytes(name) + (metadata_bytes(metadata) + item_bytes(
                0x9fc9e906586d5ce9,
                le64(device.major) + le64(device.minor),
            )),
        ),
        e.add_fifo(metadata, name) matches Ok(f) ==> added(
            e,
            f,
            name,
            name_bytes(name) + metadata_bytes(metadata),
        ),
        e.add_socket(metadata, name) matches Ok(f) ==> added(
            e,
            f,
            name,
            name_bytes(name) + metadata_bytes(metadata),
        ),
        e.add_hardlink(name, target, target_offset) matches Ok(f) ==> {
            &&& target_offset < e.last().write_position
            &&& added(
                e,
                f,
                name,
                name_bytes(name) + item_bytes(
                    0x51269c8422bd7275,
                    le64((e.last().write_position - target_offset) as u64) + target + seq![0u8],
                ),
            )
        },
{
    let none = Seq::<u8>::empty();
    let head = wire_of(metadata_items(metadata));
    law_metadata(metadata);
    let distance = (e.last().write_position - target_offset) as u64;
    law_entry_items(name, target, distance, device, 0, 0);
    if e.add_entry(Some(metadata), name, Some(symlink_item(target))) is Ok {
        let item = symlink_item(target);
        lemma_added(e, Some(metadata), name, Some(item), name_bytes(name) + (head + item.wire()));
    }
    if e.add_device(metadata, name, device) is Ok {
        let item = device_item(device);
        lemma_added(e, Some(metadata), name, Some(item), name_bytes(name) + (head + item.wire()));
    }
    assert(head + none =~= head);
    if e.add_fifo(metadata, name) is Ok || e.add_socket(metadata, name) is Ok {
        lemma_added(e, Some(metadata), name, None, name_bytes(name) + (head + none));
    }
    if e.add_hardlink(name, target, target_offset) is Ok {
        let s = e.settled();
        let item = hardlink_item(distance, target);
        assert(s.settled() == s);
        assert(none + item.wire() =~= item.wire());
        lemma_added(s, None, name, Some(item), name_bytes(name) + (none + item.wire()));
        assert(s.states.drop_last() =~= e.states.drop_last());
    }
}

/// A file whose contents stand in the archive is its name, its metadata and its contents, in this
/// order, and is listed.
pub proof fn law_file_written(
    e: EncoderView,
    metadata: MetadataView,
    name: Seq<u8>,
    contents: Seq<u8>,
)
    requires
        e.states.len() > 0,
        e.payload is None,
        contents.len() <= u64::MAX,
        e.add_file(metadata, name, contents.len() as u64, contents) is Ok,
    ensures
        added(
            e,
            e.add_file(metadata, name, contents.len() as u64, contents)->Ok_0,
            name,
            name_bytes(name) + (metadata_bytes(metadata) + item_bytes(
                0x28147a1b0b7c1a25,
                contents,
            )),
        ),
{
    let f = e.add_file(metadata, name, contents.len() as u64, contents)->Ok_0;
    let leaf = Leaf::File { metadata, contents };
    assert(leaf.encode(e, name) == Ok::<_, Error>(f)) by {
        reveal(Leaf::encode);
    }
    lemma_leaf_written(e, name, leaf);
    law_metadata(metadata);
    law_entry_items(name, Seq::empty(), 0, Device { major: 0, minor: 0 }, 0, 0);
    let payload = header_of(PXAR_PAYLOAD, contents.len()).wire() + contents;
    assert(payload =~= item_bytes(0x28147a1b0b7c1a25, contents));
    lemma_file_state(e, metadata, name, contents);
}

/// What becomes of the directories when a file is added.
proof fn lemma_file_state(
    e: EncoderView,
    metadata: MetadataView,
    name: Seq<u8>,
    contents: Seq<u8>,
)
    requires
        e.states.len() > 0,
        e.payload is None,
        contents.len() <= u64::MAX,
        e.add_file(metadata, name, contents.len() as u64, contents) is Ok,
    ensures
        ({
            let f = e.add_file(metadata, name, contents.len() as u64, contents)->Ok_0;
            &&& f.states.drop_last() == e.states.drop_last()
            &&& f.last().payload_write_position == e.last().payload_write_position
            &&& f.last().entry_offset == e.last().entry_offset
            &&& f.last().file_offset == e.last().file_offset
            &&& f.last().file_hash == e.last().file_hash
            &&& listed(f) == listed(e).push(
                GoodbyeItem {
                    hash: filename_hash(name),
                    offset: e.last().write_position,
                    size: (f.last().write_position - e.last().write_position) as u64,
                },
            )
        }),
{
    let size = contents.len() as u64;
    let s = e.settled();
    let d = s.start_file(Some(metadata), name)->Ok_0;
    let g = d.start_payload(size)->Ok_0;
    let o = e.create_file(metadata, name, size)->Ok_0;
    let f = o.with_contents(contents);
    assert(s.states.drop_last() =~= e.states.drop_last());
    assert(d.states.drop_last() =~= e.states.drop_last());
    assert(g.states.drop_last() =~= e.states.drop_last());
    assert(f.states.drop_last() =~= e.states.drop_last());
    assert(d.last().items == s.last().items);
    assert(g.last().items == s.last().items);
    assert(f.last().items == s.last().items);
}

/// A directory starts with its name and its metadata, and ends with its goodbye table.
pub proof fn law_directory_written(e: EncoderView, name: Seq<u8>, metadata: MetadataView)
    requires
        e.states.len() > 0,
    ensures
        e.create_directory(name, metadata) matches Ok(f) ==> {
            &&& f.archive == e.archive + (name_bytes(name) + metadata_bytes(metadata))
            &&& f.payload == e.payload
        },
        e.finish() matches Ok(f) ==> {
            &&& f.archive == e.archive + item_bytes(
                0x2fec4fa642d5731d,
                goodbye_content(listed(e), e.last().write_position, e.last().entry_offset),
            )
            &&& f.payload == e.payload
        },
{
    let s = e.settled();
    if let Ok(f) = e.create_directory(name, metadata) {
        lemma_started(s, Some(metadata), name);
        law_entry_items(name, Seq::empty(), 0, Device { major: 0, minor: 0 }, 0, 0);
        law_metadata(metadata);
        assert(f.archive == s.start_file(Some(metadata), name)->Ok_0.archive);
    }
    if let Ok(f) = e.finish() {
        lemma_put(s, s.goodbye_item());
    }
}

/// The target of a link is read back as it was given, whatever bytes it has.
pub proof fn law_target_read_back(leaf: Leaf, position: Option<u64>)
    ensures
        leaf matches Leaf::Symlink { target, .. } ==> (leaf.kind(position) matches KindView::Symlink(
            data,
        ) && unterminated(data) == target),
        leaf matches Leaf::Hardlink { distance, target } ==> (leaf.kind(position) matches
            KindView::Hardlink { offset, data } && offset == distance && unterminated(data)
            == target),
{
    match leaf {
        Leaf::Symlink { target, .. } => {
            law_link_target(target, target);
        },
        Leaf::Hardlink { target, .. } => {
            law_link_target(target, target);
        },
        _ => {},
    }
}

/// Any files that the format has room for, and whose extended attributes have names without a zero,
/// can be encoded, and decoding gives them back.
pub proof fn law_encode_and_decode(metadata: MetadataView, files: Files)
    requires
        within_limits(metadata),
        has_type(metadata, 0o040000),
        files_fit(files, metadata_size(metadata)),
        metadata_size(metadata) + 40 + files_size(files) + table_size(files) <= u64::MAX,
        readable_xattrs(metadata.xattrs),
        readable(files),
    ensures
        encode_archive(metadata, files) matches Ok(e) && decodes_to(
            initial_decoder(
                InputView { unread: e.archive, offset: None },
                seq![0x2fu8],
                false,
            ),
            seq![
                Listed {
                    entry: EntryView {
                        path: seq![0x2fu8],
                        metadata,
                        kind: KindView::Directory,
                    },
                    contents: None,
                },
            ] + listing(
                new_encoder(Seq::empty(), None, metadata, None)->Ok_0,
                seq![0x2fu8],
                files,
                None,
                false,
            ),
        ),
{
    law_can_be_encoded(metadata, files);
    law_archive_round_trip(metadata, files, None, false);
    let e = encode_archive(metadata, files)->Ok_0;
    let d = initial_decoder(
        InputView { unread: e.archive, offset: None },
        seq![0x2fu8],
        false,
    );
    assert((DecoderView { with_goodbye_tables: false, ..d }) =~= d);
    let root = Listed {
        entry: EntryView { path: seq![0x2fu8], metadata, kind: KindView::Directory },
        contents: None,
    };
    let all = seq![root] + listing(
        new_encoder(Seq::empty(), None, metadata, None)->Ok_0,
        seq![0x2fu8],
        files,
        None,
        false,
    );
    assert(all + directory_end(false) =~= all);
}

} // verus!
