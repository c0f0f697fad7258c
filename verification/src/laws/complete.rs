//! Any files that fit the format can be encoded.

use vstd::prelude::*;

use crate::encoder::model::{
    device_item, filename_item, hardlink_item, new_encoder, symlink_item, EncoderView,
};
use crate::encoder::write::header_of;
use crate::format::wire::{lemma_le64_len, Wire};
use crate::format::PXAR_PAYLOAD;
use crate::laws::additions::{
    has_type, is_name, law_add_file, law_enter, law_finish, law_start, lemma_entry,
    lemma_goodbye_len, lemma_ready, metadata_size, name_size, ready, within_limits,
};
use crate::laws::paths::file_count;
use crate::laws::tables::{
    add_directory, items_for, lemma_directory_listed, lemma_entered, lemma_files_listed,
    lemma_leaf_listed, listed, on_spot,
};
use crate::laws::tree::{
    encode_archive, encode_files, enter, leave, lemma_finish_written, lemma_leaf_written,
    lemma_root_written, Files, Leaf,
};
use crate::metadata::MetadataView;

verus! {

/// The number of bytes that a leaf takes, without its name.
pub open spec fn leaf_size(leaf: Leaf) -> int {
    match leaf {
        Leaf::Symlink { metadata, target } => metadata_size(metadata) + 17 + target.len(),
        Leaf::Hardlink { target, .. } => 25 + target.len() as int,
        Leaf::Device { metadata, .. } => metadata_size(metadata) + 32,
        Leaf::Fifo { metadata } => metadata_size(metadata),
        Leaf::Socket { metadata } => metadata_size(metadata),
        Leaf::File { metadata, contents } => metadata_size(metadata) + 16 + contents.len(),
    }
}

/// A leaf that the format has room for, where its name starts at `at`: metadata are within the
/// limits and of the right type, the target of a link has at most 4096 bytes, and a hard link leads
/// back to something in the archive.
pub open spec fn leaf_fits(leaf: Leaf, at: int) -> bool {
    match leaf {
        Leaf::Symlink { metadata, target } => within_limits(metadata) && target.len() <= 4096,
        Leaf::Hardlink { distance, target } => 0 < distance <= at && target.len() <= 4096,
        Leaf::Device { metadata, .. } => within_limits(metadata) && (has_type(metadata, 0o020000)
            || has_type(metadata, 0o060000)),
        Leaf::Fifo { metadata } => within_limits(metadata) && has_type(metadata, 0o010000),
        Leaf::Socket { metadata } => within_limits(metadata) && has_type(metadata, 0o140000),
        Leaf::File { metadata, .. } => within_limits(metadata),
    }
}

/// The number of bytes of a goodbye table for some files.
pub open spec fn table_size(files: Files) -> int {
    16 + 24 * (file_count(files) as int + 1)
}

/// The number of bytes that files take.
pub open spec fn files_size(files: Files) -> int
    decreases files,
{
    match files {
        Files::Nil => 0,
        Files::Leaf { name, leaf, next } => name_size(name) + leaf_size(leaf) + files_size(*next),
        Files::Directory { name, metadata, files, next } => name_size(name) + metadata_size(metadata)
            + files_size(*files) + table_size(*files) + files_size(*next),
    }
}

/// Files that the format has room for, where the first of them starts at `at`.
pub open spec fn files_fit(files: Files, at: int) -> bool
    decreases files,
{
    match files {
        Files::Nil => true,
        Files::Leaf { name, leaf, next } => {
            &&& is_name(name)
            &&& leaf_fits(leaf, at)
            &&& files_fit(*next, at + name_size(name) + leaf_size(leaf))
        },
        Files::Directory { name, metadata, files, next } => {
            let start = at + name_size(name) + metadata_size(metadata);
            &&& is_name(name)
            &&& within_limits(metadata)
            &&& has_type(metadata, 0o040000)
            &&& files_fit(*files, start)
            &&& files_fit(*next, start + files_size(*files) + table_size(*files))
        },
    }
}

proof fn lemma_size(files: Files)
    ensures
        files_size(files) >= 0,
    decreases files,
{
    match files {
        Files::Nil => {},
        Files::Leaf { next, .. } => {
            lemma_size(*next);
        },
        Files::Directory { files, next, .. } => {
            lemma_size(*files);
            lemma_size(*next);
        },
    }
}

proof fn lemma_count(e: EncoderView, files: Files)
    ensures
        items_for(e, files).len() == file_count(files),
    decreases files,
{
    match files {
        Files::Nil => {},
        Files::Leaf { name, leaf, next } => {
            lemma_count(leaf.encode(e, name)->Ok_0, *next);
        },
        Files::Directory { name, metadata, files, next } => {
            lemma_count(add_directory(e, name, metadata, *files), *next);
        },
    }
}

/// A leaf that fits can be added, and takes as much room as it should.
proof fn lemma_leaf(e: EncoderView, name: Seq<u8>, leaf: Leaf)
    requires
        ready(e),
        on_spot(e),
        is_name(name),
        leaf_fits(leaf, e.last().write_position as int),
        e.last().write_position + name_size(name) + leaf_size(leaf) <= u64::MAX,
    ensures
        leaf.encode(e, name) matches Ok(f) && {
            &&& ready(f)
            &&& f.last().write_position == e.last().write_position + name_size(name) + leaf_size(
                leaf,
            )
        },
{
    reveal(Leaf::encode);
    lemma_ready(e);
    let s = e.settled();
    assert(s.settled() == s);
    match leaf {
        Leaf::Symlink { metadata, target } => {
            lemma_entry(e, Some(metadata), name, Some(symlink_item(target)));
        },
        Leaf::Hardlink { distance, target } => {
            lemma_le64_len(distance);
            lemma_entry(s, None, name, Some(hardlink_item(distance, target)));
        },
        Leaf::Device { metadata, device } => {
            device.lemma_wire_round_trip();
            lemma_entry(e, Some(metadata), name, Some(device_item(device)));
        },
        Leaf::Fifo { metadata } => {
            lemma_entry(e, Some(metadata), name, None);
        },
        Leaf::Socket { metadata } => {
            lemma_entry(e, Some(metadata), name, None);
        },
        Leaf::File { metadata, contents } => {
            law_add_file(e, metadata, name, contents, 0);
        },
    }
    lemma_leaf_written(e, name, leaf);
    lemma_leaf_len(name, leaf);
}

proof fn lemma_leaf_len(name: Seq<u8>, leaf: Leaf)
    ensures
        filename_item(name).wire().len() == name_size(name),
        leaf.body().len() == leaf_size(leaf),
{
    let item = filename_item(name);
    header_of(item.htype, item.content.len()).lemma_wire_round_trip();
    match leaf {
        Leaf::Symlink { target, .. } => {
            let item = symlink_item(target);
            header_of(item.htype, item.content.len()).lemma_wire_round_trip();
        },
        Leaf::Hardlink { distance, target } => {
            let item = hardlink_item(distance, target);
            lemma_le64_len(distance);
            header_of(item.htype, item.content.len()).lemma_wire_round_trip();
        },
        Leaf::Device { device, .. } => {
            let item = device_item(device);
            device.lemma_wire_round_trip();
            header_of(item.htype, item.content.len()).lemma_wire_round_trip();
        },
        Leaf::File { contents, .. } => {
            header_of(PXAR_PAYLOAD, contents.len()).lemma_wire_round_trip();
        },
        _ => {},
    }
}

/// A directory that fits can be finished once its files have been added.
proof fn lemma_leave(inner: EncoderView, files: Files)
    requires
        ready(inner),
        on_spot(inner),
        listed(inner).len() == 0,
        encode_files(inner, files) matches Ok(z) && ready(z) && {
            &&& z.last().write_position + table_size(files) <= u64::MAX
            &&& z.last().file_offset matches Some(at) ==> at <= z.last().write_position
        },
    ensures
        leave(encode_files(inner, files)->Ok_0) matches Ok(f) && {
            let z = encode_files(inner, files)->Ok_0;
            &&& f.states.len() == inner.states.len() - 1
            &&& inner.states.len() > 1 ==> {
                &&& f.last().write_position == z.last().write_position + table_size(files)
                &&& inner.states[inner.states.len() - 2].encode_error is None && !inner.finished
                    && !z.finished ==> ready(f)
            }
        },
{
    let z = encode_files(inner, files)->Ok_0;
    lemma_files_listed(inner, files);
    lemma_count(inner, files);
    assert(listed(z).len() == file_count(files));
    law_finish(z);
    reveal(leave);
    if inner.states.len() > 1 {
        assert(z.states[z.states.len() - 2] == z.states.drop_last().last());
        assert(inner.states[inner.states.len() - 2] == inner.states.drop_last().last());
    }
}

/// Files that fit can be added, and take as much room as they should.
proof fn lemma_files(e: EncoderView, files: Files)
    requires
        ready(e),
        on_spot(e),
        files_fit(files, e.last().write_position as int),
        e.last().write_position + files_size(files) <= u64::MAX,
    ensures
        encode_files(e, files) matches Ok(f) && {
            &&& ready(f)
            &&& f.last().write_position == e.last().write_position + files_size(files)
        },
    decreases files,
{
    match files {
        Files::Nil => {},
        Files::Leaf { name, leaf, next } => {
            lemma_size(*next);
            lemma_leaf(e, name, leaf);
            let f = leaf.encode(e, name)->Ok_0;
            lemma_leaf_listed(e, name, leaf);
            lemma_files(f, *next);
        },
        Files::Directory { name, metadata, files: inner_files, next } => {
            lemma_size(*inner_files);
            lemma_size(*next);
            law_enter(e, name, metadata);
            let inner = e.create_directory(name, metadata)->Ok_0;
            assert(enter(e, name, metadata) == e.create_directory(name, metadata)) by {
                reveal(enter);
            }
            lemma_entered(e, name, metadata);
            lemma_files(inner, *inner_files);
            let z = encode_files(inner, *inner_files)->Ok_0;
            lemma_files_listed(inner, *inner_files);
            lemma_leave(inner, *inner_files);
            lemma_directory_listed(e, name, metadata, *inner_files);
            let f = add_directory(e, name, metadata, *inner_files);
            lemma_files(f, *next);
        },
    }
}

/// An archive of any files that the format has room for can be encoded: names are names, metadata
/// are within the limits and of the right type, targets of links have at most 4096 bytes, hard links
/// lead back into the archive, and the whole archive takes no more than 64 bits can count.
pub proof fn law_can_be_encoded(metadata: MetadataView, files: Files)
    requires
        within_limits(metadata),
        has_type(metadata, 0o040000),
        files_fit(files, metadata_size(metadata)),
        metadata_size(metadata) + 40 + files_size(files) + table_size(files) <= u64::MAX,
    ensures
        encode_archive(metadata, files) matches Ok(e) && {
            &&& e.states.len() == 0
            &&& e.archive.len() == metadata_size(metadata) + files_size(files) + table_size(files)
        },
{
    lemma_size(files);
    law_start(Seq::empty(), None, metadata, None);
    let e = new_encoder(Seq::empty(), None, metadata, None)->Ok_0;
    lemma_root_written(metadata);
    lemma_files(e, files);
    let z = encode_files(e, files)->Ok_0;
    lemma_files_listed(e, files);
    lemma_count(e, files);
    assert(e.last().file_offset is None);
    lemma_leave(e, files);
    lemma_finish_written(z);
    lemma_goodbye_len(z.settled());
    let item = z.settled().goodbye_item();
    header_of(item.htype, item.content.len()).lemma_wire_round_trip();
}

} // verus!
