//! The goodbye table of a directory lists its files.

use vstd::prelude::*;

use crate::encoder::model::{
    device_item, filename_item, hardlink_item, metadata_items, symlink_item, EncodeError,
    EncoderView, StateView,
};
use crate::encoder::write::{header_of, ItemView};
use crate::format::goodbye::filename_hash;
use crate::format::wire::Wire;
use crate::format::{GoodbyeItem, PXAR_PAYLOAD};
use crate::laws::tree::{
    encode_files, enter, leave, lemma_directory_written, lemma_finish_written, lemma_leaf_written,
    lemma_put, lemma_settled, Files, Leaf,
};
use crate::metadata::MetadataView;

verus! {

/// An encoder that writes a single stream and whose position is the number of bytes written.
pub open spec fn on_spot(e: EncoderView) -> bool {
    e.payload is None && e.states.len() > 0 && e.last().write_position == e.archive.len()
}

/// Two encoders in the same directory.
pub open spec fn same_directory(e: EncoderView, f: EncoderView) -> bool {
    &&& f.states.len() == e.states.len()
    &&& f.states.drop_last() == e.states.drop_last()
    &&& f.last().entry_offset == e.last().entry_offset
    &&& f.last().file_offset == e.last().file_offset
    &&& f.last().file_hash == e.last().file_hash
}

/// Two encoders in the same directory, which have listed the same files.
spec fn kept(e: EncoderView, f: EncoderView) -> bool {
    same_directory(e, f) && f.last().items == e.last().items && f.open == e.open
}

/// The files that an encoder has listed, along with the one that was added last.
pub open spec fn listed(e: EncoderView) -> Seq<GoodbyeItem> {
    e.settled().last().items
}

/// The goodbye item for what was written between two states.
pub open spec fn item_between(e: EncoderView, f: EncoderView, name: Seq<u8>) -> GoodbyeItem {
    GoodbyeItem {
        hash: filename_hash(name),
        offset: e.archive.len() as u64,
        size: (f.archive.len() - e.archive.len()) as u64,
    }
}

/// Add a directory with its files.
pub open spec fn add_directory(
    e: EncoderView,
    name: Seq<u8>,
    metadata: MetadataView,
    files: Files,
) -> EncoderView {
    leave(encode_files(enter(e, name, metadata)->Ok_0, files)->Ok_0)->Ok_0
}

/// The goodbye items of files, in the order in which they are added.
pub open spec fn items_for(e: EncoderView, files: Files) -> Seq<GoodbyeItem>
    decreases files,
{
    match files {
        Files::Nil => Seq::empty(),
        Files::Leaf { name, leaf, next } => {
            let f = leaf.encode(e, name)->Ok_0;
            seq![item_between(e, f, name)] + items_for(f, *next)
        },
        Files::Directory { name, metadata, files, next } => {
            let f = add_directory(e, name, metadata, *files);
            seq![item_between(e, f, name)] + items_for(f, *next)
        },
    }
}

proof fn lemma_last(e: EncoderView, state: StateView)
    requires
        e.states.len() > 0,
    ensures
        e.with_last(state).last() == state,
        e.with_last(state).states.drop_last() == e.states.drop_last(),
        e.with_last(state).states.len() == e.states.len(),
{
    assert(e.with_last(state).states.drop_last() =~= e.states.drop_last());
}

proof fn lemma_kept_put(e: EncoderView, item: ItemView)
    requires
        e.put_item(item) is Ok,
    ensures
        kept(e, e.put_item(item)->Ok_0),
{
    let c = e.cursor().put_item(item)->Ok_0;
    lemma_last(
        EncoderView { archive: c.bytes, ..e },
        StateView { write_position: c.position, ..e.last() },
    );
}

proof fn lemma_kept_start(e: EncoderView, metadata: Option<MetadataView>, name: Seq<u8>)
    requires
        e.start_file(metadata, name) is Ok,
    ensures
        kept(e, e.start_file(metadata, name)->Ok_0),
{
    let f = e.put_filename(name)->Ok_0;
    lemma_kept_put(e, filename_item(name));
    if let Some(m) = metadata {
        let c = f.cursor().put_items(metadata_items(m))->Ok_0;
        lemma_last(
            EncoderView { archive: c.bytes, ..f },
            StateView { write_position: c.position, ..f.last() },
        );
    }
}

/// Taking leave of the last file does not leave the directory.
proof fn lemma_settled_directory(e: EncoderView)
    requires
        e.states.len() > 0,
    ensures
        same_directory(e, e.settled()),
        e.settled().settled() == e.settled(),
{
    if let Some(file) = e.open {
        let state = if file.remaining_size != 0 {
            e.last().with_error(Some(EncodeError::IncompleteFile))
        } else {
            e.last()
        };
        lemma_last(
            EncoderView { open: None, ..e },
            StateView { items: state.items.push(file.goodbye_item), ..state },
        );
    }
}

proof fn lemma_entry_listed(
    e: EncoderView,
    metadata: Option<MetadataView>,
    name: Seq<u8>,
    item: Option<ItemView>,
)
    requires
        on_spot(e),
        e.add_entry(metadata, name, item) is Ok,
        e.add_entry(metadata, name, item)->Ok_0.last().write_position == e.add_entry(
            metadata,
            name,
            item,
        )->Ok_0.archive.len(),
    ensures
        ({
            let f = e.add_entry(metadata, name, item)->Ok_0;
            &&& same_directory(e, f)
            &&& listed(f) == listed(e).push(item_between(e, f, name))
        }),
{
    lemma_settled(e);
    lemma_settled_directory(e);
    let s = e.settled();
    lemma_kept_start(s, metadata, name);
    let d = s.start_file(metadata, name)->Ok_0;
    if let Some(i) = item {
        lemma_kept_put(d, i);
    }
    let d2 = match item {
        Some(i) => d.put_item(i)->Ok_0,
        None => d,
    };
    lemma_last(
        d2,
        StateView {
            items: d2.last().items.push(
                GoodbyeItem {
                    hash: filename_hash(name),
                    offset: s.last().write_position,
                    size: (d2.last().write_position - s.last().write_position) as u64,
                },
            ),
            ..d2.last()
        },
    );
}

proof fn lemma_file_listed(
    e: EncoderView,
    name: Seq<u8>,
    metadata: MetadataView,
    contents: Seq<u8>,
)
    requires
        on_spot(e),
        contents.len() <= u64::MAX,
        e.add_file(metadata, name, contents.len() as u64, contents) is Ok,
        ({
            let f = e.add_file(metadata, name, contents.len() as u64, contents)->Ok_0;
            f.last().write_position == f.archive.len()
        }),
    ensures
        ({
            let f = e.add_file(metadata, name, contents.len() as u64, contents)->Ok_0;
            &&& same_directory(e, f)
            &&& listed(f) == listed(e).push(item_between(e, f, name))
        }),
{
    lemma_settled(e);
    lemma_settled_directory(e);
    let s = e.settled();
    let size = contents.len() as u64;
    lemma_kept_start(s, Some(metadata), name);
    let d = s.start_file(Some(metadata), name)->Ok_0;
    let p = d.start_payload(size)->Ok_0;
    let c = d.cursor().put(
        header_of(PXAR_PAYLOAD, size as nat).wire(),
    )->Ok_0;
    lemma_last(
        EncoderView { archive: c.bytes, ..d },
        StateView { write_position: c.position, ..d.last() },
    );
    let o = e.create_file(metadata, name, size)->Ok_0;
    let f = o.with_contents(contents);
    let opened = EncoderView { open: f.open, ..o };
    lemma_last(
        EncoderView { archive: o.archive + contents, ..opened },
        StateView {
            write_position: (o.last().write_position + contents.len()) as u64,
            ..o.last()
        },
    );
    lemma_settled_directory(f);
    lemma_last(
        EncoderView { open: None, ..f },
        StateView { items: f.last().items.push(f.open->0.goodbye_item), ..f.last() },
    );
}

/// A leaf is listed.
pub proof fn lemma_leaf_listed(e: EncoderView, name: Seq<u8>, leaf: Leaf)
    requires
        on_spot(e),
        leaf.encode(e, name) is Ok,
    ensures
        ({
            let f = leaf.encode(e, name)->Ok_0;
            &&& on_spot(f)
            &&& same_directory(e, f)
            &&& listed(f) == listed(e).push(item_between(e, f, name))
        }),
{
    lemma_leaf_written(e, name, leaf);
    let f = leaf.encode(e, name)->Ok_0;
    assert(on_spot(f));
    reveal(Leaf::encode);
    match leaf {
        Leaf::Symlink { metadata, target } => {
            lemma_entry_listed(e, Some(metadata), name, Some(symlink_item(target)));
        },
        Leaf::Hardlink { distance, target } => {
            lemma_settled(e);
            lemma_settled_directory(e);
            lemma_entry_listed(e.settled(), None, name, Some(hardlink_item(distance, target)));
        },
        Leaf::Device { metadata, device } => {
            lemma_entry_listed(e, Some(metadata), name, Some(device_item(device)));
        },
        Leaf::Fifo { metadata } => {
            lemma_entry_listed(e, Some(metadata), name, None);
        },
        Leaf::Socket { metadata } => {
            lemma_entry_listed(e, Some(metadata), name, None);
        },
        Leaf::File { metadata, contents } => {
            lemma_file_listed(e, name, metadata, contents);
        },
    }
}

/// A new directory has no files yet. Where it was entered from is remembered.
pub proof fn lemma_entered(e: EncoderView, name: Seq<u8>, metadata: MetadataView)
    requires
        on_spot(e),
        enter(e, name, metadata) is Ok,
    ensures
        ({
            let f = enter(e, name, metadata)->Ok_0;
            &&& on_spot(f)
            &&& f.open is None
            &&& listed(f) == Seq::<GoodbyeItem>::empty()
            &&& f.last().file_offset == Some(e.archive.len() as u64)
            &&& f.last().file_hash == filename_hash(name)
            &&& f.last().entry_offset == e.archive.len()
                + filename_item(name).wire().len()
            &&& f.states.len() == e.states.len() + 1
            &&& f.states.drop_last().drop_last() == e.states.drop_last()
            &&& f.states.drop_last().last().items == listed(e)
            &&& f.states.drop_last().last().entry_offset == e.last().entry_offset
            &&& f.states.drop_last().last().file_offset == e.last().file_offset
            &&& f.states.drop_last().last().file_hash == e.last().file_hash
        }),
{
    lemma_directory_written(e, name, metadata);
    lemma_settled(e);
    lemma_settled_directory(e);
    reveal(enter);
    let s = e.settled();
    let item = filename_item(name);
    lemma_kept_put(s, item);
    lemma_put(s, item);
    lemma_kept_start(s, Some(metadata), name);
    let d = s.start_file(Some(metadata), name)->Ok_0;
    let f = enter(e, name, metadata)->Ok_0;
    assert(f.states.drop_last() =~= d.states);
}

/// A finished directory is listed in its parent.
pub proof fn lemma_left(e: EncoderView)
    requires
        on_spot(e),
        e.states.len() > 1,
        leave(e) is Ok,
    ensures
        ({
            let f = leave(e)->Ok_0;
            let parent = e.states.drop_last().last();
            &&& on_spot(f)
            &&& f.open is None
            &&& f.states.len() == e.states.len() - 1
            &&& f.states.drop_last() == e.states.drop_last().drop_last()
            &&& f.last().entry_offset == parent.entry_offset
            &&& f.last().file_offset == parent.file_offset
            &&& f.last().file_hash == parent.file_hash
            &&& listed(f) == parent.items.push(
                GoodbyeItem {
                    hash: e.last().file_hash,
                    offset: e.last().file_offset->0,
                    size: (f.archive.len() - e.last().file_offset->0) as u64,
                },
            )
        }),
{
    lemma_finish_written(e);
    lemma_settled(e);
    lemma_settled_directory(e);
    reveal(leave);
    let s = e.settled();
    lemma_kept_put(s, s.goodbye_item());
    let d = s.put_item(s.goodbye_item())->Ok_0;
    let child = d.last();
    let rest = EncoderView { states: d.states.drop_last(), ..d };
    assert(rest.states == e.states.drop_last());
    let f = leave(e)->Ok_0;
    lemma_last(rest, f.last());
    assert(f.states.drop_last() =~= rest.states.drop_last());
}

/// A directory and its files are listed in its parent.
pub proof fn lemma_directory_listed(
    e: EncoderView,
    name: Seq<u8>,
    metadata: MetadataView,
    files: Files,
)
    requires
        on_spot(e),
        enter(e, name, metadata) is Ok,
        encode_files(enter(e, name, metadata)->Ok_0, files) is Ok,
        leave(encode_files(enter(e, name, metadata)->Ok_0, files)->Ok_0) is Ok,
    ensures
        ({
            let f = add_directory(e, name, metadata, files);
            &&& on_spot(f)
            &&& same_directory(e, f)
            &&& listed(f) == listed(e).push(item_between(e, f, name))
        }),
    decreases files, 1int,
{
    lemma_entered(e, name, metadata);
    let inner = enter(e, name, metadata)->Ok_0;
    lemma_files_listed(inner, files);
    lemma_left(encode_files(inner, files)->Ok_0);
}

/// Files are listed in the order in which they are added.
pub proof fn lemma_files_listed(e: EncoderView, files: Files)
    requires
        on_spot(e),
        encode_files(e, files) is Ok,
    ensures
        ({
            let f = encode_files(e, files)->Ok_0;
            &&& on_spot(f)
            &&& same_directory(e, f)
            &&& listed(f) == listed(e) + items_for(e, files)
        }),
    decreases files, 0int,
{
    let z = encode_files(e, files)->Ok_0;
    match files {
        Files::Nil => {
            assert(listed(e) + items_for(e, files) =~= listed(e));
        },
        Files::Leaf { name, leaf, next } => {
            lemma_leaf_listed(e, name, leaf);
            let f = leaf.encode(e, name)->Ok_0;
            lemma_files_listed(f, *next);
            assert(listed(z) =~= listed(e) + items_for(e, files));
        },
        Files::Directory { name, metadata, files: inner, next } => {
            lemma_directory_listed(e, name, metadata, *inner);
            let f = add_directory(e, name, metadata, *inner);
            lemma_files_listed(f, *next);
            assert(listed(z) =~= listed(e) + items_for(e, files));
        },
    }
}

} // verus!
