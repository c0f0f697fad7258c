//! What is left when an encoder refuses something.

use vstd::prelude::*;

use crate::encoder::model::{filename_item, metadata_items, EncodeError, EncoderView, StateView};
use crate::encoder::write::{header_of, lemma_put_items, starts_with, wire_of, Cursor, ItemView};
use crate::errors::Error;
use crate::format::wire::Wire;
use crate::format::{Device, PXAR_PAYLOAD};
use crate::laws::tables::listed;
use crate::metadata::MetadataView;

verus! {

/// Where one of some items is refused, those in front of it have been written, and no others: the
/// `k`-th item is the first one that is refused.
pub proof fn law_items_refused(c: Cursor, items: Seq<ItemView>) -> (k: int)
    ensures
        0 <= k <= items.len(),
        c.put_items(items.take(k)) == Ok::<_, Error>(c.put_until_refused(items)),
        c.put_until_refused(items).bytes == c.bytes + wire_of(items.take(k)),
        c.put_until_refused(items).position == c.position + wire_of(items.take(k)).len(),
        c.put_items(items) is Ok <==> k == items.len(),
        k < items.len() ==> (c.put_items(items) matches Err(e) && c.put_until_refused(
            items,
        ).put_item(items[k]) == Err::<Cursor, Error>(e)),
    decreases items.len(),
{
    if items.len() == 0 {
        assert(items.take(0) =~= items);
        lemma_put_items(c, items);
        0
    } else {
        match c.put_item(items[0]) {
            Ok(d) => {
                let rest = items.skip(1);
                let j = law_items_refused(d, rest);
                let k = j + 1;
                let front = items.take(k);
                assert(front.skip(1) =~= rest.take(j));
                assert(front[0] == items[0]);
                lemma_put_items(c, front);
                if j < rest.len() {
                    assert(rest[j] == items[k]);
                }
                k
            },
            Err(_) => {
                assert(items.take(0) =~= Seq::<ItemView>::empty());
                lemma_put_items(c, items.take(0));
                0
            },
        }
    }
}

/// What is put on a stack of states by writing items.
proof fn lemma_left(e: EncoderView, items: Seq<ItemView>)
    ensures
        ({
            let f = e.items_refused(items);
            &&& starts_with(f.archive, e.archive)
            &&& f.payload == e.payload
            &&& f.open == e.open
            &&& f.states.len() == e.states.len()
            &&& e.states.len() > 0 ==> f.last() == (StateView {
                write_position: f.last().write_position,
                ..e.last()
            }) && f.last().write_position - e.last().write_position == f.archive.len()
                - e.archive.len()
        }),
{
    assert(e.archive.take(e.archive.len() as int) =~= e.archive);
    if e.states.len() > 0 {
        let k = law_items_refused(e.cursor(), items);
        let f = e.items_refused(items);
        assert(f.archive.take(e.archive.len() as int) =~= e.archive);
    }
}

/// Where nothing is written on account of its name or of the state of the encoder, nothing with
/// that name is added in any way, and for the same reason; all that happens is that the encoder
/// takes leave of the last file.
pub proof fn law_refusal(
    e: EncoderView,
    metadata: MetadataView,
    name: Seq<u8>,
    size: u64,
    item: Option<ItemView>,
    error: Error,
)
    requires
        e.refusal(name) == Some(error),
    ensures
        e.create_file(metadata, name, size) == Err::<EncoderView, Error>(error),
        e.add_entry(Some(metadata), name, item) == Err::<EncoderView, Error>(error),
        e.add_entry(None, name, item) == Err::<EncoderView, Error>(error),
        e.file_refused(metadata, name, size) == e.settled(),
        e.entry_refused(Some(metadata), name) == e.settled(),
        e.entry_refused(None, name) == e.settled(),
{
}

/// Where something is refused before anything is written, it is not added, and for that reason.
/// Where it is refused for another reason, at least its name has been written.
pub proof fn law_refusals(
    e: EncoderView,
    metadata: MetadataView,
    name: Seq<u8>,
    target: Seq<u8>,
    target_offset: u64,
    device: Device,
    size: u64,
    offset: u64,
)
    requires
        e.states.len() > 0,
    ensures
        e.device_refusal(metadata, name) matches Some(error) ==> e.add_device(
            metadata,
            name,
            device,
        ) == Err::<EncoderView, Error>(error),
        e.fifo_refusal(metadata, name) matches Some(error) ==> e.add_fifo(metadata, name) == Err::<
            EncoderView,
            Error,
        >(error),
        e.socket_refusal(metadata, name) matches Some(error) ==> e.add_socket(metadata, name)
            == Err::<EncoderView, Error>(error),
        e.hardlink_refusal(name, target_offset) matches Some(error) ==> e.add_hardlink(
            name,
            target,
            target_offset,
        ) == Err::<EncoderView, Error>(error),
        e.payload_ref_refusal(name, offset) matches Some(error) ==> e.add_payload_ref(
            metadata,
            name,
            size,
            offset,
        ) == Err::<EncoderView, Error>(error),
        e.directory_refusal(name, metadata) matches Some(error) ==> e.create_directory(
            name,
            metadata,
        ) == Err::<EncoderView, Error>(error),
        e.finish_refusal() matches Some(error) ==> e.finish() == Err::<EncoderView, Error>(error),
        e.refusal(name) is None ==> {
            &&& e.entry_refused(Some(metadata), name).archive.len() > e.archive.len()
            &&& e.entry_refused(None, name).archive.len() > e.archive.len()
            &&& e.file_refused(metadata, name, size).archive.len() > e.archive.len()
        },
{
    let s = e.settled();
    assert(s.settled() == s);
    assert(s.archive == e.archive);
    if e.refusal(name) is None {
        let d = s.put_filename(name)->Ok_0;
        let item = filename_item(name);
        header_of(item.htype, item.content.len()).lemma_wire_round_trip();
        assert(d.archive.len() == e.archive.len() + 16 + item.content.len());
        lemma_left(d, metadata_items(metadata));
        lemma_put_items(d.cursor(), metadata_items(metadata));
        if let Ok(f) = d.put_items(metadata_items(metadata)) {
            assert(f.archive.len() >= d.archive.len());
            if let Ok(g) = f.start_payload(size) {
                lemma_longer(f, size);
            }
        }
    }
}

proof fn lemma_longer(e: EncoderView, size: u64)
    requires
        e.states.len() > 0,
    ensures
        e.start_payload(size) matches Ok(f) ==> f.archive.len() >= e.archive.len(),
{
}

/// Something that is refused is not listed, whatever has been written of it: the directory lists
/// what it listed before, the encoder is not in any file, and what had been written is still there.
pub proof fn law_refused_is_not_listed(
    e: EncoderView,
    metadata: MetadataView,
    name: Seq<u8>,
    size: u64,
)
    requires
        e.states.len() > 0,
    ensures
        ({
            let f = e.entry_refused(Some(metadata), name);
            &&& listed(f) == listed(e)
            &&& f.open is None
            &&& starts_with(f.archive, e.archive)
            &&& f.payload == e.payload
            &&& f.last().write_position - e.last().write_position == f.archive.len()
                - e.archive.len()
            &&& f.last().payload_write_position == e.last().payload_write_position
        }),
        ({
            let f = e.file_refused(metadata, name, size);
            &&& listed(f) == listed(e)
            &&& f.open is None
            &&& f.last().write_position - e.last().write_position == f.archive.len()
                - e.archive.len()
        }),
{
    let s = e.settled();
    assert(s.archive.take(s.archive.len() as int) =~= s.archive);
    if s.check_error() is None {
        let item = filename_item(name);
        header_of(item.htype, item.content.len()).lemma_wire_round_trip();
        if let Ok(d) = s.put_filename(name) {
            assert(d.archive =~= s.archive + item.wire());
            assert(d.archive.take(s.archive.len() as int) =~= s.archive);
            lemma_left(d, metadata_items(metadata));
            let g = d.items_refused(metadata_items(metadata));
            assert(g.archive.take(s.archive.len() as int) =~= d.archive.take(
                s.archive.len() as int,
            ));
            if let Ok(f) = d.put_items(metadata_items(metadata)) {
                lemma_put_items(d.cursor(), metadata_items(metadata));
                assert(f.archive.take(s.archive.len() as int) =~= s.archive);
                lemma_left_payload(f, size);
            }
        }
    }
}

proof fn lemma_left_payload(e: EncoderView, size: u64)
    requires
        e.states.len() > 0,
        e.open is None,
    ensures
        ({
            let f = match e.start_payload(size) {
                Ok(f) => f,
                Err(_) => e.payload_refused(size),
            };
            &&& f.last().items == e.last().items
            &&& f.open is None
            &&& f.states.len() == e.states.len()
            &&& f.last().write_position - e.last().write_position == f.archive.len()
                - e.archive.len()
        }),
{
    let header = header_of(PXAR_PAYLOAD, size as nat);
    header.lemma_wire_round_trip();
}

/// An error that is pending in a directory keeps everything from being added to it, for the same
/// reason, and is passed on when the directory is finished: to the parent, unless an error is
/// pending there already, or else to the caller.
pub proof fn law_pending_error(
    e: EncoderView,
    error: EncodeError,
    metadata: MetadataView,
    name: Seq<u8>,
    size: u64,
    item: Option<ItemView>,
)
    requires
        !e.finished,
        e.states.len() > 0,
        e.last().encode_error == Some(error),
    ensures
        ({
            let reason = match error {
                EncodeError::IncompleteFile => Error::IncompleteFile,
                EncodeError::IncompleteDirectory => Error::IncompleteDirectory,
            };
            &&& e.create_file(metadata, name, size) == Err::<EncoderView, Error>(reason)
            &&& e.add_entry(Some(metadata), name, item) == Err::<EncoderView, Error>(reason)
            &&& e.add_entry(None, name, item) == Err::<EncoderView, Error>(reason)
            &&& e.create_directory(name, metadata) == Err::<EncoderView, Error>(reason)
            &&& e.states.len() == 1 ==> e.finish() is Err
            &&& e.states.len() > 1 ==> (e.finish() matches Ok(f) ==> {
                let parent = e.states[e.states.len() - 2];
                f.last().encode_error == if parent.encode_error is None {
                    Some(error)
                } else {
                    parent.encode_error
                }
            })
        }),
{
    let s = e.settled();
    assert(s.last().encode_error == Some(error));
    if e.states.len() > 1 {
        if let Ok(f) = e.finish() {
            let d = s.put_item(s.goodbye_item())->Ok_0;
            assert(d.states.drop_last().last() == e.states[e.states.len() - 2]);
        }
    }
}

/// When an encoder takes leave of a file, the file is listed as it was announced, and an error is
/// pending if some of its contents are missing. Nothing is written, and nothing else changes.
pub proof fn law_take_leave(e: EncoderView)
    requires
        e.states.len() > 0,
    ensures
        e.open is None ==> e.settled() == e,
        e.open matches Some(file) ==> {
            let s = e.settled();
            &&& s.open is None
            &&& s.archive == e.archive
            &&& s.payload == e.payload
            &&& s.finished == e.finished
            &&& s.version == e.version
            &&& s.states.len() == e.states.len()
            &&& s.states.drop_last() == e.states.drop_last()
            &&& s.last().items == e.last().items.push(file.goodbye_item)
            &&& s.last().encode_error == if e.last().encode_error is None && file.remaining_size
                != 0 {
                Some(EncodeError::IncompleteFile)
            } else {
                e.last().encode_error
            }
            &&& s.last().write_position == e.last().write_position
            &&& s.last().payload_write_position == e.last().payload_write_position
            &&& s.last().entry_offset == e.last().entry_offset
            &&& s.last().files_offset == e.last().files_offset
            &&& s.last().file_offset == e.last().file_offset
            &&& s.last().file_hash == e.last().file_hash
        },
{
    if e.open is Some {
        assert(e.settled().states.drop_last() =~= e.states.drop_last());
    }
}

/// The contents of a file can be written as long as there is room for them in what was announced.
/// They go to the payload stream, where there is one, or else to the archive, as they are.
pub proof fn law_write(e: EncoderView, data: Seq<u8>)
    requires
        e.states.len() > 0,
        e.open is Some,
    ensures
        ({
            let room = e.open->0.remaining_size;
            let position = if e.payload is Some {
                e.last().payload_write_position
            } else {
                e.last().write_position
            };
            &&& e.contents_refusal(data) is None <==> data.len() <= room && position + data.len()
                <= u64::MAX
            &&& data.len() > room <==> e.contents_refusal(data) == Some(Error::FileOverrun)
        }),
        e.contents_refusal(data) is None ==> {
            let f = e.with_contents(data);
            &&& f.open is Some
            &&& f.open->0.remaining_size == e.open->0.remaining_size - data.len()
            &&& f.open->0.goodbye_item == e.open->0.goodbye_item
            &&& f.states.len() == e.states.len()
            &&& f.states.drop_last() == e.states.drop_last()
            &&& f.last().items == e.last().items
            &&& f.last().encode_error == e.last().encode_error
            &&& match e.payload {
                Some(payload) => {
                    &&& f.payload == Some(payload + data)
                    &&& f.archive == e.archive
                    &&& f.last().payload_write_position == e.last().payload_write_position
                        + data.len()
                    &&& f.last().write_position == e.last().write_position
                },
                None => {
                    &&& f.payload is None
                    &&& f.archive == e.archive + data
                    &&& f.last().write_position == e.last().write_position + data.len()
                    &&& f.last().payload_write_position == e.last().payload_write_position
                },
            }
        },
{
    if e.contents_refusal(data) is None {
        assert(e.with_contents(data).states.drop_last() =~= e.states.drop_last());
    }
}

} // verus!
