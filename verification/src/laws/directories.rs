//! Random access to any archive: what has to stand where.

use vstd::bytes::lemma_auto_spec_u64_to_from_le_bytes;
use vstd::prelude::*;

use crate::accessor::model::{
    directory_at, entry_in, file_named_at, filename_at, frame_at, items_of, link_target, tail_at,
    CursorView, DirectoryView, FileView,
};
use crate::accessor::read_at::bytes_at;
use crate::decoder::model::DecoderView;
use crate::encoder::write::header_of;
use crate::entry::KindView;
use crate::errors::Error;
use crate::format::wire::{le64, lemma_le64_len, Wire};
use crate::format::{is_legal_component, law_legal_component, GoodbyeItem, PXAR_FILENAME};
use crate::laws::additions::is_name;
use crate::laws::layout::item_bytes;

verus! {

/// The bytes of an item of a goodbye table are those that it was read from.
proof fn lemma_read_item(bytes: Seq<u8>)
    requires
        bytes.len() == 24,
    ensures
        GoodbyeItem::from_wire(bytes).wire() == bytes,
{
    lemma_auto_spec_u64_to_from_le_bytes();
    let a = bytes.subrange(0, 8);
    let b = bytes.subrange(8, 16);
    let c = bytes.subrange(16, 24);
    let item = GoodbyeItem::from_wire(bytes);
    assert(le64(item.hash) == a);
    assert(le64(item.offset) == b);
    assert(le64(item.size) == c);
    assert(a + b + c =~= bytes);
}

/// The last 24 bytes of a directory tell where it starts: they hold a marker, the distance from the
/// goodbye table to the directory's entry, and the size of the goodbye table. The table has to lie
/// within the archive, and has to consist of a header, items of 24 bytes each and these last 24
/// bytes. Then the directory can be opened, and its items are those that stand there.
pub proof fn law_directory_at(
    archive: Seq<u8>,
    end: u64,
    path: Seq<u8>,
    offset: u64,
    size: u64,
    i: int,
)
    requires
        24 <= end <= archive.len() <= u64::MAX,
        archive.subrange(end - 24, end as int) == le64(0xef5eed5b753e1555) + le64(offset) + le64(
            size,
        ),
        size <= usize::MAX,
    ensures
        directory_at(archive, end, path) is Ok <==> {
            &&& 40 <= size <= end
            &&& (size - 16) % 24 == 0
            &&& offset <= end - size
        },
        directory_at(archive, end, path) matches Ok(dir) ==> {
            &&& dir.archive == archive
            &&& dir.path == path
            &&& dir.goodbye_ofs == end - size
            &&& dir.entry_ofs == end - size - offset
            &&& dir.entry_ofs + dir.size == end
            &&& dir.table.len() * 24 == size - 40
            &&& 0 <= i < dir.table.len() ==> archive.subrange(
                end - size + 16 + 24 * i,
                end - size + 16 + 24 * (i + 1),
            ) == le64(dir.table[i].hash) + le64(dir.table[i].offset) + le64(dir.table[i].size)
        },
{
    let tail = GoodbyeItem { hash: 0xef5eed5b753e1555, offset, size };
    tail.lemma_wire_round_trip();
    assert(archive.subrange(end - 24, end as int) == tail.wire());
    assert(tail_at(archive, end) == Ok::<_, Error>(tail));
    if size <= end && offset <= end - size {
        let frame = frame_at(archive, end, path)->Ok_0;
        assert(frame.end_offset() == end);
        assert(frame.table_offset() == end - size + 16);
        if 40 <= size && (size - 16) % 24 == 0 {
            let n = frame.table_len();
            assert(n * 24 == size - 40);
            let at = end - size + 16;
            assert(frame.table_size() == size - 16);
            let data = archive.subrange(at, at + n * 24);
            if n == 0 {
                assert(data =~= Seq::<u8>::empty());
            }
            assert(bytes_at(archive, at as u64, n * 24) == Ok::<_, Error>(data));
            let table = items_of(data);
            assert(table.len() == n);
            if 0 <= i < n {
                let part = data.subrange(i * 24, (i + 1) * 24);
                lemma_read_item(part);
                assert(part =~= archive.subrange(at + 24 * i, at + 24 * (i + 1)));
            }
        }
    }
}

/// Where there is no room for these bytes, or the marker is missing, there is no directory.
pub proof fn law_no_directory(archive: Seq<u8>, end: u64, path: Seq<u8>, hash: u64, rest: Seq<u8>)
    requires
        rest.len() == 16,
    ensures
        end < 24 ==> directory_at(archive, end, path) == Err::<DirectoryView, Error>(
            Error::GoodbyeTailMissing,
        ),
        end >= 24 && end > archive.len() ==> directory_at(archive, end, path) == Err::<
            DirectoryView,
            Error,
        >(Error::UnexpectedEof),
        24 <= end <= archive.len() && hash != 0xef5eed5b753e1555 && archive.subrange(
            end - 24,
            end as int,
        ) == le64(hash) + rest ==> directory_at(archive, end, path) == Err::<DirectoryView, Error>(
            Error::GoodbyeTailMarkerMissing,
        ),
{
    lemma_le64_len(hash);
    let bytes = le64(hash) + rest;
    assert(bytes.subrange(0, 8) =~= le64(hash));
    hash.lemma_wire_round_trip();
    assert(le64(hash).subrange(0, 8) =~= le64(hash));
    assert(GoodbyeItem::from_wire(bytes).hash == hash);
}

/// An item of a goodbye table leads to a file name, as far back from the start of the table as the
/// item says. The file ends as far behind its name's start as the item says, which has to be behind
/// the name itself.
pub proof fn law_cursor(dir: DirectoryView, index: int, name: Seq<u8>, at: int)
    requires
        0 <= index < dir.table.len(),
        at == dir.goodbye_ofs - dir.table[index].offset,
        0 <= at,
        at + 17 + name.len() <= dir.archive.len() <= u64::MAX,
        dir.archive.len() <= usize::MAX,
        is_name(name),
        dir.archive.subrange(at, at + 17 + name.len()) == item_bytes(
            0x16701121063917b3,
            name + seq![0u8],
        ),
    ensures
        ({
            let size = dir.table[index].size;
            let good = size >= 17 + name.len() && at + size <= u64::MAX;
            &&& good ==> dir.cursor(index) == Ok::<_, Error>(
                CursorView {
                    file_name: name,
                    filename_offset: at as u64,
                    start: (at + 17 + name.len()) as u64,
                    end: (at + size) as u64,
                },
            )
            &&& !good ==> dir.cursor(index) == Err::<CursorView, Error>(
                Error::InvalidEntryRange {
                    start: (at + 17 + name.len()) as u64,
                    file_ofs: at as u64,
                    size,
                },
            )
        }),
{
    let content = name + seq![0u8];
    let header = header_of(PXAR_FILENAME, content.len());
    header.lemma_wire_round_trip();
    let all = item_bytes(0x16701121063917b3, content);
    assert(all =~= header.wire() + content);
    let bytes = dir.archive.subrange(at, at + 17 + name.len());
    assert(dir.archive.subrange(at, at + 16) =~= bytes.subrange(0, 16));
    assert(all.subrange(0, 16) =~= header.wire());
    assert(dir.archive.subrange(at + 16, at + 16 + content.len()) =~= bytes.subrange(
        16,
        (16 + content.len()) as int,
    ));
    assert(all.subrange(16, (16 + content.len()) as int) =~= content);
    assert(content.drop_last() =~= name);
    assert(!name.contains(0x2f)) by {
        if name.contains(0x2fu8) {
            let i = choose|i: int| 0 <= i < name.len() && name[i] == 0x2f;
        }
    }
    law_legal_component(name, name);
    assert(filename_at(dir.archive, at as u64) == Ok::<_, Error>(
        (name, (at + 17 + name.len()) as u64),
    ));
}

/// A hard link leads back from the start of its own name by its distance, to the name of a regular
/// file. What is found there has no path, and ends where its contents end.
pub proof fn law_link(archive: Seq<u8>, size: u64, link: FileView)
    ensures
        !(link.entry.kind is Hardlink) ==> link_target(archive, size, link) == Err::<FileView, Error>(
            Error::NotAHardlink,
        ),
        link_target(archive, size, link) matches Ok(file) ==> {
            &&& link.entry.kind matches KindView::Hardlink { offset, .. }
            &&& link.filename_offset matches Some(from)
            &&& file.filename_offset matches Some(at)
            &&& at + offset == from
            &&& file.archive == archive
            &&& file.entry.kind matches KindView::File { size: length, position }
            &&& position matches Some(start)
            &&& file.end == start + length
            &&& file == file_named_at(archive, size, at)->Ok_0
            &&& exists|d: DecoderView|
                entry_in(archive, file.start, size, Seq::empty()) == Ok::<_, Error>(
                    (d, file.entry),
                )
        },
{
    if let Ok(file) = link_target(archive, size, link) {
        let (d, entry) = entry_in(archive, file.start, size, Seq::empty())->Ok_0;
        assert(entry_in(archive, file.start, size, Seq::empty()) == Ok::<_, Error>((d, file.entry)));
    }
}

/// The contents of a file are as many bytes as the file is large, from its position on.
pub proof fn law_content_range(file: FileView)
    ensures
        file.content_range() matches Ok(r) ==> match file.entry.kind {
            KindView::File { size, position } => {
                &&& r matches Some((start, end))
                &&& position == Some(start)
                &&& end - start == size
            },
            _ => r is None,
        },
        file.content_range() is Err <==> {
            &&& file.entry.kind matches KindView::File { size, position }
            &&& position matches Some(at) ==> at + size > u64::MAX
        },
{
}

/// What is no file name is not taken for one: an item of another type, or a byte string that does
/// not end in a zero, is empty otherwise, or is more than a name.
pub proof fn law_no_name(archive: Seq<u8>, at: u64, htype: u64, content: Seq<u8>)
    requires
        at + 16 + content.len() <= archive.len() <= u64::MAX,
        archive.len() <= usize::MAX,
        archive.subrange(at as int, at + 16 + content.len()) == item_bytes(htype, content),
    ensures
        htype != 0x16701121063917b3 ==> filename_at(archive, at) == Err::<(Seq<u8>, u64), Error>(
            Error::ExpectedFilename { htype },
        ),
        htype == 0x16701121063917b3 ==> {
            &&& content.len() == 0 || content.last() != 0 ==> filename_at(archive, at) == Err::<
                (Seq<u8>, u64),
                Error,
            >(Error::MissingTerminatingZero)
            &&& content == seq![0u8] ==> filename_at(archive, at) == Err::<(Seq<u8>, u64), Error>(
                Error::EmptyName,
            )
            &&& content.len() > 1 && content.last() == 0 && !is_legal_component(content.drop_last())
                ==> filename_at(archive, at) == Err::<(Seq<u8>, u64), Error>(
                Error::InvalidFileName,
            )
        },
{
    let header = header_of(htype, content.len());
    header.lemma_wire_round_trip();
    let all = item_bytes(htype, content);
    assert(all =~= header.wire() + content);
    let bytes = archive.subrange(at as int, at + 16 + content.len());
    assert(archive.subrange(at as int, at + 16) =~= bytes.subrange(0, 16));
    assert(all.subrange(0, 16) =~= header.wire());
    assert(archive.subrange(at + 16, at + 16 + content.len()) =~= bytes.subrange(
        16,
        (16 + content.len()) as int,
    ));
    assert(all.subrange(16, (16 + content.len()) as int) =~= content);
    if content.len() == 0 {
        assert(content =~= Seq::<u8>::empty());
    }
}

} // verus!
