//! What a decoder makes of the items that it finds.

use vstd::prelude::*;

use crate::accessor::adapter::range_stream;
use crate::accessor::model::part_of;
use crate::accessor::read_at::bytes_at;
use crate::decoder::model::{lemma_next_item, DecoderView, ItemResult, State};
use crate::decoder::read::{lemma_advanced, InputView};
use crate::encoder::model::metadata_items;
use crate::encoder::write::{header_of, wire_of};
use crate::entry::{EntryView, KindView};
use crate::errors::{Error, ItemName};
use crate::format::wire::{lemma_le32_len, lemma_le64_len, Wire};
use crate::format::{
    header_error, Entry, Header, Stat_V1, StatxTimestamp, PXAR_ENTRY, PXAR_ENTRY_V1,
};
use crate::laws::additions::{is_name, law_names_accepted};
use crate::laws::entries::{lemma_end_boundary, lemma_open_entry, opened};
use crate::laws::items::{all_acceptable, lemma_content, lemma_header, readable_xattrs};
use crate::laws::layout::{item_bytes, old_stat_bytes, stat_bytes};
use crate::metadata::MetadataView;
use crate::path::joined;

verus! {

/// The current stat data for some of the first version: all the same, but that the time is split
/// into seconds and nanoseconds.
pub open spec fn current_stat(old: Stat_V1) -> Entry {
    Entry {
        mode: old.mode,
        flags: old.flags,
        uid: old.uid,
        gid: old.gid,
        mtime: StatxTimestamp {
            secs: (old.mtime / 1_000_000_000) as i64,
            nanos: (old.mtime % 1_000_000_000) as u32,
        },
    }
}

/// The bytes of an item of stat data, cut into the header, the content and the rest.
proof fn lemma_stat_bytes(htype: u64, content: Seq<u8>, rest: Seq<u8>, d: DecoderView)
    requires
        htype == 0xd5956474e588acef && content.len() == 40 || htype == 0x11da850a1c1cceff
            && content.len() == 32,
        d.input.unread == item_bytes(htype, content) + rest,
    ensures
        ({
            let e = DecoderView {
                header: header_of(htype, content.len()),
                input: d.input.advanced(16),
                ..d
            };
            &&& d.next_header_or_eof() == Ok::<_, Error>(Some(e))
            &&& e.input.take_exact(content.len()) == Ok::<_, Error>(
                (content, d.input.advanced(16 + content.len())),
            )
            &&& d.input.advanced(16 + content.len()).unread == rest
        }),
{
    let header = header_of(htype, content.len());
    header.lemma_wire_round_trip();
    assert(item_bytes(htype, content) + rest =~= header.wire() + (content + rest));
    lemma_header(d, header, content + rest);
    assert((content + rest).take(content.len() as int) =~= content);
    assert((content + rest).skip(content.len() as int) =~= rest);
    lemma_advanced(d.input, 16, content.len());
}

/// An entry with stat data of the first version is read as the same entry with current stat data:
/// with the very mode, flags and owners, and at the same point in time. The current stat data take
/// eight bytes more, so that the archive has to start eight bytes earlier for everything behind
/// them to stand at the same place.
pub proof fn law_old_entry(d: DecoderView, old: Stat_V1, rest: Seq<u8>)
    requires
        d.input.unread == item_bytes(0x11da850a1c1cceff, old_stat_bytes(old)) + rest,
    ensures
        d.next_entry_or_eof() == (DecoderView {
            input: InputView {
                unread: item_bytes(0xd5956474e588acef, stat_bytes(current_stat(old))) + rest,
                offset: match d.input.offset {
                    Some(at) => Some(at - 8),
                    None => None,
                },
            },
            ..d
        }).next_entry_or_eof(),
{
    broadcast use {lemma_le64_len, lemma_le32_len};

    let stat = current_stat(old);
    let c = DecoderView {
        input: InputView {
            unread: item_bytes(0xd5956474e588acef, stat_bytes(stat)) + rest,
            offset: match d.input.offset {
                Some(at) => Some(at - 8),
                None => None,
            },
        },
        ..d
    };
    let d1 = d.restarted();
    let c1 = c.restarted();
    old.lemma_wire_round_trip();
    stat.lemma_wire_round_trip();
    assert(old.wire() =~= old_stat_bytes(old));
    assert(stat.wire() =~= stat_bytes(stat));
    lemma_stat_bytes(0x11da850a1c1cceff, old_stat_bytes(old), rest, d1);
    lemma_stat_bytes(0xd5956474e588acef, stat_bytes(stat), rest, c1);
    let d2 = d1.next_header_or_eof()->Ok_0->0;
    let c2 = c1.next_header_or_eof()->Ok_0->0;
    assert(d2.header.htype == PXAR_ENTRY_V1);
    assert(c2.header.htype == PXAR_ENTRY);
    assert(old.upgraded() == stat);
    let d3 = d2.stat_item(PXAR_ENTRY_V1)->Ok_0;
    let c3 = c2.stat_item(PXAR_ENTRY)->Ok_0;
    assert(d3.input =~= c3.input);
    assert(d3 =~= c3);
}

/// The items of an entry leave its stat data alone.
proof fn lemma_stat_stays(d: DecoderView)
    ensures
        d.rest_of_entry() matches Ok(e) ==> e.entry.metadata.stat == d.entry.metadata.stat,
    decreases d.input.unread.len(),
{
    lemma_next_item(d);
    if let Ok(Some((e, r))) = d.next_item_or_eof() {
        assert(e.entry.metadata.stat == d.entry.metadata.stat);
        if r is Attribute {
            lemma_stat_stays(e);
        }
    }
}

/// The stat data that are reported for an entry are those that stand in the archive: all bits of
/// the mode, the flags, the owners and the point in time, in either version.
pub proof fn law_stat_read(d: DecoderView, stat: Entry, old: Stat_V1, rest: Seq<u8>)
    ensures
        d.input.unread == item_bytes(0xd5956474e588acef, stat_bytes(stat)) + rest ==> (
        d.next_entry_or_eof() matches Ok(r) ==> r matches Some((_, entry)) && entry.metadata.stat
            == stat),
        d.input.unread == item_bytes(0x11da850a1c1cceff, old_stat_bytes(old)) + rest ==> (
        d.next_entry_or_eof() matches Ok(r) ==> r matches Some((_, entry)) && {
            &&& entry.metadata.stat.mode == old.mode
            &&& entry.metadata.stat.flags == old.flags
            &&& entry.metadata.stat.uid == old.uid
            &&& entry.metadata.stat.gid == old.gid
            &&& entry.metadata.stat.mtime.secs * 1_000_000_000 + entry.metadata.stat.mtime.nanos
                == old.mtime
            &&& entry.metadata.stat.mtime.nanos < 1_000_000_000
        }),
{
    broadcast use {lemma_le64_len, lemma_le32_len};

    let d1 = d.restarted();
    if d.input.unread == item_bytes(0xd5956474e588acef, stat_bytes(stat)) + rest {
        stat.lemma_wire_round_trip();
        assert(stat.wire() =~= stat_bytes(stat));
        lemma_stat_bytes(0xd5956474e588acef, stat_bytes(stat), rest, d1);
        let d2 = d1.next_header_or_eof()->Ok_0->0;
        lemma_stat_stays(d2.stat_item(PXAR_ENTRY)->Ok_0);
    }
    if d.input.unread == item_bytes(0x11da850a1c1cceff, old_stat_bytes(old)) + rest {
        old.lemma_wire_round_trip();
        assert(old.wire() =~= old_stat_bytes(old));
        lemma_stat_bytes(0x11da850a1c1cceff, old_stat_bytes(old), rest, d1);
        let d2 = d1.next_header_or_eof()->Ok_0->0;
        lemma_stat_stays(d2.stat_item(PXAR_ENTRY_V1)->Ok_0);
    }
}

/// An entry of nothing but metadata, behind which a file name or a goodbye table follows, is what
/// its mode says where that is a named pipe or a socket, and a directory otherwise.
pub proof fn law_bare_entry(d: DecoderView, m: MetadataView, header: Header, rest: Seq<u8>)
    requires
        readable_xattrs(m.xattrs),
        all_acceptable(metadata_items(m)),
        header.htype == 0x16701121063917b3 && 16 <= header.full_size <= 4113 || header.htype
            == 0x2fec4fa642d5731d && 16 <= header.full_size,
        d.input.unread == wire_of(metadata_items(m)) + (header.wire() + rest),
    ensures
        d.next_entry_or_eof() matches Ok(r) && r matches Some((_, entry)) && {
            let file_type = m.stat.mode & 0o170000;
            &&& entry.path == d.entry.path
            &&& entry.metadata == m
            &&& entry.kind == if file_type == 0o010000 {
                KindView::Fifo
            } else if file_type == 0o140000 {
                KindView::Socket
            } else {
                KindView::Directory
            }
        },
{
    let h = lemma_open_entry(d, m, header.wire() + rest);
    let e = opened(d, h, wire_of(metadata_items(m)).len(), m);
    lemma_end_boundary(e, header, rest);
}

/// Some items can stand in an entry only once: the ACL's group object and defaults, the file
/// capabilities and the quota project id. Others have no place in an entry at all: a hard link,
/// another entry, and whatever is not known.
pub proof fn law_refused_items(d: DecoderView, header: Header, rest: Seq<u8>)
    requires
        header_error(header) is None,
        d.input.unread == header.wire() + rest,
    ensures
        header.htype == 0x10868031e9582876 && d.entry.metadata.acl.group_obj is Some
            ==> d.rest_of_entry() == Err::<DecoderView, Error>(Error::MultipleAclGroupObjects),
        header.htype == 0xbbbb13415a6896f5 && d.entry.metadata.acl.default is Some
            ==> d.rest_of_entry() == Err::<DecoderView, Error>(Error::MultipleAclDefaults),
        header.htype == 0x2da9dd9db5f7fb67 && d.entry.metadata.fcaps is Some ==> d.rest_of_entry()
            == Err::<DecoderView, Error>(Error::MultipleFCaps),
        header.htype == 0xe07540e82f7d1cbb && d.entry.metadata.quota_project_id is Some
            ==> d.rest_of_entry() == Err::<DecoderView, Error>(Error::MultipleQuotaProjectIds),
        header.htype == 0x51269c8422bd7275 ==> d.rest_of_entry() == Err::<DecoderView, Error>(
            Error::UnexpectedHardlink,
        ),
        header.htype == 0xd5956474e588acef || header.htype == 0x11da850a1c1cceff || header.htype
            == 0x419d3d6bc4ba977e || header.htype == 0x730f6c75df16a40d || header.htype
            == 0xe309d79d9f7b771b || header.htype == 0x834c68c2194a4ed2 || header.htype
            == 0x6c72b78b984c81b5 || header.htype == 0 ==> d.rest_of_entry() == Err::<
            DecoderView,
            Error,
        >(Error::UnexpectedEntryType { htype: header.htype }),
        header.htype == 0x9fc9e906586d5ce9 && header.full_size != 32 ==> d.rest_of_entry() == Err::<
            DecoderView,
            Error,
        >(
            Error::BadSize {
                what: ItemName::Device,
                size: (header.full_size - 16) as u64,
                expected: 16,
            },
        ),
{
    lemma_header(d, header, rest);
}

/// What follows an entry where neither a file name nor a goodbye table does: nothing that is
/// accepted. An entry starts with stat data or is a hard link.
pub proof fn law_expected_items(d: DecoderView, header: Header, rest: Seq<u8>)
    requires
        header_error(header) is None,
        d.input.unread == header.wire() + rest,
    ensures
        header.htype != 0xd5956474e588acef && header.htype != 0x11da850a1c1cceff && header.htype
            != 0x51269c8422bd7275 ==> d.next_entry_or_eof() == Err::<
            Option<(DecoderView, EntryView)>,
            Error,
        >(Error::ExpectedEntry { htype: header.htype }),
        header.htype == 0x51269c8422bd7275 && header.full_size <= 24 ==> d.next_entry_or_eof()
            == Err::<Option<(DecoderView, EntryView)>, Error>(Error::HardlinkTooSmall),
{
    lemma_header(d.restarted(), header, rest);
}

/// A file name ends in a zero, and what stands before that has to be a name. The entry that follows
/// has the path of that name in the directory.
pub proof fn law_file_name(d: DecoderView, data: Seq<u8>, dir: Seq<u8>, rest: Seq<u8>)
    requires
        d.content_size() == data.len(),
        d.input.unread == data + rest,
        d.path_lengths.len() > 0,
        d.path_lengths.last() == dir.len(),
        d.entry.path.len() >= dir.len(),
        d.entry.path.take(dir.len() as int) == dir,
    ensures
        data.len() == 0 || data.last() != 0 ==> d.file_entry() == Err::<
            (DecoderView, EntryView),
            Error,
        >(Error::MissingTerminatingZero),
        data.len() > 0 && data.last() == 0 ==> {
            &&& !is_name(data.drop_last()) ==> d.file_entry() is Err
            &&& is_name(data.drop_last()) ==> d.file_entry() == (DecoderView {
                input: d.input.advanced(data.len()),
                entry: EntryView { path: joined(dir, data.drop_last()), ..d.entry },
                ..d
            }).next_entry()
        },
{
    lemma_content(d, data, rest);
    if data.len() > 0 {
        law_names_accepted(data.drop_last());
    }
    if d.entry.path.len() == dir.len() {
        assert(d.entry.path.take(dir.len() as int) =~= d.entry.path);
    }
}

/// The bytes at an offset are there exactly if the archive is long enough, and are the archive's.
pub proof fn law_bytes_at(contents: Seq<u8>, offset: u64, n: nat, i: int)
    requires
        n > 0,
        0 <= i < n,
    ensures
        bytes_at(contents, offset, n) is Ok <==> offset + n <= contents.len(),
        bytes_at(contents, offset, n) matches Ok(bytes) ==> bytes.len() == n && bytes[i]
            == contents[offset + i],
        bytes_at(contents, offset, n) matches Err(e) ==> e == Error::UnexpectedEof,
        bytes_at(contents, offset, 0) == Ok::<_, Error>(Seq::<u8>::empty()),
{
}

/// A part of an archive is read from its start to its end, or to the end of the archive where that
/// comes first.
pub proof fn law_range(contents: Seq<u8>, start: u64, end: u64, i: int)
    requires
        start <= end,
        0 <= i,
        start + i < end,
        start + i < contents.len(),
    ensures
        ({
            let part = range_stream(contents, start, end);
            &&& part.offset == Some(start as int)
            &&& i < part.unread.len() <= end - start
            &&& part.unread[i] == contents[start + i]
            &&& end <= contents.len() ==> part.unread.len() == end - start
            &&& part_of(contents, start, end) == part.unread
        }),
{
}

/// Reading takes bytes off the front of an input and moves its position, where that is known, by as
/// many.
pub proof fn law_input(input: InputView, n: nat, i: int)
    requires
        0 <= i < n,
    ensures
        input.take_exact(n) is Ok <==> n <= input.unread.len(),
        input.take_exact(n) matches Ok((bytes, after)) ==> {
            &&& bytes.len() == n
            &&& bytes[i] == input.unread[i]
            &&& bytes + after.unread == input.unread
            &&& input.offset is None ==> after.offset is None
            &&& input.offset matches Some(at) ==> after.offset == Some(at + n)
        },
        input.take_exact(n) matches Err(e) ==> e == Error::UnexpectedEof,
{
    if n <= input.unread.len() {
        assert(input.unread.take(n as int) + input.unread.skip(n as int) =~= input.unread);
    }
}

/// An item that is refused before its content is read is refused for that reason. Where the content
/// is read first, it ends too early or is no extended attribute.
pub proof fn law_item_refusal(d: DecoderView)
    ensures
        d.item_refusal() matches Some(e) ==> d.current_item() == Err::<
            (DecoderView, ItemResult),
            Error,
        >(e) && d.item_refused() == d,
        d.item_refusal() is None ==> (d.current_item() matches Err(e) ==> e == Error::UnexpectedEof
            || e == Error::MissingXAttrSeparator),
{
}

/// After an entry that is complete, nothing but a file name or a goodbye table is accepted.
pub proof fn law_after_entry(d: DecoderView, size: u64, rest: Seq<u8>)
    requires
        d.state == State::Default,
        16 <= size,
        d.input.unread == (Header { htype: 0x28147a1b0b7c1a25, full_size: size }).wire() + rest,
    ensures
        d.step() matches Err(e) && e == (Error::ExpectedFilenameOrGoodbye {
            htype: 0x28147a1b0b7c1a25,
        }),
{
    lemma_header(d, Header { htype: 0x28147a1b0b7c1a25, full_size: size }, rest);
}

/// An archive that ends too early is refused, be it in the middle of a header or between the items
/// of an entry, unless that is where an entry on its own may end. Where an entry could start, the
/// input may end.
pub proof fn law_early_end(d: DecoderView)
    requires
        d.input.unread.len() < 16,
    ensures
        d.input.unread.len() == 0 ==> {
            &&& d.next_entry_or_eof() == Ok::<Option<(DecoderView, EntryView)>, Error>(None)
            &&& !d.eof_after_entry ==> d.rest_of_entry() == Err::<DecoderView, Error>(
                Error::EofInEntry,
            )
            &&& d.eof_after_entry ==> d.rest_of_entry() is Ok
        },
        d.input.unread.len() > 0 ==> {
            &&& d.next_entry_or_eof() == Err::<Option<(DecoderView, EntryView)>, Error>(
                Error::UnexpectedEof,
            )
            &&& d.rest_of_entry() == Err::<DecoderView, Error>(Error::UnexpectedEof)
        },
        d.state == State::Begin || d.state == State::Default ==> (d.step() matches Err(e) && e
            == Error::UnexpectedEof),
{
}

/// A header that is refused has been read, all of it and nothing more, and is the current one from
/// then on.
pub proof fn law_header_refused(d: DecoderView, header: Header, rest: Seq<u8>)
    requires
        header_error(header) is Some,
        d.input.unread == header.wire() + rest,
    ensures
        d.next_header_or_eof() == Err::<Option<DecoderView>, Error>(header_error(header)->0),
        d.next_item_refused() == (DecoderView { header, input: d.input.advanced(16), ..d }),
        d.input.advanced(16).unread == rest,
{
    header.lemma_wire_round_trip();
    d.header.lemma_wire_round_trip();
    assert(d.input.unread.take(16) =~= header.wire());
    assert(d.input.unread.skip(16) =~= rest);
    let old = d.header.wire().skip(16);
    assert(old =~= Seq::<u8>::empty());
    assert(header.wire() + old =~= header.wire());
    if rest.len() == 0 {
        assert(d.input.advanced(d.input.unread.len()) =~= d.input.advanced(16));
    }
}

} // verus!
