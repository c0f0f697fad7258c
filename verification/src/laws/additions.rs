//! When something can be added to an archive.

use vstd::prelude::*;

use crate::encoder::model::{
    acl_items, attribute_items, device_item, filename_item, hardlink_item, metadata_items,
    new_encoder, optional_item, optional_wire, payload_ref_item, preamble_items, stat_item,
    struct_items, symlink_item, xattr_items, EncoderView, StateView,
};
use crate::encoder::write::{header_of, lemma_put_items, wire_of, Cursor, ItemView};
use crate::errors::Error;
use crate::format::acl;
use crate::format::goodbye::filename_hash;
use crate::format::wire::{lemma_le64_len, Wire};
use crate::format::{Device, FormatVersion, GoodbyeItem, PXAR_PAYLOAD, PXAR_PAYLOAD_START_MARKER};
use crate::goodbye_table::{lemma_items_wire_len, lemma_table_of, table_of, tail_of};
use crate::laws::items::{acceptable, all_acceptable};
use crate::laws::layout::law_preamble;
use crate::laws::tables::listed;
use crate::metadata::{AclView, MetadataView};
use crate::util::filename_error;

verus! {

/// A byte string that can be the name of a file: it has at least one and at most 4096 bytes, none
/// of them is a slash, and it is neither `.` nor `..`.
pub open spec fn is_name(name: Seq<u8>) -> bool {
    &&& 0 < name.len() <= 4096
    &&& forall|i: int| 0 <= i < name.len() ==> name[i] != 0x2f
    &&& !(name.len() == 1 && name[0] == 0x2e)
    &&& !(name.len() == 2 && name[0] == 0x2e && name[1] == 0x2e)
}

/// Those byte strings are accepted as names, and no others. What is wrong with another one is told:
/// that it is empty, that it holds a slash, that it is `.` or `..`, or that it is too long.
pub proof fn law_names_accepted(name: Seq<u8>)
    ensures
        filename_error(name) is None <==> is_name(name),
        filename_error(name) == Some(Error::EmptyName) <==> name.len() == 0,
        filename_error(name) == Some(Error::NameContainsSlash) <==> exists|i: int|
            0 <= i < name.len() && name[i] == 0x2f,
        filename_error(name) == Some(Error::NameIsDot) <==> name == seq![0x2eu8],
        filename_error(name) == Some(Error::NameIsDotDot) <==> name == seq![0x2eu8, 0x2eu8],
        filename_error(name) == Some(Error::NameTooLong) <==> name.len() > 4096 && forall|i: int|
            0 <= i < name.len() ==> name[i] != 0x2f,
{
    assert(name.contains(0x2fu8) <==> exists|i: int| 0 <= i < name.len() && name[i] == 0x2f);
    if name.len() == 1 && name[0] == 0x2e {
        assert(name =~= seq![0x2eu8]);
    }
    if name.len() == 2 && name[0] == 0x2e && name[1] == 0x2e {
        assert(name =~= seq![0x2eu8, 0x2eu8]);
    }
}

/// Metadata within the limits of the format: no extended attribute takes more than 65791 bytes, nor
/// do the file capabilities.
pub open spec fn within_limits(m: MetadataView) -> bool {
    &&& forall|i: int|
        0 <= i < m.xattrs.len() ==> (#[trigger] m.xattrs[i]).name.len() + 1
            + m.xattrs[i].value.len() <= 65791
    &&& m.fcaps matches Some(data) ==> data.len() <= 65791
}

/// The file type of some metadata.
pub open spec fn has_type(m: MetadataView, file_type: u64) -> bool {
    m.stat.mode & 0o170000 == file_type
}

/// An encoder that something can be added to: it is not finished, it is in some directory, no error
/// is pending there, and the file that was added last, if any, is complete.
pub open spec fn ready(e: EncoderView) -> bool {
    &&& !e.finished
    &&& e.states.len() > 0
    &&& e.last().encode_error is None
    &&& e.open matches Some(file) ==> file.remaining_size == 0
}

/// The number of bytes that a name takes.
pub open spec fn name_size(name: Seq<u8>) -> int {
    17 + name.len() as int
}

/// The number of bytes that metadata takes.
pub open spec fn metadata_size(m: MetadataView) -> int {
    wire_of(metadata_items(m)).len() as int
}

proof fn lemma_acceptable_concat(a: Seq<ItemView>, b: Seq<ItemView>)
    requires
        all_acceptable(a),
        all_acceptable(b),
    ensures
        all_acceptable(a + b),
{
    assert forall|i: int| 0 <= i < (a + b).len() implies acceptable(#[trigger] (a + b)[i]) by {
        if i < a.len() {
            assert((a + b)[i] == a[i]);
        } else {
            assert((a + b)[i] == b[i - a.len()]);
        }
    }
}

proof fn lemma_acceptable_users(htype: u64, users: Seq<acl::User>)
    requires
        htype == 0x2ce8540a457d55b8 || htype == 0xc89357b40532cd1f,
    ensures
        all_acceptable(struct_items(htype, users)),
{
    let items = struct_items(htype, users);
    assert forall|i: int| 0 <= i < items.len() implies acceptable(#[trigger] items[i]) by {
        users[i].lemma_wire_round_trip();
    }
}

proof fn lemma_acceptable_groups(htype: u64, groups: Seq<acl::Group>)
    requires
        htype == 0x136e3eceb04c03ab || htype == 0xf90a8a5816038ffe,
    ensures
        all_acceptable(struct_items(htype, groups)),
{
    let items = struct_items(htype, groups);
    assert forall|i: int| 0 <= i < items.len() implies acceptable(#[trigger] items[i]) by {
        groups[i].lemma_wire_round_trip();
    }
}

proof fn lemma_acceptable_acl(acl: AclView)
    ensures
        all_acceptable(acl_items(acl)),
{
    let a = struct_items(0x2ce8540a457d55b8, acl.users);
    let b = struct_items(0x136e3eceb04c03ab, acl.groups);
    let c = optional_item(0x10868031e9582876, optional_wire(acl.group_obj));
    let d = optional_item(0xbbbb13415a6896f5, optional_wire(acl.default));
    let e = struct_items(0xc89357b40532cd1f, acl.default_users);
    let f = struct_items(0xf90a8a5816038ffe, acl.default_groups);
    lemma_acceptable_users(0x2ce8540a457d55b8, acl.users);
    lemma_acceptable_groups(0x136e3eceb04c03ab, acl.groups);
    lemma_acceptable_users(0xc89357b40532cd1f, acl.default_users);
    lemma_acceptable_groups(0xf90a8a5816038ffe, acl.default_groups);
    if let Some(o) = acl.group_obj {
        o.lemma_wire_round_trip();
    }
    if let Some(o) = acl.default {
        o.lemma_wire_round_trip();
    }
    assert(all_acceptable(c));
    assert(all_acceptable(d));
    lemma_acceptable_concat(a, b);
    lemma_acceptable_concat(a + b, c);
    lemma_acceptable_concat(a + b + c, d);
    lemma_acceptable_concat(a + b + c + d, e);
    lemma_acceptable_concat(a + b + c + d + e, f);
    assert(acl_items(acl) =~= a + b + c + d + e + f);
}

/// All items of metadata within the limits are accepted.
pub proof fn lemma_acceptable_metadata(m: MetadataView)
    requires
        within_limits(m),
    ensures
        all_acceptable(metadata_items(m)),
{
    let s = seq![stat_item(m)];
    let a = xattr_items(m.xattrs);
    let b = acl_items(m.acl);
    let c = optional_item(0x2da9dd9db5f7fb67, m.fcaps);
    let d = optional_item(0xe07540e82f7d1cbb, optional_wire(m.quota_project_id));
    m.stat.lemma_wire_round_trip();
    assert(all_acceptable(s));
    assert forall|i: int| 0 <= i < a.len() implies acceptable(#[trigger] a[i]) by {
        let x = m.xattrs[i];
        assert(a[i].content.len() == x.name.len() + 1 + x.value.len());
    }
    lemma_acceptable_acl(m.acl);
    assert(all_acceptable(c));
    if let Some(q) = m.quota_project_id {
        q.lemma_wire_round_trip();
    }
    assert(all_acceptable(d));
    lemma_acceptable_concat(a, b);
    lemma_acceptable_concat(a + b, c);
    lemma_acceptable_concat(a + b + c, d);
    lemma_acceptable_concat(s, a + b + c + d);
    assert(attribute_items(m) =~= a + b + c + d);
    assert(metadata_items(m) =~= s + (a + b + c + d));
}

/// Items are written where each is accepted and there is room for all of them.
proof fn lemma_put_all(c: Cursor, items: Seq<ItemView>)
    requires
        all_acceptable(items),
        c.position + wire_of(items).len() <= u64::MAX,
    ensures
        c.put_items(items) is Ok,
    decreases items.len(),
{
    if items.len() > 0 {
        assert(acceptable(items[0]));
        header_of(items[0].htype, items[0].content.len()).lemma_wire_round_trip();
        let d = c.put_item(items[0])->Ok_0;
        let rest = items.skip(1);
        assert forall|i: int| 0 <= i < rest.len() implies acceptable(#[trigger] rest[i]) by {
            assert(rest[i] == items[i + 1]);
        }
        lemma_put_all(d, rest);
    }
}

proof fn lemma_put_one(e: EncoderView, item: ItemView)
    requires
        e.states.len() > 0,
        acceptable(item),
        e.last().write_position + 16 + item.content.len() <= u64::MAX,
    ensures
        e.put_item(item) matches Ok(f) && f.last() == (StateView {
            write_position: f.last().write_position,
            ..e.last()
        }) && f.last().write_position == e.last().write_position + 16 + item.content.len()
            && f.states.len() == e.states.len() && f.payload == e.payload && f.open == e.open
            && f.finished == e.finished && f.version == e.version,
{
    header_of(item.htype, item.content.len()).lemma_wire_round_trip();
}

/// A name and metadata are written.
pub proof fn lemma_start(e: EncoderView, metadata: Option<MetadataView>, name: Seq<u8>)
    requires
        e.states.len() > 0,
        is_name(name),
        metadata matches Some(m) ==> within_limits(m),
        e.last().write_position + name_size(name) + (match metadata {
            Some(m) => metadata_size(m),
            None => 0,
        }) <= u64::MAX,
    ensures
        e.start_file(metadata, name) matches Ok(f) && f.last() == (StateView {
            write_position: f.last().write_position,
            ..e.last()
        }) && f.last().write_position == e.last().write_position + name_size(name) + (
        match metadata {
            Some(m) => metadata_size(m),
            None => 0,
        }) && f.states.len() == e.states.len() && f.payload == e.payload && f.open == e.open
            && f.finished == e.finished && f.version == e.version,
{
    law_names_accepted(name);
    let item = filename_item(name);
    lemma_put_one(e, item);
    let d = e.put_filename(name)->Ok_0;
    if let Some(m) = metadata {
        lemma_acceptable_metadata(m);
        lemma_put_all(d.cursor(), metadata_items(m));
        lemma_put_items(d.cursor(), metadata_items(m));
    }
}

pub proof fn lemma_ready(e: EncoderView)
    requires
        ready(e),
    ensures
        ready(e.settled()),
        e.settled().check_error() is None,
        e.settled().open is None,
        e.settled().last().write_position == e.last().write_position,
        e.settled().last().payload_write_position == e.last().payload_write_position,
        e.settled().states.len() == e.states.len(),
        e.settled().payload == e.payload,
        e.settled().version == e.version,
{
}

/// Something without contents can be added under any name, as long as there is room for it.
pub proof fn lemma_entry(
    e: EncoderView,
    metadata: Option<MetadataView>,
    name: Seq<u8>,
    item: Option<ItemView>,
)
    requires
        ready(e),
        is_name(name),
        metadata matches Some(m) ==> within_limits(m),
        item matches Some(i) ==> acceptable(i),
        e.last().write_position + name_size(name) + (match metadata {
            Some(m) => metadata_size(m),
            None => 0,
        }) + (match item {
            Some(i) => 16 + i.content.len(),
            None => 0,
        }) <= u64::MAX,
    ensures
        e.add_entry(metadata, name, item) matches Ok(f) && ready(f),
{
    lemma_ready(e);
    let s = e.settled();
    lemma_start(s, metadata, name);
    let d = s.start_file(metadata, name)->Ok_0;
    if let Some(i) = item {
        lemma_put_one(d, i);
    }
}

/// Links, devices, named pipes and sockets can be added under any name: with a target of up to 4096
/// bytes, with metadata of the right type and within the limits, and as long as positions stay
/// within 64 bits. A hard link has to lead back. The encoder is then ready for more.
pub proof fn law_additions(
    e: EncoderView,
    metadata: MetadataView,
    name: Seq<u8>,
    target: Seq<u8>,
    target_offset: u64,
    device: Device,
)
    requires
        ready(e),
        is_name(name),
        within_limits(metadata),
        target.len() <= 4096,
        e.last().write_position + name_size(name) + metadata_size(metadata) + 4121 <= u64::MAX,
    ensures
        e.add_entry(Some(metadata), name, Some(symlink_item(target))) matches Ok(f) && ready(f),
        target_offset < e.last().write_position ==> (e.add_hardlink(
            name,
            target,
            target_offset,
        ) matches Ok(f) && ready(f)),
        has_type(metadata, 0o020000) || has_type(metadata, 0o060000) ==> (e.add_device(
            metadata,
            name,
            device,
        ) matches Ok(f) && ready(f)),
        has_type(metadata, 0o010000) ==> (e.add_fifo(metadata, name) matches Ok(f) && ready(f)),
        has_type(metadata, 0o140000) ==> (e.add_socket(metadata, name) matches Ok(f) && ready(f)),
{
    lemma_ready(e);
    device.lemma_wire_round_trip();
    lemma_entry(e, Some(metadata), name, Some(symlink_item(target)));
    lemma_entry(e, Some(metadata), name, Some(device_item(device)));
    lemma_entry(e, Some(metadata), name, None);
    let s = e.settled();
    assert(s.settled() == s);
    if target_offset < e.last().write_position {
        let distance = (s.last().write_position - target_offset) as u64;
        lemma_le64_len(distance);
        lemma_entry(s, None, name, Some(hardlink_item(distance, target)));
    }
}

/// What a file needs in the archive and in the payload stream beyond its name and its metadata.
pub open spec fn room_for_contents(e: EncoderView, position: int, size: u64) -> bool {
    if e.payload is Some {
        &&& position + 32 + size <= u64::MAX
        &&& e.last().payload_write_position + 16 + size <= u64::MAX
    } else {
        position + 16 + size <= u64::MAX
    }
}

/// A file can be added under any name, as long as there is room for it, and all of its contents can
/// then be written. After that the encoder is ready for more, and lists the file with the hash of
/// its name, the place of the name and the size of all that belongs to the file.
pub proof fn law_add_file(
    e: EncoderView,
    metadata: MetadataView,
    name: Seq<u8>,
    contents: Seq<u8>,
    k: int,
)
    requires
        ready(e),
        is_name(name),
        within_limits(metadata),
        contents.len() <= u64::MAX - 16,
        0 <= k <= contents.len(),
        room_for_contents(
            e,
            e.last().write_position + name_size(name) + metadata_size(metadata),
            contents.len() as u64,
        ),
    ensures
        ({
            let size = contents.len() as u64;
            &&& e.create_file(metadata, name, size) matches Ok(d)
            &&& d.contents_refusal(contents.take(k)) is None
            &&& d.with_contents(contents.take(k)).contents_refusal(contents.skip(k)) is None
            &&& d.contents_refusal(contents.push(0)) == Some(Error::FileOverrun)
            &&& e.add_file(metadata, name, size, contents) matches Ok(f)
            &&& ready(f)
            &&& listed(f) == listed(e).push(
                GoodbyeItem {
                    hash: filename_hash(name),
                    offset: e.last().write_position,
                    size: (f.last().write_position - e.last().write_position + if e.payload is Some {
                        contents.len()
                    } else {
                        0
                    }) as u64,
                },
            )
        }),
{
    let size = contents.len() as u64;
    lemma_ready(e);
    let s = e.settled();
    lemma_start(s, Some(metadata), name);
    let d = s.start_file(Some(metadata), name)->Ok_0;
    let header = header_of(PXAR_PAYLOAD, size as nat);
    header.lemma_wire_round_trip();
    if d.payload is Some {
        let item = payload_ref_item(d.last().payload_write_position, size);
        broadcast use lemma_le64_len;

        let c = d.payload_cursor().put(header.wire())->Ok_0;
        let p = d.at_payload(c);
        assert(p.last().write_position == d.last().write_position);
        assert(p.last().items == d.last().items);
        lemma_put_one(p, item);
    }
    let g = d.start_payload(size)->Ok_0;
    assert(g.last().items == s.last().items);
    let o = e.create_file(metadata, name, size)->Ok_0;
    assert(o.last() == g.last());
    let f = o.with_contents(contents);
    assert(f.last().items == s.last().items);
    assert(f.open->0.remaining_size == 0);
}

/// A directory can be entered under any name, as long as there is room for it. It starts out
/// without files, and its place and the hash of its name are kept for its parent.
pub proof fn law_enter(e: EncoderView, name: Seq<u8>, metadata: MetadataView)
    requires
        ready(e),
        is_name(name),
        within_limits(metadata),
        has_type(metadata, 0o040000),
        e.last().write_position + name_size(name) + metadata_size(metadata) <= u64::MAX,
    ensures
        e.create_directory(name, metadata) matches Ok(f) && {
            &&& ready(f)
            &&& f.open is None
            &&& f.states.len() == e.states.len() + 1
            &&& f.last().items == Seq::<GoodbyeItem>::empty()
            &&& f.last().file_hash == filename_hash(name)
            &&& f.last().file_offset == Some(e.last().write_position)
            &&& f.last().entry_offset == e.last().write_position + name_size(name)
            &&& f.last().write_position == f.last().entry_offset + metadata_size(metadata)
            &&& f.last().payload_write_position == e.last().payload_write_position
            &&& f.states[f.states.len() - 2].items == listed(e)
            &&& f.states[f.states.len() - 2].encode_error is None
            &&& f.states.take(e.states.len() - 1) == e.states.drop_last()
        },
{
    lemma_ready(e);
    let s = e.settled();
    lemma_start(s, Some(metadata), name);
    law_names_accepted(name);
    lemma_put_one(s, filename_item(name));
    let named = s.put_filename(name)->Ok_0;
    let d = s.start_file(Some(metadata), name)->Ok_0;
    let f = e.create_directory(name, metadata)->Ok_0;
    assert(f.states == d.states.push(f.last()));
    assert(f.states[f.states.len() - 2] == d.last());
    assert(f.states.take(e.states.len() - 1) =~= e.states.drop_last());
}

pub proof fn lemma_goodbye_len(e: EncoderView)
    ensures
        e.goodbye_item().content.len() == 24 * (e.last().items.len() + 1),
{
    let items = e.last().items;
    let table = table_of(items, e.last().write_position);
    lemma_table_of(items, e.last().write_position);
    lemma_items_wire_len(
        table.push(tail_of(items.len(), e.last().write_position, e.last().entry_offset)),
    );
}

/// A directory can be finished, as long as there is room for its goodbye table, which has 24 bytes
/// for each of its files and 24 more. If it was not the root, its parent lists it with the hash of
/// its name, the place of the name and the size of all that was written since, and goes on from
/// there.
pub proof fn law_finish(e: EncoderView)
    requires
        ready(e),
        e.last().write_position + 16 + 24 * (listed(e).len() + 1) <= u64::MAX,
        e.last().file_offset matches Some(at) ==> at <= e.last().write_position,
    ensures
        e.finish() matches Ok(f) && {
            let end = e.last().write_position + 16 + 24 * (listed(e).len() + 1);
            let parent = e.states[e.states.len() - 2];
            &&& f.states.len() == e.states.len() - 1
            &&& f.open is None
            &&& f.finished == e.finished
            &&& f.version == e.version
            &&& f.payload == e.payload
            &&& f.archive == e.archive + e.settled().goodbye_item().wire()
            &&& e.states.len() > 1 ==> {
                &&& f.last().write_position == end
                &&& f.last().payload_write_position == e.last().payload_write_position
                &&& f.last().encode_error == parent.encode_error
                &&& f.last().entry_offset == parent.entry_offset
                &&& f.last().file_offset == parent.file_offset
                &&& f.last().file_hash == parent.file_hash
                &&& f.states.drop_last() == e.states.take(e.states.len() - 2)
                &&& e.last().file_offset matches Some(at) ==> f.last().items == parent.items.push(
                    GoodbyeItem {
                        hash: e.last().file_hash,
                        offset: at,
                        size: (end - at) as u64,
                    },
                )
            }
        },
{
    lemma_ready(e);
    let s = e.settled();
    let item = s.goodbye_item();
    lemma_goodbye_len(s);
    lemma_put_one(s, item);
    let d = s.put_item(item)->Ok_0;
    let f = e.finish()->Ok_0;
    assert(d.archive =~= e.archive + item.wire());
    if e.states.len() > 1 {
        assert(d.states.drop_last() =~= e.states.drop_last());
        assert(d.states.drop_last().last() == e.states[e.states.len() - 2]);
        assert(f.states.drop_last() =~= e.states.take(e.states.len() - 2));
    }
}

/// A new archive can be started with any metadata of a directory within the limits, and with a
/// prelude only where there is a payload stream.
pub proof fn law_start(
    archive: Seq<u8>,
    payload: Option<Seq<u8>>,
    metadata: MetadataView,
    prelude: Option<Seq<u8>>,
)
    requires
        within_limits(metadata),
        metadata_size(metadata) + 40 + (match prelude {
            Some(p) => p.len() as int,
            None => 0,
        }) <= u64::MAX,
    ensures
        new_encoder(archive, payload, metadata, prelude) is Ok <==> has_type(metadata, 0o040000)
            && (payload is Some || prelude is None),
        !has_type(metadata, 0o040000) ==> new_encoder(archive, payload, metadata, prelude) == Err::<
            EncoderView,
            Error,
        >(Error::NotADirectory),
        has_type(metadata, 0o040000) && payload is None && prelude is Some ==> new_encoder(
            archive,
            payload,
            metadata,
            prelude,
        ) == Err::<EncoderView, Error>(Error::PreludeUnsupported),
        new_encoder(archive, payload, metadata, prelude) matches Ok(e) ==> ready(e),
{
    broadcast use lemma_le64_len;

    if has_type(metadata, 0o040000) && (payload is Some || prelude is None) {
        let version = if payload is Some {
            FormatVersion::Version2
        } else {
            FormatVersion::Version1
        };
        let items = preamble_items(version, prelude);
        let start = EncoderView {
            archive,
            payload,
            states: seq![StateView::initial()],
            open: None,
            finished: false,
            version,
        };
        let marker = header_of(PXAR_PAYLOAD_START_MARKER, 0);
        let marked = match payload {
            Some(p) => start.at_payload(Cursor { bytes: p + marker.wire(), position: 16 }),
            None => start,
        };
        assert(all_acceptable(items));
        law_preamble(prelude);
        lemma_put_all(marked.cursor(), items);
        lemma_put_items(marked.cursor(), items);
        let d = marked.put_items(items)->Ok_0;
        lemma_acceptable_metadata(metadata);
        lemma_put_all(d.cursor(), metadata_items(metadata));
    }
}

/// A reference to contents can be added under any name where there is a payload stream, unless the
/// offset lies before the position in it.
pub proof fn law_add_payload_ref(
    e: EncoderView,
    metadata: MetadataView,
    name: Seq<u8>,
    size: u64,
    offset: u64,
)
    requires
        ready(e),
        is_name(name),
        within_limits(metadata),
        e.last().write_position + name_size(name) + metadata_size(metadata) + 32 <= u64::MAX,
        e.payload is Some <==> e.version == FormatVersion::Version2,
    ensures
        e.add_payload_ref(metadata, name, size, offset) is Ok <==> e.payload is Some && offset
            >= e.last().payload_write_position,
        e.add_payload_ref(metadata, name, size, offset) matches Ok(f) ==> ready(f),
        e.payload is None ==> e.add_payload_ref(metadata, name, size, offset) == Err::<
            EncoderView,
            Error,
        >(Error::PayloadRefUnsupported),
        e.payload is Some && offset < e.last().payload_write_position ==> e.add_payload_ref(
            metadata,
            name,
            size,
            offset,
        ) == Err::<EncoderView, Error>(
            Error::PayloadOffsetTooSmall { offset, position: e.last().payload_write_position },
        ),
{
    broadcast use lemma_le64_len;

    lemma_ready(e);
    let s = e.settled();
    assert(s.settled() == s);
    lemma_entry(s, Some(metadata), name, Some(payload_ref_item(offset, size)));
}

/// Nothing can be added to a finished encoder, or under a byte string that is no name.
pub proof fn law_no_additions(
    e: EncoderView,
    metadata: MetadataView,
    name: Seq<u8>,
    size: u64,
    item: Option<ItemView>,
)
    requires
        e.states.len() > 0,
        e.finished || !is_name(name),
    ensures
        e.create_file(metadata, name, size) is Err,
        e.add_entry(Some(metadata), name, item) is Err,
        e.add_entry(None, name, item) is Err,
        e.create_directory(name, metadata) is Err,
        e.finished ==> e.create_file(metadata, name, size) == Err::<EncoderView, Error>(
            Error::EncoderFinished,
        ) && e.add_entry(Some(metadata), name, item) == Err::<EncoderView, Error>(
            Error::EncoderFinished,
        ) && e.create_directory(name, metadata) == Err::<EncoderView, Error>(
            Error::EncoderFinished,
        ),
{
    law_names_accepted(name);
}

/// Metadata of another type is refused: a device node has to be one, and so do a named pipe, a
/// socket and a directory.
pub proof fn law_wrong_type(e: EncoderView, metadata: MetadataView, name: Seq<u8>, device: Device)
    requires
        ready(e),
    ensures
        !has_type(metadata, 0o020000) && !has_type(metadata, 0o060000) ==> e.add_device(
            metadata,
            name,
            device,
        ) == Err::<EncoderView, Error>(Error::NotADevice),
        !has_type(metadata, 0o010000) ==> e.add_fifo(metadata, name) == Err::<EncoderView, Error>(
            Error::NotAFifo,
        ),
        !has_type(metadata, 0o140000) ==> e.add_socket(metadata, name) == Err::<EncoderView, Error>(
            Error::NotASocket,
        ),
        !has_type(metadata, 0o040000) ==> e.create_directory(name, metadata) == Err::<
            EncoderView,
            Error,
        >(Error::NotADirectory),
{
}

} // verus!
