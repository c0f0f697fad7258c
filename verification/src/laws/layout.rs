//! Where everything stands in an archive, byte for byte.

use vstd::bytes::{spec_u32_to_le_bytes, spec_u64_to_le_bytes_open, spec_u64_to_le_bytes_to_open};
use vstd::prelude::*;

use crate::binary_tree_array::lemma_node_of;
use crate::encoder::model::{
    acl_items, attribute_items, device_item, filename_item, hardlink_item, metadata_items,
    optional_item, optional_wire, payload_ref_item, payload_tail, preamble_items, stat_item,
    struct_items, symlink_item, xattr_items,
};
use crate::encoder::write::{header_of, wire_of, ItemView};
use crate::errors::Error;
use crate::format::acl;
use crate::format::wire::{le32, le64, word64, Wire};
use crate::format::xattr::XAttrView;
use crate::format::{
    header_error, max_content_size_of, Device, Entry, FormatVersion, GoodbyeItem, Header,
    PayloadRef, QuotaProjectId, Stat_V1, StatxTimestamp, HEADER_SIZE,
};
use crate::goodbye_table::{
    goodbye_content, lemma_items_wire_at, lemma_sorted_items, lemma_table_of, relative_item,
    sorted_items, table_of, tail_of,
};
use crate::laws::items::{lemma_wire_of_concat, lemma_wire_of_one};
use crate::metadata::{AclView, MetadataView};

verus! {

/// Integers are stored with the least significant byte first.
pub proof fn law_integers(x: u64, y: u32)
    ensures
        le64(x) == seq![
            (x & 0xff) as u8,
            ((x >> 8) & 0xff) as u8,
            ((x >> 16) & 0xff) as u8,
            ((x >> 24) & 0xff) as u8,
            ((x >> 32) & 0xff) as u8,
            ((x >> 40) & 0xff) as u8,
            ((x >> 48) & 0xff) as u8,
            ((x >> 56) & 0xff) as u8,
        ],
        le32(y) == spec_u32_to_le_bytes(y),
        word64(le64(x), 0) == x,
{
    spec_u64_to_le_bytes_to_open(x);
    assert(le64(x) =~= spec_u64_to_le_bytes_open(x));
    x.lemma_wire_round_trip();
}

/// The bytes of an item: its type, its size including these 16 bytes, and its content.
pub open spec fn item_bytes(htype: u64, content: Seq<u8>) -> Seq<u8> {
    le64(htype) + le64((16 + content.len()) as u64) + content
}

/// Every item starts with its type and its size.
pub proof fn law_item(item: ItemView, header: Header)
    ensures
        item.wire() == item_bytes(item.htype, item.content),
        header.wire() == le64(header.htype) + le64(header.full_size),
        header_of(item.htype, item.content.len()).wire() == le64(item.htype) + le64(
            (16 + item.content.len()) as u64,
        ),
{
}

/// The bytes of items one after the other.
pub open spec fn all_bytes(items: Seq<ItemView>) -> Seq<u8> {
    items.map_values(|i: ItemView| item_bytes(i.htype, i.content)).flatten()
}

/// Items are written one after the other, with nothing in between.
pub proof fn law_items(items: Seq<ItemView>)
    ensures
        wire_of(items) == all_bytes(items),
    decreases items.len(),
{
    let parts = items.map_values(|i: ItemView| item_bytes(i.htype, i.content));
    if items.len() > 0 {
        law_items(items.skip(1));
        assert(parts.drop_first() =~= items.skip(1).map_values(
            |i: ItemView| item_bytes(i.htype, i.content),
        ));
        assert(parts.first() == item_bytes(items[0].htype, items[0].content));
    }
}

/// The names, links, devices and references of an archive are items with these types and contents.
pub proof fn law_entry_items(
    name: Seq<u8>,
    target: Seq<u8>,
    distance: u64,
    device: Device,
    offset: u64,
    size: u64,
)
    ensures
        filename_item(name).wire() == item_bytes(0x16701121063917b3, name + seq![0u8]),
        symlink_item(target).wire() == item_bytes(0x27f971e7dbf5dc5f, target + seq![0u8]),
        hardlink_item(distance, target).wire() == item_bytes(
            0x51269c8422bd7275,
            le64(distance) + target + seq![0u8],
        ),
        device_item(device).wire() == item_bytes(
            0x9fc9e906586d5ce9,
            le64(device.major) + le64(device.minor),
        ),
        payload_ref_item(offset, size).wire() == item_bytes(
            0x419d3d6bc4ba977e,
            le64(offset) + le64(size),
        ),
        payload_tail() == item_bytes(0x6c72b78b984c81b5, Seq::empty()),
{
    assert(name.push(0) =~= name + seq![0u8]);
    assert(target.push(0) =~= target + seq![0u8]);
    assert(le64(distance) + target.push(0) =~= le64(distance) + target + seq![0u8]);
    assert(payload_tail() =~= item_bytes(0x6c72b78b984c81b5, Seq::empty()));
}

/// The bytes of stat data.
pub open spec fn stat_bytes(stat: Entry) -> Seq<u8> {
    le64(stat.mode) + le64(stat.flags) + le32(stat.uid) + le32(stat.gid) + le64(
        stat.mtime.secs as u64,
    ) + le32(stat.mtime.nanos) + le32(0)
}

/// The bytes of stat data of the first version.
pub open spec fn old_stat_bytes(stat: Stat_V1) -> Seq<u8> {
    le64(stat.mode) + le64(stat.flags) + le32(stat.uid) + le32(stat.gid) + le64(stat.mtime)
}

/// The fields of fixed-size values stand one after the other.
pub proof fn law_values(
    stat: Entry,
    old: Stat_V1,
    time: StatxTimestamp,
    device: Device,
    user: acl::User,
    group: acl::Group,
    object: acl::GroupObject,
    default: acl::Default,
    project: QuotaProjectId,
    item: GoodbyeItem,
    payload: PayloadRef,
)
    ensures
        stat.wire() == stat_bytes(stat),
        old.wire() == old_stat_bytes(old),
        time.wire() == le64(time.secs as u64) + le32(time.nanos) + le32(0),
        device.wire() == le64(device.major) + le64(device.minor),
        user.wire() == le64(user.uid) + le64(user.permissions.0),
        group.wire() == le64(group.gid) + le64(group.permissions.0),
        object.wire() == le64(object.permissions.0),
        default.wire() == le64(default.user_obj_permissions.0) + le64(
            default.group_obj_permissions.0,
        ) + le64(default.other_permissions.0) + le64(default.mask_permissions.0),
        project.wire() == le64(project.projid),
        item.wire() == le64(item.hash) + le64(item.offset) + le64(item.size),
        payload.wire() == le64(payload.offset) + le64(payload.size),
{
    assert(stat.wire() =~= stat_bytes(stat));
}

/// The bytes of users.
pub open spec fn user_bytes(htype: u64, users: Seq<acl::User>) -> Seq<u8> {
    users.map_values(
        |u: acl::User| item_bytes(htype, le64(u.uid) + le64(u.permissions.0)),
    ).flatten()
}

/// The bytes of groups.
pub open spec fn group_bytes(htype: u64, groups: Seq<acl::Group>) -> Seq<u8> {
    groups.map_values(
        |g: acl::Group| item_bytes(htype, le64(g.gid) + le64(g.permissions.0)),
    ).flatten()
}

/// The bytes of extended attributes.
pub open spec fn xattr_bytes(xattrs: Seq<XAttrView>) -> Seq<u8> {
    xattrs.map_values(
        |x: XAttrView| item_bytes(0x0dab0229b57dcd03, x.name + seq![0u8] + x.value),
    ).flatten()
}

/// The bytes of an item that may be missing.
pub open spec fn optional_bytes(htype: u64, content: Option<Seq<u8>>) -> Seq<u8> {
    match content {
        Some(content) => item_bytes(htype, content),
        None => Seq::empty(),
    }
}

/// The bytes of an ACL: the users, the groups, the group object, then the defaults.
pub open spec fn acl_bytes(acl: AclView) -> Seq<u8> {
    user_bytes(0x2ce8540a457d55b8, acl.users) + group_bytes(0x136e3eceb04c03ab, acl.groups)
        + optional_bytes(
        0x10868031e9582876,
        match acl.group_obj {
            Some(o) => Some(le64(o.permissions.0)),
            None => None,
        },
    ) + optional_bytes(
        0xbbbb13415a6896f5,
        match acl.default {
            Some(d) => Some(
                le64(d.user_obj_permissions.0) + le64(d.group_obj_permissions.0) + le64(
                    d.other_permissions.0,
                ) + le64(d.mask_permissions.0),
            ),
            None => None,
        },
    ) + user_bytes(0xc89357b40532cd1f, acl.default_users) + group_bytes(
        0xf90a8a5816038ffe,
        acl.default_groups,
    )
}

/// The bytes of metadata: the stat data, the extended attributes, the ACL, the file capabilities
/// and the quota project id.
#[verifier::opaque]
pub open spec fn metadata_bytes(m: MetadataView) -> Seq<u8> {
    item_bytes(0xd5956474e588acef, stat_bytes(m.stat)) + xattr_bytes(m.xattrs) + acl_bytes(m.acl)
        + optional_bytes(0x2da9dd9db5f7fb67, m.fcaps) + optional_bytes(
        0xe07540e82f7d1cbb,
        match m.quota_project_id {
            Some(q) => Some(le64(q.projid)),
            None => None,
        },
    )
}

proof fn lemma_optional_bytes(htype: u64, content: Option<Seq<u8>>)
    ensures
        wire_of(optional_item(htype, content)) == optional_bytes(htype, content),
{
    if let Some(c) = content {
        lemma_wire_of_one(ItemView { htype, content: c });
    }
}

proof fn lemma_user_bytes(htype: u64, users: Seq<acl::User>)
    ensures
        wire_of(struct_items(htype, users)) == user_bytes(htype, users),
{
    let items = struct_items(htype, users);
    law_items(items);
    assert(items.map_values(|i: ItemView| item_bytes(i.htype, i.content)) =~= users.map_values(
        |u: acl::User| item_bytes(htype, le64(u.uid) + le64(u.permissions.0)),
    ));
}

proof fn lemma_group_bytes(htype: u64, groups: Seq<acl::Group>)
    ensures
        wire_of(struct_items(htype, groups)) == group_bytes(htype, groups),
{
    let items = struct_items(htype, groups);
    law_items(items);
    assert(items.map_values(|i: ItemView| item_bytes(i.htype, i.content)) =~= groups.map_values(
        |g: acl::Group| item_bytes(htype, le64(g.gid) + le64(g.permissions.0)),
    ));
}

proof fn lemma_xattr_bytes(xattrs: Seq<XAttrView>)
    ensures
        wire_of(xattr_items(xattrs)) == xattr_bytes(xattrs),
{
    let items = xattr_items(xattrs);
    law_items(items);
    assert(items.map_values(|i: ItemView| item_bytes(i.htype, i.content)) =~= xattrs.map_values(
        |x: XAttrView| item_bytes(0x0dab0229b57dcd03, x.name + seq![0u8] + x.value),
    ));
}

proof fn lemma_acl_bytes(acl: AclView)
    ensures
        wire_of(acl_items(acl)) == acl_bytes(acl),
{
    let a = struct_items(0x2ce8540a457d55b8, acl.users);
    let b = struct_items(0x136e3eceb04c03ab, acl.groups);
    let c = optional_item(0x10868031e9582876, optional_wire(acl.group_obj));
    let d = optional_item(0xbbbb13415a6896f5, optional_wire(acl.default));
    let e = struct_items(0xc89357b40532cd1f, acl.default_users);
    let f = struct_items(0xf90a8a5816038ffe, acl.default_groups);
    lemma_user_bytes(0x2ce8540a457d55b8, acl.users);
    lemma_group_bytes(0x136e3eceb04c03ab, acl.groups);
    lemma_optional_bytes(0x10868031e9582876, optional_wire(acl.group_obj));
    lemma_optional_bytes(0xbbbb13415a6896f5, optional_wire(acl.default));
    lemma_user_bytes(0xc89357b40532cd1f, acl.default_users);
    lemma_group_bytes(0xf90a8a5816038ffe, acl.default_groups);
    lemma_wire_of_concat(a, b);
    lemma_wire_of_concat(a + b, c);
    lemma_wire_of_concat(a + b + c, d);
    lemma_wire_of_concat(a + b + c + d, e);
    lemma_wire_of_concat(a + b + c + d + e, f);
    assert(acl_items(acl) =~= a + b + c + d + e + f);
}

/// Metadata is written in this order and with these types, and all of it is.
pub proof fn law_metadata(m: MetadataView)
    ensures
        wire_of(metadata_items(m)) == metadata_bytes(m),
{
    let s = seq![stat_item(m)];
    let a = xattr_items(m.xattrs);
    let b = acl_items(m.acl);
    let c = optional_item(0x2da9dd9db5f7fb67, m.fcaps);
    let d = optional_item(0xe07540e82f7d1cbb, optional_wire(m.quota_project_id));
    lemma_wire_of_one(stat_item(m));
    lemma_xattr_bytes(m.xattrs);
    lemma_acl_bytes(m.acl);
    lemma_optional_bytes(0x2da9dd9db5f7fb67, m.fcaps);
    lemma_optional_bytes(0xe07540e82f7d1cbb, optional_wire(m.quota_project_id));
    lemma_wire_of_concat(a, b);
    lemma_wire_of_concat(a + b, c);
    lemma_wire_of_concat(a + b + c, d);
    lemma_wire_of_concat(s, attribute_items(m));
    assert(attribute_items(m) =~= a + b + c + d);
    assert(stat_item(m).content =~= stat_bytes(m.stat));
    reveal(metadata_bytes);
    assert(wire_of(metadata_items(m)) =~= metadata_bytes(m));
}

/// An archive whose file contents stand elsewhere says so at its start: it states version 2. Only
/// such an archive can have a prelude, which comes next.
pub proof fn law_preamble(prelude: Option<Seq<u8>>)
    ensures
        wire_of(preamble_items(FormatVersion::Version1, None)) == Seq::<u8>::empty(),
        wire_of(preamble_items(FormatVersion::Version2, prelude)) == item_bytes(
            0x730f6c75df16a40d,
            le64(2),
        ) + optional_bytes(0xe309d79d9f7b771b, prelude),
{
    let two: Option<u64> = Some(2);
    let a = optional_item(0x730f6c75df16a40d, optional_wire(two));
    let b = optional_item(0xe309d79d9f7b771b, prelude);
    lemma_optional_bytes(0x730f6c75df16a40d, optional_wire(two));
    lemma_optional_bytes(0xe309d79d9f7b771b, prelude);
    lemma_wire_of_concat(a, b);
    assert(preamble_items(FormatVersion::Version2, prelude) =~= a + b);
    assert(preamble_items(FormatVersion::Version1, None) =~= Seq::<ItemView>::empty());
}

/// The largest content of an item, by its type: a name and a zero, a link's target and a zero, with
/// a hard link's distance in front, the name and the value of an extended attribute, or the one
/// size that such an item has.
pub open spec fn content_limit(htype: u64) -> int {
    if htype == 0x16701121063917b3 || htype == 0x27f971e7dbf5dc5f {
        4097
    } else if htype == 0x51269c8422bd7275 {
        4105
    } else if htype == 0x0dab0229b57dcd03 || htype == 0x2da9dd9db5f7fb67 {
        65791
    } else if htype == 0x9fc9e906586d5ce9 || htype == 0x2ce8540a457d55b8 || htype
        == 0xc89357b40532cd1f || htype == 0x136e3eceb04c03ab || htype == 0xf90a8a5816038ffe {
        16
    } else if htype == 0xbbbb13415a6896f5 || htype == 0x11da850a1c1cceff {
        32
    } else if htype == 0x10868031e9582876 || htype == 0xe07540e82f7d1cbb {
        8
    } else if htype == 0xd5956474e588acef {
        40
    } else {
        0xffff_ffff_ffff_ffef
    }
}

/// A header is accepted exactly if its size has room for the header itself and for no more content
/// than its type allows.
pub proof fn law_header_size(header: Header)
    ensures
        header_error(header) is None <==> 16 <= header.full_size <= 16 + content_limit(
            header.htype,
        ),
        header.full_size < 16 <==> header_error(header) == Some(
            Error::HeaderTooSmall { htype: header.htype, full_size: header.full_size },
        ),
        header.full_size > 16 + content_limit(header.htype) <==> header_error(header) == Some(
            Error::ContentTooLarge {
                htype: header.htype,
                size: (header.full_size - 16) as u64,
                max: content_limit(header.htype) as u64,
            },
        ),
        max_content_size_of(header.htype) == content_limit(header.htype),
        HEADER_SIZE == 16,
{
}

/// The goodbye table of a directory takes 24 bytes for every entry, and 24 bytes for its tail, which
/// tells how far back the directory itself starts, and repeats the size of the table.
pub proof fn law_goodbye_tail(items: Seq<GoodbyeItem>, goodbye_offset: u64, entry_offset: u64)
    requires
        entry_offset <= goodbye_offset,
    ensures
        ({
            let n = items.len() as int;
            let content = goodbye_content(items, goodbye_offset, entry_offset);
            &&& content.len() == 24 * (n + 1)
            &&& content.subrange(24 * n, 24 * (n + 1)) == le64(0xef5eed5b753e1555) + le64(
                (goodbye_offset - entry_offset) as u64,
            ) + le64((16 + 24 * (n + 1)) as u64)
        }),
{
    let n = items.len() as int;
    let table = table_of(items, goodbye_offset);
    let tail = tail_of(items.len(), goodbye_offset, entry_offset);
    let all = table.push(tail);
    lemma_table_of(items, goodbye_offset);
    lemma_items_wire_at(all, n);
    assert(all[n] == tail);
}

/// Every entry of a directory has an item in the goodbye table, which tells how far back the entry
/// starts and how large it is: the `k`-th entry has the `j`-th item.
pub proof fn law_goodbye_item(
    items: Seq<GoodbyeItem>,
    goodbye_offset: u64,
    entry_offset: u64,
    k: int,
) -> (j: int)
    requires
        0 <= k < items.len(),
        items[k].offset <= goodbye_offset,
    ensures
        ({
            let content = goodbye_content(items, goodbye_offset, entry_offset);
            &&& 0 <= j < items.len()
            &&& content.subrange(24 * j, 24 * (j + 1)) == le64(items[k].hash) + le64(
                (goodbye_offset - items[k].offset) as u64,
            ) + le64(items[k].size)
        }),
{
    let table = table_of(items, goodbye_offset);
    let all = table.push(tail_of(items.len(), goodbye_offset, entry_offset));
    lemma_table_of(items, goodbye_offset);
    lemma_sorted_items(items);
    let sorted = sorted_items(items);
    assert(items.to_multiset().count(items[k]) > 0) by {
        broadcast use vstd::seq_lib::group_to_multiset_ensures;

        assert(items.contains(items[k]));
    }
    assert(sorted.contains(items[k])) by {
        broadcast use vstd::seq_lib::group_to_multiset_ensures;

    }
    let i = choose|i: int| 0 <= i < sorted.len() && sorted[i] == items[k];
    let relative = sorted.map_values(|item: GoodbyeItem| relative_item(item, goodbye_offset));
    let j = lemma_node_of(table, i);
    assert(table[j] == relative[i]);
    lemma_items_wire_at(all, j);
    assert(all[j] == table[j]);
    j
}

} // verus!
