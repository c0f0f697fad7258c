//! Reading items gives back what was written.

use vstd::prelude::*;

use crate::decoder::model::{is_attribute, DecoderView, ItemResult};
use crate::decoder::read::lemma_advanced;
use crate::encoder::model::{
    acl_items, attribute_items, optional_item, optional_wire, struct_items, xattr_items,
};
use crate::encoder::write::{header_of, wire_of, Cursor, ItemView};
use crate::errors::Error;
use crate::format::acl;
use crate::format::wire::Wire;
use crate::format::xattr::{lemma_xattr_round_trip, XAttrView};
use crate::format::{
    header_error, Header, QuotaProjectId, HEADER_SIZE, PXAR_ACL_DEFAULT, PXAR_ACL_DEFAULT_GROUP,
    PXAR_ACL_DEFAULT_USER, PXAR_ACL_GROUP, PXAR_ACL_GROUP_OBJ, PXAR_ACL_USER, PXAR_FCAPS,
    PXAR_QUOTA_PROJID,
};
use crate::metadata::{AclView, MetadataView};

verus! {

/// The encoder accepts an item.
pub open spec fn acceptable(item: ItemView) -> bool {
    item.content.len() + HEADER_SIZE <= u64::MAX && header_error(
        header_of(item.htype, item.content.len()),
    ) is None
}

/// The encoder accepts all of some items.
pub open spec fn all_acceptable(items: Seq<ItemView>) -> bool {
    forall|i: int| 0 <= i < items.len() ==> acceptable(#[trigger] items[i])
}

/// What was written was accepted.
pub proof fn lemma_put_accepted(c: Cursor, items: Seq<ItemView>)
    requires
        c.put_items(items) is Ok,
    ensures
        all_acceptable(items),
    decreases items.len(),
{
    if items.len() > 0 {
        let d = c.put_item(items[0])->Ok_0;
        lemma_put_accepted(d, items.skip(1));
        assert forall|i: int| 0 <= i < items.len() implies acceptable(#[trigger] items[i]) by {
            if i > 0 {
                assert(items[i] == items.skip(1)[i - 1]);
            }
        }
    }
}

/// The bytes of items come one after the other.
pub proof fn lemma_wire_of_concat(a: Seq<ItemView>, b: Seq<ItemView>)
    ensures
        wire_of(a + b) == wire_of(a) + wire_of(b),
    decreases a.len(),
{
    if a.len() == 0 {
        assert(a + b =~= b);
        assert(wire_of(a) + wire_of(b) =~= wire_of(b));
    } else {
        assert((a + b)[0] == a[0]);
        assert((a + b).skip(1) =~= a.skip(1) + b);
        lemma_wire_of_concat(a.skip(1), b);
        assert(wire_of(a + b) =~= wire_of(a) + wire_of(b));
    }
}

pub proof fn lemma_wire_of_one(item: ItemView)
    ensures
        wire_of(seq![item]) == item.wire(),
        item.wire().len() == HEADER_SIZE + item.content.len(),
{
    let one = seq![item];
    assert(one.skip(1) =~= Seq::<ItemView>::empty());
    assert(wire_of(one.skip(1)) =~= Seq::<u8>::empty());
    assert(wire_of(one) =~= item.wire());
    header_of(item.htype, item.content.len()).lemma_wire_round_trip();
}

/// A header that was written is the next header.
pub proof fn lemma_header(d: DecoderView, header: Header, rest: Seq<u8>)
    requires
        header_error(header) is None,
        d.input.unread == header.wire() + rest,
    ensures
        d.next_header_or_eof() == Ok::<_, Error>(
            Some(DecoderView { header, input: d.input.advanced(16), ..d }),
        ),
        d.input.advanced(16).unread == rest,
{
    header.lemma_wire_round_trip();
    assert(d.input.unread.take(16) =~= header.wire());
    assert(d.input.unread.skip(16) =~= rest);
}

/// The content that was written is the content.
pub proof fn lemma_content(d: DecoderView, content: Seq<u8>, rest: Seq<u8>)
    requires
        d.content_size() == content.len(),
        d.input.unread == content + rest,
    ensures
        d.take_content() == Ok::<_, Error>(
            (content, DecoderView { input: d.input.advanced(content.len()), ..d }),
        ),
        d.input.advanced(content.len()).unread == rest,
{
    assert(d.input.unread.take(content.len() as int) =~= content);
    assert(d.input.unread.skip(content.len() as int) =~= rest);
}

/// A decoder that has read `n` bytes, the last header among them being `header`, and thereby put
/// together `metadata`.
pub open spec fn past(d: DecoderView, header: Header, n: nat, metadata: MetadataView) -> DecoderView {
    DecoderView { input: d.input.advanced(n), header, ..d }.with_metadata(metadata)
}

/// A decoder that has read the header of an item.
pub open spec fn loaded(d: DecoderView, item: ItemView) -> DecoderView {
    DecoderView {
        header: header_of(item.htype, item.content.len()),
        input: d.input.advanced(16),
        ..d
    }
}

/// Reading the header of an item.
pub proof fn lemma_load(d: DecoderView, item: ItemView, rest: Seq<u8>)
    requires
        acceptable(item),
        d.input.unread == item.wire() + rest,
    ensures
        d.next_header_or_eof() == Ok::<_, Error>(Some(loaded(d, item))),
        loaded(d, item).input.unread == item.content + rest,
        loaded(d, item).content_size() == item.content.len(),
        loaded(d, item).take_content() == Ok::<_, Error>(
            (
                item.content,
                DecoderView {
                    input: d.input.advanced(item.wire().len()),
                    ..loaded(d, item)
                },
            ),
        ),
        d.input.advanced(item.wire().len()).unread == rest,
        item.wire().len() == 16 + item.content.len(),
{
    let header = header_of(item.htype, item.content.len());
    header.lemma_wire_round_trip();
    assert(item.wire() + rest =~= header.wire() + (item.content + rest));
    lemma_header(d, header, item.content + rest);
    lemma_content(loaded(d, item), item.content, rest);
    lemma_advanced(d.input, 16, item.content.len());
}

/// An attribute adds to the metadata, and the rest of the entry follows.
proof fn lemma_attribute(d: DecoderView, item: ItemView, rest: Seq<u8>, metadata: MetadataView)
    requires
        acceptable(item),
        is_attribute(item.htype),
        d.input.unread == item.wire() + rest,
        loaded(d, item).attribute_item() == Ok::<_, Error>(
            past(d, header_of(item.htype, item.content.len()), item.wire().len(), metadata),
        ),
    ensures
        d.finish_entry() == past(
            d,
            header_of(item.htype, item.content.len()),
            item.wire().len(),
            metadata,
        ).finish_entry(),
        d.input.advanced(item.wire().len()).unread == rest,
{
    reveal(DecoderView::finish_entry);
    lemma_load(d, item, rest);
    let e = past(d, header_of(item.htype, item.content.len()), item.wire().len(), metadata);
    assert(d.next_item_or_eof() == Ok::<_, Error>(Some((e, ItemResult::Attribute))));
}

/// Going on from where some attributes have been read.
proof fn lemma_past_past(
    d: DecoderView,
    h1: Header,
    n1: nat,
    m1: MetadataView,
    h2: Header,
    n2: nat,
    m2: MetadataView,
)
    requires
        n1 + n2 <= d.input.unread.len(),
    ensures
        past(past(d, h1, n1, m1), h2, n2, m2) == past(d, h2, n1 + n2, m2),
{
    lemma_advanced(d.input, n1, n2);
    assert(past(past(d, h1, n1, m1), h2, n2, m2) =~= past(d, h2, n1 + n2, m2));
}

/// Nothing was read.
proof fn lemma_past_nothing(d: DecoderView)
    ensures
        past(d, d.header, 0, d.entry.metadata) == d,
{
    lemma_advanced(d.input, 0, 0);
    assert(past(d, d.header, 0, d.entry.metadata) =~= d);
}

/// Names of extended attributes must not hold the zero that ends them.
pub open spec fn readable_xattrs(xattrs: Seq<XAttrView>) -> bool {
    forall|i: int| 0 <= i < xattrs.len() ==> !(#[trigger] xattrs[i]).name.contains(0)
}

pub open spec fn with_more_xattrs(m: MetadataView, xattrs: Seq<XAttrView>) -> MetadataView {
    MetadataView { xattrs: m.xattrs + xattrs, ..m }
}

/// Extended attributes are read as they were written.
proof fn lemma_read_xattrs(d: DecoderView, xattrs: Seq<XAttrView>, rest: Seq<u8>) -> (h: Header)
    requires
        readable_xattrs(xattrs),
        all_acceptable(xattr_items(xattrs)),
        d.input.unread == wire_of(xattr_items(xattrs)) + rest,
    ensures
        d.finish_entry() == past(
            d,
            h,
            wire_of(xattr_items(xattrs)).len(),
            with_more_xattrs(d.entry.metadata, xattrs),
        ).finish_entry(),
        d.input.advanced(wire_of(xattr_items(xattrs)).len()).unread == rest,
    decreases xattrs.len(),
{
    let items = xattr_items(xattrs);
    let m = d.entry.metadata;
    if xattrs.len() == 0 {
        assert(wire_of(items) =~= Seq::<u8>::empty());
        assert(with_more_xattrs(m, xattrs) =~= m);
        lemma_past_nothing(d);
        assert(d.input.advanced(0).unread =~= rest);
        d.header
    } else {
        let item = items[0];
        let x = xattrs[0];
        let more = xattrs.skip(1);
        assert(items.skip(1) =~= xattr_items(more));
        assert forall|i: int| 0 <= i < xattr_items(more).len() implies acceptable(
            #[trigger] xattr_items(more)[i],
        ) by {
            assert(xattr_items(more)[i] == items[i + 1]);
        }
        let tail = wire_of(xattr_items(more)) + rest;
        assert(d.input.unread =~= item.wire() + tail);
        lemma_load(d, item, tail);
        lemma_xattr_round_trip(x);
        let m1 = with_more_xattrs(m, seq![x]);
        assert(m.xattrs + seq![x] =~= m.xattrs.push(x));
        let h1 = header_of(item.htype, item.content.len());
        let e = past(d, h1, item.wire().len(), m1);
        assert(loaded(d, item).attribute_item() == Ok::<_, Error>(e));
        lemma_attribute(d, item, tail, m1);
        let h = lemma_read_xattrs(e, more, rest);
        assert(with_more_xattrs(m1, more) =~= with_more_xattrs(m, xattrs)) by {
            assert(m.xattrs + seq![x] + more =~= m.xattrs + xattrs);
        }
        let n2 = wire_of(xattr_items(more)).len();
        lemma_past_past(d, h1, item.wire().len(), m1, h, n2, with_more_xattrs(m, xattrs));
        lemma_advanced(d.input, item.wire().len(), n2);
        assert(wire_of(items).len() == item.wire().len() + n2);
        h
    }
}

pub open spec fn with_more_users(m: MetadataView, htype: u64, users: Seq<acl::User>) -> MetadataView {
    MetadataView {
        acl: if htype == PXAR_ACL_USER {
            AclView { users: m.acl.users + users, ..m.acl }
        } else {
            AclView { default_users: m.acl.default_users + users, ..m.acl }
        },
        ..m
    }
}

/// User entries are read as they were written.
proof fn lemma_read_users(d: DecoderView, htype: u64, users: Seq<acl::User>, rest: Seq<u8>) -> (h:
    Header)
    requires
        htype == PXAR_ACL_USER || htype == PXAR_ACL_DEFAULT_USER,
        d.input.unread == wire_of(struct_items(htype, users)) + rest,
    ensures
        d.finish_entry() == past(
            d,
            h,
            wire_of(struct_items(htype, users)).len(),
            with_more_users(d.entry.metadata, htype, users),
        ).finish_entry(),
        d.input.advanced(wire_of(struct_items(htype, users)).len()).unread == rest,
    decreases users.len(),
{
    let items = struct_items(htype, users);
    let m = d.entry.metadata;
    if users.len() == 0 {
        assert(wire_of(items) =~= Seq::<u8>::empty());
        assert(with_more_users(m, htype, users) =~= m);
        lemma_past_nothing(d);
        assert(d.input.advanced(0).unread =~= rest);
        d.header
    } else {
        let item = items[0];
        let u = users[0];
        let more = users.skip(1);
        assert(items.skip(1) =~= struct_items(htype, more));
        let tail = wire_of(struct_items(htype, more)) + rest;
        assert(d.input.unread =~= item.wire() + tail);
        u.lemma_wire_round_trip();
        lemma_load(d, item, tail);
        let m1 = with_more_users(m, htype, seq![u]);
        assert(m.acl.users + seq![u] =~= m.acl.users.push(u));
        assert(m.acl.default_users + seq![u] =~= m.acl.default_users.push(u));
        let h1 = header_of(item.htype, item.content.len());
        let e = past(d, h1, item.wire().len(), m1);
        assert(loaded(d, item).attribute_item() == Ok::<_, Error>(e));
        lemma_attribute(d, item, tail, m1);
        let h = lemma_read_users(e, htype, more, rest);
        assert(with_more_users(m1, htype, more) =~= with_more_users(m, htype, users)) by {
            assert(m.acl.users + seq![u] + more =~= m.acl.users + users);
            assert(m.acl.default_users + seq![u] + more =~= m.acl.default_users + users);
        }
        let n2 = wire_of(struct_items(htype, more)).len();
        lemma_past_past(d, h1, item.wire().len(), m1, h, n2, with_more_users(m, htype, users));
        lemma_advanced(d.input, item.wire().len(), n2);
        assert(wire_of(items).len() == item.wire().len() + n2);
        h
    }
}

pub open spec fn with_more_groups(m: MetadataView, htype: u64, groups: Seq<acl::Group>) -> MetadataView {
    MetadataView {
        acl: if htype == PXAR_ACL_GROUP {
            AclView { groups: m.acl.groups + groups, ..m.acl }
        } else {
            AclView { default_groups: m.acl.default_groups + groups, ..m.acl }
        },
        ..m
    }
}

/// Group entries are read as they were written.
proof fn lemma_read_groups(d: DecoderView, htype: u64, groups: Seq<acl::Group>, rest: Seq<u8>) -> (h:
    Header)
    requires
        htype == PXAR_ACL_GROUP || htype == PXAR_ACL_DEFAULT_GROUP,
        d.input.unread == wire_of(struct_items(htype, groups)) + rest,
    ensures
        d.finish_entry() == past(
            d,
            h,
            wire_of(struct_items(htype, groups)).len(),
            with_more_groups(d.entry.metadata, htype, groups),
        ).finish_entry(),
        d.input.advanced(wire_of(struct_items(htype, groups)).len()).unread == rest,
    decreases groups.len(),
{
    let items = struct_items(htype, groups);
    let m = d.entry.metadata;
    if groups.len() == 0 {
        assert(wire_of(items) =~= Seq::<u8>::empty());
        assert(with_more_groups(m, htype, groups) =~= m);
        lemma_past_nothing(d);
        assert(d.input.advanced(0).unread =~= rest);
        d.header
    } else {
        let item = items[0];
        let g = groups[0];
        let more = groups.skip(1);
        assert(items.skip(1) =~= struct_items(htype, more));
        let tail = wire_of(struct_items(htype, more)) + rest;
        assert(d.input.unread =~= item.wire() + tail);
        g.lemma_wire_round_trip();
        lemma_load(d, item, tail);
        let m1 = with_more_groups(m, htype, seq![g]);
        assert(m.acl.groups + seq![g] =~= m.acl.groups.push(g));
        assert(m.acl.default_groups + seq![g] =~= m.acl.default_groups.push(g));
        let h1 = header_of(item.htype, item.content.len());
        let e = past(d, h1, item.wire().len(), m1);
        assert(loaded(d, item).attribute_item() == Ok::<_, Error>(e));
        lemma_attribute(d, item, tail, m1);
        let h = lemma_read_groups(e, htype, more, rest);
        assert(with_more_groups(m1, htype, more) =~= with_more_groups(m, htype, groups)) by {
            assert(m.acl.groups + seq![g] + more =~= m.acl.groups + groups);
            assert(m.acl.default_groups + seq![g] + more =~= m.acl.default_groups + groups);
        }
        let n2 = wire_of(struct_items(htype, more)).len();
        lemma_past_past(d, h1, item.wire().len(), m1, h, n2, with_more_groups(m, htype, groups));
        lemma_advanced(d.input, item.wire().len(), n2);
        assert(wire_of(items).len() == item.wire().len() + n2);
        h
    }
}

/// An attribute that may be missing is read as it was written.
proof fn lemma_read_optional(
    d: DecoderView,
    htype: u64,
    content: Option<Seq<u8>>,
    metadata: MetadataView,
    rest: Seq<u8>,
) -> (h: Header)
    requires
        is_attribute(htype),
        content matches Some(c) ==> acceptable(ItemView { htype, content: c }),
        d.input.unread == wire_of(optional_item(htype, content)) + rest,
        content is None ==> metadata == d.entry.metadata,
        content matches Some(c) ==> loaded(d, ItemView { htype, content: c }).attribute_item()
            == Ok::<_, Error>(
            past(
                d,
                header_of(htype, c.len()),
                (ItemView { htype, content: c }).wire().len(),
                metadata,
            ),
        ),
    ensures
        d.finish_entry() == past(
            d,
            h,
            wire_of(optional_item(htype, content)).len(),
            metadata,
        ).finish_entry(),
        d.input.advanced(wire_of(optional_item(htype, content)).len()).unread == rest,
{
    match content {
        Some(c) => {
            let item = ItemView { htype, content: c };
            lemma_wire_of_one(item);
            lemma_attribute(d, item, rest, metadata);
            header_of(htype, c.len())
        },
        None => {
            assert(wire_of(optional_item(htype, content)) =~= Seq::<u8>::empty());
            lemma_past_nothing(d);
            assert(d.input.advanced(0).unread =~= rest);
            d.header
        },
    }
}

/// A group object is read as it was written.
proof fn lemma_read_group_obj(d: DecoderView, value: Option<acl::GroupObject>, rest: Seq<u8>) -> (h:
    Header)
    requires
        d.entry.metadata.acl.group_obj is None,
        d.input.unread == wire_of(optional_item(PXAR_ACL_GROUP_OBJ, optional_wire(value))) + rest,
    ensures
        ({
            let n = wire_of(optional_item(PXAR_ACL_GROUP_OBJ, optional_wire(value))).len();
            let m = d.entry.metadata;
            &&& d.finish_entry() == past(
                d,
                h,
                n,
                MetadataView { acl: AclView { group_obj: value, ..m.acl }, ..m },
            ).finish_entry()
            &&& d.input.advanced(n).unread == rest
        }),
{
    let m = d.entry.metadata;
    if let Some(g) = value {
        g.lemma_wire_round_trip();
        let item = ItemView { htype: PXAR_ACL_GROUP_OBJ, content: g.wire() };
        lemma_wire_of_one(item);
        lemma_load(d, item, rest);
    }
    lemma_read_optional(
        d,
        PXAR_ACL_GROUP_OBJ,
        optional_wire(value),
        MetadataView { acl: AclView { group_obj: value, ..m.acl }, ..m },
        rest,
    )
}

/// Default permissions are read as they were written.
proof fn lemma_read_default(d: DecoderView, value: Option<acl::Default>, rest: Seq<u8>) -> (h: Header)
    requires
        d.entry.metadata.acl.default is None,
        d.input.unread == wire_of(optional_item(PXAR_ACL_DEFAULT, optional_wire(value))) + rest,
    ensures
        ({
            let n = wire_of(optional_item(PXAR_ACL_DEFAULT, optional_wire(value))).len();
            let m = d.entry.metadata;
            &&& d.finish_entry() == past(
                d,
                h,
                n,
                MetadataView { acl: AclView { default: value, ..m.acl }, ..m },
            ).finish_entry()
            &&& d.input.advanced(n).unread == rest
        }),
{
    let m = d.entry.metadata;
    if let Some(g) = value {
        g.lemma_wire_round_trip();
        let item = ItemView { htype: PXAR_ACL_DEFAULT, content: g.wire() };
        lemma_wire_of_one(item);
        lemma_load(d, item, rest);
    }
    lemma_read_optional(
        d,
        PXAR_ACL_DEFAULT,
        optional_wire(value),
        MetadataView { acl: AclView { default: value, ..m.acl }, ..m },
        rest,
    )
}

/// File capabilities are read as they were written.
proof fn lemma_read_fcaps(d: DecoderView, value: Option<Seq<u8>>, rest: Seq<u8>) -> (h: Header)
    requires
        d.entry.metadata.fcaps is None,
        all_acceptable(optional_item(PXAR_FCAPS, value)),
        d.input.unread == wire_of(optional_item(PXAR_FCAPS, value)) + rest,
    ensures
        ({
            let n = wire_of(optional_item(PXAR_FCAPS, value)).len();
            let m = d.entry.metadata;
            &&& d.finish_entry() == past(d, h, n, MetadataView { fcaps: value, ..m }).finish_entry()
            &&& d.input.advanced(n).unread == rest
        }),
{
    let m = d.entry.metadata;
    if let Some(c) = value {
        let item = ItemView { htype: PXAR_FCAPS, content: c };
        assert(optional_item(PXAR_FCAPS, value)[0] == item);
        lemma_wire_of_one(item);
        lemma_load(d, item, rest);
    }
    lemma_read_optional(d, PXAR_FCAPS, value, MetadataView { fcaps: value, ..m }, rest)
}

/// A quota project id is read as it was written.
proof fn lemma_read_quota(d: DecoderView, value: Option<QuotaProjectId>, rest: Seq<u8>) -> (h: Header)
    requires
        d.entry.metadata.quota_project_id is None,
        d.input.unread == wire_of(optional_item(PXAR_QUOTA_PROJID, optional_wire(value))) + rest,
    ensures
        ({
            let n = wire_of(optional_item(PXAR_QUOTA_PROJID, optional_wire(value))).len();
            let m = d.entry.metadata;
            &&& d.finish_entry() == past(
                d,
                h,
                n,
                MetadataView { quota_project_id: value, ..m },
            ).finish_entry()
            &&& d.input.advanced(n).unread == rest
        }),
{
    let m = d.entry.metadata;
    if let Some(q) = value {
        q.lemma_wire_round_trip();
        let item = ItemView { htype: PXAR_QUOTA_PROJID, content: q.wire() };
        lemma_wire_of_one(item);
        lemma_load(d, item, rest);
    }
    lemma_read_optional(
        d,
        PXAR_QUOTA_PROJID,
        optional_wire(value),
        MetadataView { quota_project_id: value, ..m },
        rest,
    )
}

/// Parts of acceptable items are acceptable.
pub proof fn lemma_acceptable_parts(a: Seq<ItemView>, b: Seq<ItemView>)
    requires
        all_acceptable(a + b),
    ensures
        all_acceptable(a),
        all_acceptable(b),
{
    assert forall|i: int| 0 <= i < a.len() implies acceptable(#[trigger] a[i]) by {
        assert((a + b)[i] == a[i]);
    }
    assert forall|i: int| 0 <= i < b.len() implies acceptable(#[trigger] b[i]) by {
        assert((a + b)[a.len() + i] == b[i]);
    }
}

/// One list of attributes after another.
proof fn lemma_chain(
    d: DecoderView,
    h1: Header,
    a: Seq<ItemView>,
    m1: MetadataView,
    h2: Header,
    b: Seq<ItemView>,
    m2: MetadataView,
    rest: Seq<u8>,
)
    requires
        d.input.unread == wire_of(a) + (wire_of(b) + rest),
        d.finish_entry() == past(d, h1, wire_of(a).len(), m1).finish_entry(),
        past(d, h1, wire_of(a).len(), m1).finish_entry() == past(
            past(d, h1, wire_of(a).len(), m1),
            h2,
            wire_of(b).len(),
            m2,
        ).finish_entry(),
    ensures
        d.finish_entry() == past(d, h2, wire_of(a + b).len(), m2).finish_entry(),
        wire_of(a + b) == wire_of(a) + wire_of(b),
        d.input.unread == wire_of(a + b) + rest,
        d.input.advanced(wire_of(a + b).len()).unread == rest,
{
    lemma_wire_of_concat(a, b);
    lemma_past_past(d, h1, wire_of(a).len(), m1, h2, wire_of(b).len(), m2);
    assert(d.input.unread =~= wire_of(a + b) + rest);
    assert(d.input.advanced(wire_of(a + b).len()).unread =~= rest);
}

/// The items of the access ACL.
spec fn access_items(acl: AclView) -> Seq<ItemView> {
    struct_items(PXAR_ACL_USER, acl.users) + struct_items(PXAR_ACL_GROUP, acl.groups)
        + optional_item(PXAR_ACL_GROUP_OBJ, optional_wire(acl.group_obj))
}

/// The items of the default ACL.
spec fn default_items(acl: AclView) -> Seq<ItemView> {
    optional_item(PXAR_ACL_DEFAULT, optional_wire(acl.default)) + struct_items(
        PXAR_ACL_DEFAULT_USER,
        acl.default_users,
    ) + struct_items(PXAR_ACL_DEFAULT_GROUP, acl.default_groups)
}

/// The access ACL is read as it was written.
proof fn lemma_read_access(d: DecoderView, acl: AclView, rest: Seq<u8>) -> (h: Header)
    requires
        d.entry.metadata.acl == AclView::empty(),
        d.input.unread == wire_of(access_items(acl)) + rest,
    ensures
        d.finish_entry() == past(
            d,
            h,
            wire_of(access_items(acl)).len(),
            MetadataView {
                acl: AclView {
                    users: acl.users,
                    groups: acl.groups,
                    group_obj: acl.group_obj,
                    ..AclView::empty()
                },
                ..d.entry.metadata
            },
        ).finish_entry(),
        d.input.advanced(wire_of(access_items(acl)).len()).unread == rest,
{
    let m0 = d.entry.metadata;
    let i1 = struct_items(PXAR_ACL_USER, acl.users);
    let i2 = struct_items(PXAR_ACL_GROUP, acl.groups);
    let i3 = optional_item(PXAR_ACL_GROUP_OBJ, optional_wire(acl.group_obj));
    lemma_wire_of_concat(i1, i2);
    lemma_wire_of_concat(i1 + i2, i3);
    let r2 = wire_of(i3) + rest;
    let r1 = wire_of(i2) + r2;
    assert(d.input.unread =~= wire_of(i1) + r1);

    let h1 = lemma_read_users(d, PXAR_ACL_USER, acl.users, r1);
    let m1 = with_more_users(m0, PXAR_ACL_USER, acl.users);
    let e1 = past(d, h1, wire_of(i1).len(), m1);

    let h2 = lemma_read_groups(e1, PXAR_ACL_GROUP, acl.groups, r2);
    let m2 = with_more_groups(m1, PXAR_ACL_GROUP, acl.groups);
    lemma_chain(d, h1, i1, m1, h2, i2, m2, r2);
    let e2 = past(d, h2, wire_of(i1 + i2).len(), m2);

    let m3 = MetadataView { acl: AclView { group_obj: acl.group_obj, ..m2.acl }, ..m2 };
    let h3 = lemma_read_group_obj(e2, acl.group_obj, rest);
    lemma_chain(d, h2, i1 + i2, m2, h3, i3, m3, rest);
    assert(m3.acl.users =~= acl.users);
    assert(m3.acl.groups =~= acl.groups);
    h3
}

/// The default ACL is read as it was written.
proof fn lemma_read_defaults(d: DecoderView, acl: AclView, rest: Seq<u8>) -> (h: Header)
    requires
        d.entry.metadata.acl == (AclView {
            users: acl.users,
            groups: acl.groups,
            group_obj: acl.group_obj,
            ..AclView::empty()
        }),
        d.input.unread == wire_of(default_items(acl)) + rest,
    ensures
        d.finish_entry() == past(
            d,
            h,
            wire_of(default_items(acl)).len(),
            MetadataView { acl, ..d.entry.metadata },
        ).finish_entry(),
        d.input.advanced(wire_of(default_items(acl)).len()).unread == rest,
{
    let m0 = d.entry.metadata;
    let i1 = optional_item(PXAR_ACL_DEFAULT, optional_wire(acl.default));
    let i2 = struct_items(PXAR_ACL_DEFAULT_USER, acl.default_users);
    let i3 = struct_items(PXAR_ACL_DEFAULT_GROUP, acl.default_groups);
    lemma_wire_of_concat(i1, i2);
    lemma_wire_of_concat(i1 + i2, i3);
    let r2 = wire_of(i3) + rest;
    let r1 = wire_of(i2) + r2;
    assert(d.input.unread =~= wire_of(i1) + r1);

    let m1 = MetadataView { acl: AclView { default: acl.default, ..m0.acl }, ..m0 };
    let h1 = lemma_read_default(d, acl.default, r1);
    let e1 = past(d, h1, wire_of(i1).len(), m1);

    let h2 = lemma_read_users(e1, PXAR_ACL_DEFAULT_USER, acl.default_users, r2);
    let m2 = with_more_users(m1, PXAR_ACL_DEFAULT_USER, acl.default_users);
    lemma_chain(d, h1, i1, m1, h2, i2, m2, r2);
    let e2 = past(d, h2, wire_of(i1 + i2).len(), m2);

    let h3 = lemma_read_groups(e2, PXAR_ACL_DEFAULT_GROUP, acl.default_groups, rest);
    let m3 = with_more_groups(m2, PXAR_ACL_DEFAULT_GROUP, acl.default_groups);
    lemma_chain(d, h2, i1 + i2, m2, h3, i3, m3, rest);
    assert(m3.acl.default_users =~= acl.default_users);
    assert(m3.acl.default_groups =~= acl.default_groups);
    assert(m3 =~= (MetadataView { acl, ..m0 }));
    h3
}

/// An ACL is read as it was written.
proof fn lemma_read_acl(d: DecoderView, acl: AclView, rest: Seq<u8>) -> (h: Header)
    requires
        d.entry.metadata.acl == AclView::empty(),
        d.input.unread == wire_of(acl_items(acl)) + rest,
    ensures
        d.finish_entry() == past(
            d,
            h,
            wire_of(acl_items(acl)).len(),
            MetadataView { acl, ..d.entry.metadata },
        ).finish_entry(),
        d.input.advanced(wire_of(acl_items(acl)).len()).unread == rest,
{
    let m0 = d.entry.metadata;
    let a = access_items(acl);
    let b = default_items(acl);
    assert(acl_items(acl) =~= a + b);
    lemma_wire_of_concat(a, b);
    let r1 = wire_of(b) + rest;
    assert(d.input.unread =~= wire_of(a) + r1);
    let h1 = lemma_read_access(d, acl, r1);
    let m1 = MetadataView {
        acl: AclView {
            users: acl.users,
            groups: acl.groups,
            group_obj: acl.group_obj,
            ..AclView::empty()
        },
        ..m0
    };
    let e1 = past(d, h1, wire_of(a).len(), m1);
    let h2 = lemma_read_defaults(e1, acl, rest);
    lemma_chain(d, h1, a, m1, h2, b, MetadataView { acl, ..m1 }, rest);
    assert((MetadataView { acl, ..m1 }) =~= (MetadataView { acl, ..m0 }));
    h2
}

/// What comes after the stat data is read as it was written.
pub proof fn lemma_read_attributes(d: DecoderView, m: MetadataView, rest: Seq<u8>) -> (h: Header)
    requires
        d.entry.metadata == MetadataView::from_stat(m.stat),
        readable_xattrs(m.xattrs),
        all_acceptable(attribute_items(m)),
        d.input.unread == wire_of(attribute_items(m)) + rest,
    ensures
        d.finish_entry() == past(d, h, wire_of(attribute_items(m)).len(), m).finish_entry(),
        d.input.advanced(wire_of(attribute_items(m)).len()).unread == rest,
{
    let m0 = d.entry.metadata;
    let i1 = xattr_items(m.xattrs);
    let i2 = acl_items(m.acl);
    let i3 = optional_item(PXAR_FCAPS, m.fcaps);
    let c4 = optional_wire(m.quota_project_id);
    let i4 = optional_item(PXAR_QUOTA_PROJID, c4);
    lemma_wire_of_concat(i1, i2);
    lemma_wire_of_concat(i1 + i2, i3);
    lemma_wire_of_concat(i1 + i2 + i3, i4);
    lemma_acceptable_parts(i1 + i2 + i3, i4);
    lemma_acceptable_parts(i1 + i2, i3);
    lemma_acceptable_parts(i1, i2);
    let r4 = rest;
    let r3 = wire_of(i4) + r4;
    let r2 = wire_of(i3) + r3;
    let r1 = wire_of(i2) + r2;
    assert(d.input.unread =~= wire_of(i1) + r1);

    let h1 = lemma_read_xattrs(d, m.xattrs, r1);
    let m1 = with_more_xattrs(m0, m.xattrs);
    let e1 = past(d, h1, wire_of(i1).len(), m1);

    let h2 = lemma_read_acl(e1, m.acl, r2);
    let m2 = MetadataView { acl: m.acl, ..m1 };
    lemma_chain(d, h1, i1, m1, h2, i2, m2, r2);
    let a2 = i1 + i2;
    let e2 = past(d, h2, wire_of(a2).len(), m2);

    let m3 = MetadataView { fcaps: m.fcaps, ..m2 };
    let h3 = lemma_read_fcaps(e2, m.fcaps, r3);
    lemma_chain(d, h2, a2, m2, h3, i3, m3, r3);
    let a3 = a2 + i3;
    let e3 = past(d, h3, wire_of(a3).len(), m3);

    let m4 = MetadataView { quota_project_id: m.quota_project_id, ..m3 };
    let h4 = lemma_read_quota(e3, m.quota_project_id, r4);
    lemma_chain(d, h3, a3, m3, h4, i4, m4, r4);
    assert(m4 =~= m) by {
        assert(Seq::<XAttrView>::empty() + m.xattrs =~= m.xattrs);
    }
    h4
}

} // verus!
