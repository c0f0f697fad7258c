//! The goodbye table at the end of a directory.

use vstd::multiset::Multiset;
use vstd::prelude::*;
use vstd::relations::{sorted_by, total_ordering};
use vstd::seq_lib::{lemma_multiset_commutative, lemma_sorted_unique};
use vstd::slice::{slice_subrange, slice_to_vec};

use crate::binary_tree_array::{self, in_order, lemma_tree_exists, sorted_by_hash, tree_of};
use crate::format::goodbye::GOODBYE_ITEM_SIZE;
use crate::format::wire::Wire;
use crate::format::{GoodbyeItem, HEADER_SIZE, PXAR_GOODBYE_TAIL_MARKER};

verus! {

/// Items are ordered by their hash. Those with the same hash stand in the order in which they were
/// written.
pub open spec fn item_leq(a: GoodbyeItem, b: GoodbyeItem) -> bool {
    if a.hash != b.hash {
        a.hash < b.hash
    } else if a.offset != b.offset {
        a.offset < b.offset
    } else {
        a.size <= b.size
    }
}

pub open spec fn item_order() -> spec_fn(GoodbyeItem, GoodbyeItem) -> bool {
    |a: GoodbyeItem, b: GoodbyeItem| item_leq(a, b)
}

/// The items in order.
pub open spec fn sorted_items(items: Seq<GoodbyeItem>) -> Seq<GoodbyeItem> {
    items.sort_by(item_order())
}

proof fn lemma_item_order()
    ensures
        total_ordering(item_order()),
{
}

/// Sorting keeps the items and puts their hashes in order.
pub proof fn lemma_sorted_items(items: Seq<GoodbyeItem>)
    ensures
        sorted_items(items).to_multiset() == items.to_multiset(),
        sorted_items(items).len() == items.len(),
        sorted_by(sorted_items(items), item_order()),
        sorted_by_hash(sorted_items(items)),
{
    broadcast use vstd::seq_lib::group_to_multiset_ensures;

    lemma_item_order();
    items.lemma_sort_by_ensures(item_order());
    let s = sorted_items(items);
    assert(s.len() == s.to_multiset().len());
    assert(items.len() == items.to_multiset().len());
    assert forall|a: int, b: int| 0 <= a <= b < s.len() implies s[a].hash <= s[b].hash by {
        if a < b {
            assert(item_order()(s[a], s[b]));
        }
    }
}

/// Compare two items.
fn item_le(a: &GoodbyeItem, b: &GoodbyeItem) -> (r: bool)
    ensures
        r == item_leq(*a, *b),
{
    if a.hash != b.hash {
        a.hash < b.hash
    } else if a.offset != b.offset {
        a.offset < b.offset
    } else {
        a.size <= b.size
    }
}

/// Taking the first item of a rest takes it out of the multiset.
proof fn lemma_rest_multiset(s: Seq<GoodbyeItem>, i: int)
    requires
        0 <= i < s.len(),
    ensures
        s.skip(i).to_multiset() == s.skip(i + 1).to_multiset().insert(s[i]),
{
    broadcast use vstd::seq_lib::group_to_multiset_ensures;

    let one = Seq::<GoodbyeItem>::empty().push(s[i]);
    assert(s.skip(i) =~= one + s.skip(i + 1));
    lemma_multiset_commutative(one, s.skip(i + 1));
    assert(one.to_multiset() =~= Multiset::<GoodbyeItem>::empty().insert(s[i]));
    assert(one.to_multiset().add(s.skip(i + 1).to_multiset()) =~= s.skip(
        i + 1,
    ).to_multiset().insert(s[i]));
}

/// Merge two sorted lists.
fn merge(a: &Vec<GoodbyeItem>, b: &Vec<GoodbyeItem>) -> (out: Vec<GoodbyeItem>)
    requires
        sorted_by(a@, item_order()),
        sorted_by(b@, item_order()),
    ensures
        sorted_by(out@, item_order()),
        out@.to_multiset() == a@.to_multiset().add(b@.to_multiset()),
{
    broadcast use vstd::seq_lib::group_to_multiset_ensures;

    let mut out: Vec<GoodbyeItem> = Vec::new();
    let mut i: usize = 0;
    let mut j: usize = 0;
    let ghost all = a@.to_multiset().add(b@.to_multiset());
    proof {
        assert(a@.skip(0) =~= a@);
        assert(b@.skip(0) =~= b@);
        assert(out@.to_multiset().add(a@.to_multiset()).add(b@.to_multiset()) =~= all);
    }
    while i < a.len() || j < b.len()
        invariant
            i <= a@.len(),
            j <= b@.len(),
            sorted_by(a@, item_order()),
            sorted_by(b@, item_order()),
            sorted_by(out@, item_order()),
            forall|k: int, l: int|
                0 <= k < out@.len() && i <= l < a@.len() ==> #[trigger] item_leq(out@[k], a@[l]),
            forall|k: int, l: int|
                0 <= k < out@.len() && j <= l < b@.len() ==> #[trigger] item_leq(out@[k], b@[l]),
            out@.to_multiset().add(a@.skip(i as int).to_multiset()).add(
                b@.skip(j as int).to_multiset(),
            ) == all,
        decreases a@.len() - i + b@.len() - j,
    {
        let ghost before = out@;
        if j >= b.len() || (i < a.len() && item_le(&a[i], &b[j])) {
            let x = a[i];
            out.push(x);
            proof {
                broadcast use vstd::seq_lib::group_to_multiset_ensures;

                lemma_rest_multiset(a@, i as int);
                assert(out@.to_multiset() =~= before.to_multiset().insert(x));
                assert(out@.to_multiset().add(a@.skip(i + 1).to_multiset()).add(
                    b@.skip(j as int).to_multiset(),
                ) =~= all);
                assert forall|k: int, l: int| 0 <= k < l < out@.len() implies #[trigger] item_order()(
                    out@[k],
                    out@[l],
                ) by {
                    if l == before.len() {
                        assert(item_leq(before[k], a@[i as int]));
                    } else {
                        assert(item_order()(before[k], before[l]));
                    }
                }
                assert forall|k: int, l: int|
                    0 <= k < out@.len() && i + 1 <= l < a@.len() implies #[trigger] item_leq(
                    out@[k],
                    a@[l],
                ) by {
                    assert(item_order()(a@[i as int], a@[l]));
                    if k < before.len() {
                        assert(item_leq(before[k], a@[l]));
                    }
                }
                assert forall|k: int, l: int|
                    0 <= k < out@.len() && j <= l < b@.len() implies #[trigger] item_leq(
                    out@[k],
                    b@[l],
                ) by {
                    if k < before.len() {
                        assert(item_leq(before[k], b@[l]));
                    } else if l > j {
                        assert(item_order()(b@[j as int], b@[l]));
                    }
                }
            }
            i = i + 1;
        } else {
            let x = b[j];
            out.push(x);
            proof {
                broadcast use vstd::seq_lib::group_to_multiset_ensures;

                lemma_rest_multiset(b@, j as int);
                assert(out@.to_multiset() =~= before.to_multiset().insert(x));
                assert(out@.to_multiset().add(a@.skip(i as int).to_multiset()).add(
                    b@.skip(j + 1).to_multiset(),
                ) =~= all);
                assert forall|k: int, l: int| 0 <= k < l < out@.len() implies #[trigger] item_order()(
                    out@[k],
                    out@[l],
                ) by {
                    if l == before.len() {
                        assert(item_leq(before[k], b@[j as int]));
                    } else {
                        assert(item_order()(before[k], before[l]));
                    }
                }
                assert forall|k: int, l: int|
                    0 <= k < out@.len() && i <= l < a@.len() implies #[trigger] item_leq(
                    out@[k],
                    a@[l],
                ) by {
                    if k < before.len() {
                        assert(item_leq(before[k], a@[l]));
                    } else if l > i {
                        assert(item_order()(a@[i as int], a@[l]));
                    }
                }
                assert forall|k: int, l: int|
                    0 <= k < out@.len() && j + 1 <= l < b@.len() implies #[trigger] item_leq(
                    out@[k],
                    b@[l],
                ) by {
                    assert(item_order()(b@[j as int], b@[l]));
                    if k < before.len() {
                        assert(item_leq(before[k], b@[l]));
                    }
                }
            }
            j = j + 1;
        }
    }
    proof {
        assert(a@.skip(i as int) =~= Seq::<GoodbyeItem>::empty());
        assert(b@.skip(j as int) =~= Seq::<GoodbyeItem>::empty());
        assert(out@.to_multiset().add(a@.skip(i as int).to_multiset()).add(
            b@.skip(j as int).to_multiset(),
        ) =~= out@.to_multiset());
    }
    out
}

/// Sort a list of items.
fn merge_sort(items: &[GoodbyeItem]) -> (out: Vec<GoodbyeItem>)
    ensures
        sorted_by(out@, item_order()),
        out@.to_multiset() == items@.to_multiset(),
    decreases items@.len(),
{
    let len: usize = items.len();
    if len <= 1 {
        return slice_to_vec(items);
    }
    let mid: usize = len / 2;
    let left = slice_subrange(items, 0, mid);
    let right = slice_subrange(items, mid, len);
    proof {
        assert(items@ =~= left@ + right@);
        lemma_multiset_commutative(left@, right@);
    }
    let a = merge_sort(left);
    let b = merge_sort(right);
    merge(&a, &b)
}

/// Put items in order.
pub fn sort_items(items: &[GoodbyeItem]) -> (out: Vec<GoodbyeItem>)
    ensures
        out@ == sorted_items(items@),
{
    let out = merge_sort(items);
    proof {
        lemma_item_order();
        lemma_sorted_items(items@);
        lemma_sorted_unique(out@, sorted_items(items@), item_order());
    }
    out
}

/// An item with its offset counted back from the goodbye table.
pub open spec fn relative_item(item: GoodbyeItem, goodbye_offset: u64) -> GoodbyeItem {
    GoodbyeItem { offset: (goodbye_offset - item.offset) as u64, ..item }
}

/// The table of a directory, without its tail.
pub open spec fn table_of(items: Seq<GoodbyeItem>, goodbye_offset: u64) -> Seq<GoodbyeItem> {
    tree_of(
        sorted_items(items).map_values(|item: GoodbyeItem| relative_item(item, goodbye_offset)),
    )
}

/// The size of the goodbye item of a directory with `n` entries.
pub open spec fn goodbye_size_of(n: nat) -> nat {
    (n + 1) * GOODBYE_ITEM_SIZE as nat + HEADER_SIZE as nat
}

/// The last item of the table.
pub open spec fn tail_of(n: nat, goodbye_offset: u64, entry_offset: u64) -> GoodbyeItem {
    GoodbyeItem {
        hash: PXAR_GOODBYE_TAIL_MARKER,
        offset: (goodbye_offset - entry_offset) as u64,
        size: goodbye_size_of(n) as u64,
    }
}

/// The bytes of a list of items.
pub open spec fn items_wire(items: Seq<GoodbyeItem>) -> Seq<u8>
    decreases items.len(),
{
    if items.len() == 0 {
        Seq::empty()
    } else {
        items_wire(items.drop_last()) + items.last().wire()
    }
}

/// The content of a goodbye item.
pub open spec fn goodbye_content(
    items: Seq<GoodbyeItem>,
    goodbye_offset: u64,
    entry_offset: u64,
) -> Seq<u8> {
    items_wire(
        table_of(items, goodbye_offset).push(tail_of(items.len(), goodbye_offset, entry_offset)),
    )
}

pub proof fn lemma_items_wire_len(items: Seq<GoodbyeItem>)
    ensures
        items_wire(items).len() == items.len() * GOODBYE_ITEM_SIZE,
    decreases items.len(),
{
    if items.len() > 0 {
        lemma_items_wire_len(items.drop_last());
        items.last().lemma_wire_round_trip();
    }
}

/// The `i`-th item stands at `i * 24`.
pub proof fn lemma_items_wire_at(items: Seq<GoodbyeItem>, i: int)
    requires
        0 <= i < items.len(),
    ensures
        items_wire(items).len() == items.len() * GOODBYE_ITEM_SIZE,
        items_wire(items).subrange(i * GOODBYE_ITEM_SIZE, (i + 1) * GOODBYE_ITEM_SIZE)
            == items[i].wire(),
    decreases items.len(),
{
    lemma_items_wire_len(items);
    lemma_items_wire_len(items.drop_last());
    items.last().lemma_wire_round_trip();
    let all = items_wire(items);
    if i == items.len() - 1 {
        assert(all.subrange(i * GOODBYE_ITEM_SIZE, (i + 1) * GOODBYE_ITEM_SIZE)
            =~= items[i].wire());
    } else {
        lemma_items_wire_at(items.drop_last(), i);
        assert(all.subrange(i * GOODBYE_ITEM_SIZE, (i + 1) * GOODBYE_ITEM_SIZE) =~= items_wire(
            items.drop_last(),
        ).subrange(i * GOODBYE_ITEM_SIZE, (i + 1) * GOODBYE_ITEM_SIZE));
    }
}

/// The table of a directory has its items in order.
pub proof fn lemma_table_of(items: Seq<GoodbyeItem>, goodbye_offset: u64)
    ensures
        table_of(items, goodbye_offset).len() == items.len(),
        in_order(table_of(items, goodbye_offset), 0) == sorted_items(items).map_values(
            |item: GoodbyeItem| relative_item(item, goodbye_offset),
        ),
        sorted_by_hash(in_order(table_of(items, goodbye_offset), 0)),
{
    lemma_sorted_items(items);
    lemma_tree_exists(
        sorted_items(items).map_values(|item: GoodbyeItem| relative_item(item, goodbye_offset)),
    );
}

/// Write out a list of items.
fn write_items(items: &Vec<GoodbyeItem>) -> (out: Vec<u8>)
    ensures
        out@ == items_wire(items@),
{
    let mut out: Vec<u8> = Vec::new();
    let mut i: usize = 0;
    while i < items.len()
        invariant
            i <= items@.len(),
            out@ == items_wire(items@.take(i as int)),
        decreases items@.len() - i,
    {
        let mut bytes = items[i].to_bytes();
        out.append(&mut bytes);
        proof {
            assert(items@.take(i + 1).drop_last() =~= items@.take(i as int));
        }
        i = i + 1;
    }
    proof {
        assert(items@.take(i as int) =~= items@);
    }
    out
}

/// Make the content of a goodbye item: sort the items, count their offsets back from the table,
/// lay them out as a tree and add the tail.
pub fn make_goodbye_content(
    items: &Vec<GoodbyeItem>,
    goodbye_offset: u64,
    entry_offset: u64,
) -> (out: Vec<u8>)
    requires
        goodbye_size_of(items@.len()) <= u64::MAX,
        entry_offset <= goodbye_offset,
        forall|i: int| 0 <= i < items@.len() ==> items@[i].offset <= goodbye_offset,
    ensures
        out@ == goodbye_content(items@, goodbye_offset, entry_offset),
        out@.len() == (items@.len() + 1) * GOODBYE_ITEM_SIZE,
{
    // sort, then create a BST
    let sorted = sort_items(items.as_slice());
    proof {
        lemma_sorted_items(items@);
    }
    let mut relative: Vec<GoodbyeItem> = Vec::new();
    let mut i: usize = 0;
    while i < sorted.len()
        invariant
            i <= sorted@.len(),
            sorted@ == sorted_items(items@),
            sorted@.to_multiset() == items@.to_multiset(),
            forall|j: int| 0 <= j < items@.len() ==> items@[j].offset <= goodbye_offset,
            relative@.len() == i,
            forall|j: int|
                0 <= j < i ==> relative@[j] == relative_item(sorted@[j], goodbye_offset),
        decreases sorted@.len() - i,
    {
        // fixup the goodbye table offsets to be relative
        let item = sorted[i];
        proof {
            broadcast use vstd::seq_lib::group_to_multiset_ensures;

            assert(sorted@.to_multiset().contains(item));
            assert(items@.contains(item));
        }
        relative.push(
            GoodbyeItem { hash: item.hash, offset: goodbye_offset - item.offset, size: item.size },
        );
        i = i + 1;
    }
    proof {
        assert(relative@ =~= sorted_items(items@).map_values(
            |item: GoodbyeItem| relative_item(item, goodbye_offset),
        ));
    }
    let mut bst = binary_tree_array::copy(relative.as_slice());
    proof {
        assert(goodbye_size_of(items@.len()) <= u64::MAX);
    }
    let tail_size: u64 = (items.len() as u64 + 1) * GOODBYE_ITEM_SIZE;
    let goodbye_size: u64 = tail_size + HEADER_SIZE;
    bst.push(
        GoodbyeItem {
            hash: PXAR_GOODBYE_TAIL_MARKER,
            offset: goodbye_offset - entry_offset,
            size: goodbye_size,
        },
    );
    proof {
        lemma_items_wire_len(bst@);
    }
    write_items(&bst)
}

/// The table lists the same items as before, by rising hash; items with the same hash come in the
/// order of their place in the archive.
pub proof fn law_sorted_items(items: Seq<GoodbyeItem>, i: int, j: int)
    requires
        0 <= i < j < items.len(),
    ensures
        ({
            let s = sorted_items(items);
            &&& s.to_multiset() == items.to_multiset()
            &&& s.len() == items.len()
            &&& s[i].hash <= s[j].hash
            &&& s[i].hash == s[j].hash ==> s[i].offset <= s[j].offset
        }),
{
    lemma_sorted_items(items);
    let s = sorted_items(items);
    assert(item_order()(s[i], s[j]));
}

} // verus!
