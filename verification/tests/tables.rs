//! Goodbye tables, their order and their search.

use pxar::binary_tree_array;
use pxar::format::wire::Wire;
use pxar::format::GoodbyeItem;
use pxar::goodbye_table::{make_goodbye_content, sort_items};
use pxar::path::{components, file_name, push, same_path, Component};

fn item(hash: u64, offset: u64) -> GoodbyeItem {
    GoodbyeItem {
        hash,
        offset,
        size: 1,
    }
}

#[test]
fn values_are_laid_out_as_a_tree() {
    assert_eq!(binary_tree_array::copy::<u32>(&[]), Vec::<u32>::new());
    assert_eq!(binary_tree_array::copy(&[1]), vec![1]);
    assert_eq!(binary_tree_array::copy(&[1, 2]), vec![2, 1]);
    assert_eq!(binary_tree_array::copy(&[1, 2, 3]), vec![2, 1, 3]);
    assert_eq!(binary_tree_array::copy(&[1, 2, 3, 4]), vec![3, 2, 4, 1]);
    assert_eq!(
        binary_tree_array::copy(&[1, 2, 3, 4, 5, 6, 7, 8]),
        vec![5, 3, 7, 2, 4, 6, 8, 1]
    );
}

#[test]
fn every_hash_is_found() {
    for n in 0..40u64 {
        let sorted: Vec<GoodbyeItem> = (0..n).map(|i| item(10 * i, i)).collect();
        let table = binary_tree_array::copy(&sorted);
        for i in 0..n {
            let at = binary_tree_array::search_by(&table, 0, 0, 10 * i).unwrap();
            assert_eq!(table[at], sorted[i as usize]);
            assert_eq!(binary_tree_array::search_by(&table, 0, 1, 10 * i), None);
            assert_eq!(binary_tree_array::search_by(&table, 0, 0, 10 * i + 1), None);
        }
    }
}

#[test]
fn equal_hashes_are_all_found() {
    let sorted = [item(1, 0), item(5, 1), item(5, 2), item(5, 3), item(9, 4)];
    let table = binary_tree_array::copy(&sorted);
    let mut offsets = Vec::new();
    let mut skip = 0;
    while let Some(at) = binary_tree_array::search_by(&table, 0, skip, 5) {
        assert_eq!(table[at].hash, 5);
        offsets.push(table[at].offset);
        skip += 1;
    }
    offsets.sort();
    assert_eq!(offsets, vec![1, 2, 3]);
}

#[test]
fn items_are_sorted() {
    let items = [item(5, 2), item(1, 9), item(5, 1), item(3, 3)];
    assert_eq!(
        sort_items(&items),
        vec![item(1, 9), item(3, 3), item(5, 1), item(5, 2)]
    );
    assert_eq!(sort_items(&[]), Vec::new());
}

#[test]
fn goodbye_tables_count_back_from_their_start() {
    let content = make_goodbye_content(&vec![item(7, 40), item(2, 60)], 100, 10);
    assert_eq!(content.len(), 72);
    let at = |i: usize| GoodbyeItem::from_bytes(&content[24 * i..24 * (i + 1)]);
    assert_eq!(at(0), item(7, 60));
    assert_eq!(at(1), item(2, 40));
    assert_eq!(
        at(2),
        GoodbyeItem {
            hash: pxar::format::PXAR_GOODBYE_TAIL_MARKER,
            offset: 90,
            size: 88,
        }
    );
}

#[test]
fn paths_have_components() {
    let parts = components(b"/usr//bin/./cat/");
    assert_eq!(parts.len(), 4);
    assert!(matches!(parts[0], Component::RootDir));
    assert!(matches!(parts[1], Component::Normal(b"usr")));
    assert!(matches!(parts[2], Component::Normal(b"bin")));
    assert!(matches!(parts[3], Component::Normal(b"cat")));

    let parts = components(b"./../a");
    assert_eq!(parts.len(), 3);
    assert!(matches!(parts[0], Component::CurDir));
    assert!(matches!(parts[1], Component::ParentDir));
    assert!(matches!(parts[2], Component::Normal(b"a")));

    assert_eq!(components(b"").len(), 0);
    assert_eq!(file_name(b"/usr/bin/"), Some(&b"bin"[..]));
    assert_eq!(file_name(b"/"), None);
    assert_eq!(file_name(b"a/.."), None);
    assert!(same_path(b"a/b", b"a//b/"));
    assert!(!same_path(b"/a", b"a"));

    let mut path = b"/".to_vec();
    push(&mut path, b"a");
    push(&mut path, b"b");
    assert_eq!(path, b"/a/b");
}
