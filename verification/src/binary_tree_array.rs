//! Binary search trees laid out in an array.
//!
//! The root stands at index 0, and the children of the node at `i` stand at `2 * i + 1` and
//! `2 * i + 2`. The array has no gaps.

use vstd::prelude::*;

use crate::format::GoodbyeItem;

verus! {

/// The node at `j` belongs to the subtree whose root is at `i`.
pub open spec fn in_subtree(i: int, j: int) -> bool
    decreases j,
{
    ||| i == j
    ||| 0 <= i < j && in_subtree(i, (j - 1) / 2)
}

/// The number of array elements from `i` on.
pub open spec fn beyond(n: int, i: int) -> nat {
    if i < n {
        (n - i) as nat
    } else {
        0
    }
}

/// The values of a subtree in order: those on the left, the root, those on the right.
pub open spec fn in_order<T>(tree: Seq<T>, i: int) -> Seq<T>
    decreases beyond(tree.len() as int, i),
{
    if 0 <= i < tree.len() {
        in_order(tree, 2 * i + 1) + seq![tree[i]] + in_order(tree, 2 * i + 2)
    } else {
        Seq::empty()
    }
}

/// The array whose values in order are the given ones.
pub open spec fn tree_of<T>(sorted: Seq<T>) -> Seq<T> {
    choose|tree: Seq<T>| is_tree_of(tree, sorted)
}

/// The array holds the given values in order.
pub open spec fn is_tree_of<T>(tree: Seq<T>, sorted: Seq<T>) -> bool {
    tree.len() == sorted.len() && in_order(tree, 0) == sorted
}

proof fn lemma_subtree_bound(i: int, j: int)
    requires
        0 <= i,
        in_subtree(i, j),
    ensures
        i <= j,
{
}

/// The two subtrees below a node have no node in common.
proof fn lemma_subtrees_disjoint(i: int, j: int)
    requires
        0 <= i,
        in_subtree(2 * i + 1, j),
    ensures
        !in_subtree(2 * i + 2, j),
        j != i,
    decreases j,
{
    if j == 2 * i + 1 {
    } else {
        if j == 2 * i + 2 {
            assert((j - 1) / 2 == i);
        } else if in_subtree(2 * i + 2, j) {
            lemma_subtrees_disjoint(i, (j - 1) / 2);
        }
    }
}

/// A subtree is its root and the two subtrees below it.
proof fn lemma_subtree_split(i: int, j: int)
    requires
        0 <= i,
    ensures
        in_subtree(i, j) <==> i == j || in_subtree(2 * i + 1, j) || in_subtree(2 * i + 2, j),
    decreases j,
{
    if i < j {
        let p = (j - 1) / 2;
        lemma_subtree_split(i, p);
        if p == i {
            assert(j == 2 * i + 1 || j == 2 * i + 2);
        }
    }
}

/// Every node belongs to the tree as a whole.
proof fn lemma_whole_tree(j: int)
    requires
        0 <= j,
    ensures
        in_subtree(0, j),
    decreases j,
{
    if j > 0 {
        lemma_whole_tree((j - 1) / 2);
    }
}

/// The order of a subtree depends on nothing outside of it.
proof fn lemma_in_order_frame<T>(a: Seq<T>, b: Seq<T>, i: int)
    requires
        0 <= i,
        a.len() == b.len(),
        forall|j: int| 0 <= j < a.len() && in_subtree(i, j) ==> a[j] == b[j],
    ensures
        in_order(a, i) == in_order(b, i),
    decreases beyond(a.len() as int, i),
{
    if i < a.len() {
        assert forall|j: int| 0 <= j < a.len() && in_subtree(2 * i + 1, j) implies a[j] == b[j] by {
            lemma_subtree_split(i, j);
        }
        assert forall|j: int| 0 <= j < a.len() && in_subtree(2 * i + 2, j) implies a[j] == b[j] by {
            lemma_subtree_split(i, j);
        }
        lemma_in_order_frame(a, b, 2 * i + 1);
        lemma_in_order_frame(a, b, 2 * i + 2);
        assert(in_subtree(i, i));
        assert(a[i] == b[i]);
    }
}

proof fn lemma_in_order_len<T>(a: Seq<T>, b: Seq<T>, i: int)
    requires
        a.len() == b.len(),
    ensures
        in_order(a, i).len() == in_order(b, i).len(),
    decreases beyond(a.len() as int, i),
{
    if 0 <= i < a.len() {
        lemma_in_order_len(a, b, 2 * i + 1);
        lemma_in_order_len(a, b, 2 * i + 2);
    }
}

/// The values of a subtree are determined by their order.
proof fn lemma_in_order_injective<T>(a: Seq<T>, b: Seq<T>, i: int)
    requires
        0 <= i,
        a.len() == b.len(),
        in_order(a, i) == in_order(b, i),
    ensures
        forall|j: int| 0 <= j < a.len() && in_subtree(i, j) ==> a[j] == b[j],
    decreases beyond(a.len() as int, i),
{
    if i < a.len() {
        let (la, ra) = (in_order(a, 2 * i + 1), in_order(a, 2 * i + 2));
        let (lb, rb) = (in_order(b, 2 * i + 1), in_order(b, 2 * i + 2));
        lemma_in_order_len(a, b, 2 * i + 1);
        let (x, y) = (in_order(a, i), in_order(b, i));
        assert(x == la + seq![a[i]] + ra);
        assert(y == lb + seq![b[i]] + rb);
        assert(la =~= x.take(la.len() as int));
        assert(lb =~= y.take(lb.len() as int));
        assert(ra =~= x.skip(la.len() as int + 1));
        assert(rb =~= y.skip(lb.len() as int + 1));
        assert(x[la.len() as int] == a[i]);
        assert(y[lb.len() as int] == b[i]);
        lemma_in_order_injective(a, b, 2 * i + 1);
        lemma_in_order_injective(a, b, 2 * i + 2);
        assert forall|j: int| 0 <= j < a.len() && in_subtree(i, j) implies a[j] == b[j] by {
            lemma_subtree_split(i, j);
        }
    }
}

/// There is no more than one array that holds given values in order.
pub proof fn lemma_tree_unique<T>(a: Seq<T>, b: Seq<T>, sorted: Seq<T>)
    requires
        is_tree_of(a, sorted),
        is_tree_of(b, sorted),
    ensures
        a == b,
{
    lemma_in_order_injective(a, b, 0);
    assert forall|j: int| 0 <= j < a.len() implies a[j] == b[j] by {
        lemma_whole_tree(j);
    }
    assert(a =~= b);
}

/// The number of nodes of a subtree in an array of `n` nodes.
pub open spec fn subtree_size(n: int, i: int) -> int
    decreases beyond(n, i),
{
    if 0 <= i < n {
        subtree_size(n, 2 * i + 1) + 1 + subtree_size(n, 2 * i + 2)
    } else {
        0
    }
}

proof fn lemma_subtree_size<T>(tree: Seq<T>, i: int)
    ensures
        in_order(tree, i).len() == subtree_size(tree.len() as int, i),
        subtree_size(tree.len() as int, i) >= 0,
    decreases beyond(tree.len() as int, i),
{
    if 0 <= i < tree.len() {
        lemma_subtree_size(tree, 2 * i + 1);
        lemma_subtree_size(tree, 2 * i + 2);
    }
}

/// One more node in the array is one more node in every subtree that it belongs to.
proof fn lemma_one_more_node(n: int, i: int)
    requires
        0 <= i,
        0 <= n,
    ensures
        subtree_size(n + 1, i) == subtree_size(n, i) + if in_subtree(i, n) {
            1int
        } else {
            0
        },
    decreases beyond(n + 1, i),
{
    if i < n {
        lemma_one_more_node(n, 2 * i + 1);
        lemma_one_more_node(n, 2 * i + 2);
        lemma_subtree_split(i, n);
        if in_subtree(2 * i + 1, n) {
            lemma_subtrees_disjoint(i, n);
        }
    } else if i == n {
        assert(subtree_size(n + 1, 2 * i + 1) == 0);
        assert(subtree_size(n + 1, 2 * i + 2) == 0);
    }
}

/// All the nodes belong to the tree.
proof fn lemma_tree_size(n: int)
    requires
        0 <= n,
    ensures
        subtree_size(n, 0) == n,
    decreases n,
{
    if n > 0 {
        lemma_tree_size(n - 1);
        lemma_one_more_node(n - 1, 0);
        lemma_whole_tree(n - 1);
    }
}

/// The subtree at `i` can be given any values in order, without a change elsewhere.
proof fn lemma_filled<T>(tree: Seq<T>, i: int, values: Seq<T>) -> (out: Seq<T>)
    requires
        0 <= i,
        values.len() == subtree_size(tree.len() as int, i),
    ensures
        out.len() == tree.len(),
        in_order(out, i) == values,
        forall|j: int| 0 <= j < tree.len() && !in_subtree(i, j) ==> out[j] == tree[j],
    decreases beyond(tree.len() as int, i),
{
    let n = tree.len() as int;
    if i >= n {
        assert(in_order(tree, i) =~= values);
        tree
    } else {
        lemma_subtree_size(tree, 2 * i + 1);
        lemma_subtree_size(tree, 2 * i + 2);
        let mid = subtree_size(n, 2 * i + 1);
        let a = lemma_filled(tree, 2 * i + 1, values.take(mid));
        let b = a.update(i, values[mid]);
        let out = lemma_filled(b, 2 * i + 2, values.skip(mid + 1));
        assert forall|j: int| 0 <= j < n && in_subtree(2 * i + 1, j) implies out[j] == a[j] by {
            lemma_subtrees_disjoint(i, j);
        }
        lemma_in_order_frame(out, a, 2 * i + 1);
        assert(!in_subtree(2 * i + 2, i));
        assert(out[i] == values[mid]);
        assert(in_order(out, i) =~= values);
        assert forall|j: int| 0 <= j < n && !in_subtree(i, j) implies out[j] == tree[j] by {
            lemma_subtree_split(i, j);
        }
        out
    }
}

/// There is an array for any values in order.
pub proof fn lemma_tree_exists<T>(sorted: Seq<T>)
    ensures
        is_tree_of(tree_of(sorted), sorted),
{
    lemma_tree_size(sorted.len() as int);
    let tree = lemma_filled(sorted, 0, sorted);
    assert(is_tree_of(tree, sorted));
}

/// Fill the subtree at `i` with the values from `at` on, in order.
fn fill<T: Copy>(sorted: &[T], out: &mut Vec<T>, i: usize, at: usize) -> (next: usize)
    requires
        old(out)@.len() == sorted@.len(),
        at + subtree_size(sorted@.len() as int, i as int) <= sorted@.len(),
    ensures
        final(out)@.len() == old(out)@.len(),
        next == at + subtree_size(sorted@.len() as int, i as int),
        in_order(final(out)@, i as int) == sorted@.subrange(at as int, next as int),
        forall|j: int|
            0 <= j < sorted@.len() && !in_subtree(i as int, j) ==> final(out)@[j] == old(out)@[j],
    decreases sorted@.len() - i,
{
    let n: usize = sorted.len();
    if i >= n {
        proof {
            assert(in_order(out@, i as int) =~= sorted@.subrange(at as int, at as int));
        }
        return at;
    }
    let ghost k: int = i as int;
    proof {
        lemma_subtree_size(out@, 2 * k + 1);
        lemma_subtree_size(out@, 2 * k + 2);
    }
    // what lies beyond the array is empty, also where its index would not fit
    let left: usize = if i < n - i {
        2 * i + 1
    } else {
        n
    };
    proof {
        if !(i < n - i) {
            assert(subtree_size(n as int, 2 * k + 1) == 0);
            assert(subtree_size(n as int, n as int) == 0);
            assert(in_order(out@, 2 * k + 1) =~= Seq::<T>::empty());
        }
    }
    let mid: usize = fill(sorted, out, left, at);
    let ghost after_left = out@;
    proof {
        lemma_subtree_size(after_left, 2 * k + 1);
        assert(in_order(after_left, 2 * k + 1) =~= sorted@.subrange(at as int, mid as int));
    }
    out.set(i, sorted[mid]);
    let ghost after_root = out@;
    let right: usize = if i < n - i && 2 * i + 1 < n {
        2 * i + 2
    } else {
        n
    };
    proof {
        if !(i < n - i && 2 * i + 1 < n) {
            assert(subtree_size(n as int, 2 * k + 2) == 0);
            assert(subtree_size(n as int, n as int) == 0);
        }
    }
    let next: usize = fill(sorted, out, right, mid + 1);
    proof {
        assert(in_order(out@, 2 * k + 2) =~= sorted@.subrange(mid + 1, next as int));
        assert forall|j: int| 0 <= j < n && in_subtree(2 * k + 1, j) implies out@[j]
            == after_left[j] by {
            lemma_subtrees_disjoint(k, j);
            if right == n {
                lemma_subtree_bound(2 * k + 1, j);
            }
        }
        lemma_in_order_frame(out@, after_left, 2 * k + 1);
        assert(out@[k] == sorted@[mid as int]) by {
            assert(!in_subtree(right as int, k));
        }
        assert(in_order(out@, k) =~= sorted@.subrange(at as int, next as int));
        assert forall|j: int| 0 <= j < n && !in_subtree(k, j) implies out@[j] == old(out)@[j] by {
            lemma_subtree_split(k, j);
            if left == n {
                assert(!in_subtree(n as int, j));
            }
            if right == n {
                assert(!in_subtree(n as int, j));
            }
        }
    }
    next
}

/// Lay out sorted values as a tree.
pub fn copy<T: Copy>(sorted: &[T]) -> (tree: Vec<T>)
    ensures
        tree@ == tree_of(sorted@),
        is_tree_of(tree@, sorted@),
{
    let mut out: Vec<T> = vstd::slice::slice_to_vec(sorted);
    proof {
        lemma_tree_size(sorted@.len() as int);
    }
    let _end: usize = fill(sorted, &mut out, 0, 0);
    proof {
        assert(sorted@.subrange(0, sorted@.len() as int) =~= sorted@);
        assert(is_tree_of(out@, sorted@));
        lemma_tree_unique(out@, tree_of(sorted@), sorted@);
    }
    out
}

/// The nodes with a given hash that a search from the node at `i` finds: the node itself before
/// those below it, those on the left before those on the right.
pub open spec fn hits(table: Seq<GoodbyeItem>, i: int, hash: u64) -> Seq<int>
    decreases beyond(table.len() as int, i),
{
    if 0 <= i < table.len() {
        if hash < table[i].hash {
            hits(table, 2 * i + 1, hash)
        } else if hash > table[i].hash {
            hits(table, 2 * i + 2, hash)
        } else {
            seq![i] + hits(table, 2 * i + 1, hash) + hits(table, 2 * i + 2, hash)
        }
    } else {
        Seq::empty()
    }
}

/// What a search comes to: an index, or the number of matches, all of which were skipped.
enum Search {
    Found(usize),
    Skipped(usize),
}

fn search(table: &[GoodbyeItem], i: usize, skip: usize, hash: u64) -> (r: Search)
    ensures
        match r {
            Search::Found(index) => skip < hits(table@, i as int, hash).len() && hits(
                table@,
                i as int,
                hash,
            )[skip as int] == index,
            Search::Skipped(count) => count == hits(table@, i as int, hash).len() && count <= skip,
        },
    decreases table@.len() - i,
{
    let n: usize = table.len();
    if i >= n {
        return Search::Skipped(0);
    }
    let ghost k: int = i as int;
    let left: usize = if i < n - i {
        2 * i + 1
    } else {
        n
    };
    let right: usize = if i < n - i && 2 * i + 1 < n {
        2 * i + 2
    } else {
        n
    };
    proof {
        assert(hits(table@, n as int, hash) =~= Seq::<int>::empty());
        if left == n {
            assert(hits(table@, 2 * k + 1, hash) =~= Seq::<int>::empty());
        }
        if right == n {
            assert(hits(table@, 2 * k + 2, hash) =~= Seq::<int>::empty());
        }
    }
    let at: u64 = table[i].hash;
    if hash < at {
        search(table, left, skip, hash)
    } else if hash > at {
        search(table, right, skip, hash)
    } else if skip == 0 {
        Search::Found(i)
    } else {
        match search(table, left, skip - 1, hash) {
            Search::Found(index) => Search::Found(index),
            Search::Skipped(count) => match search(table, right, skip - 1 - count, hash) {
                Search::Found(index) => Search::Found(index),
                Search::Skipped(more) => Search::Skipped(1 + count + more),
            },
        }
    }
}

/// Search the subtree at `start` for a hash, skipping some of the matches.
pub fn search_by(table: &[GoodbyeItem], start: usize, skip: usize, hash: u64) -> (r: Option<usize>)
    ensures
        match r {
            Some(index) => skip < hits(table@, start as int, hash).len() && hits(
                table@,
                start as int,
                hash,
            )[skip as int] == index,
            None => hits(table@, start as int, hash).len() <= skip,
        },
{
    match search(table, start, skip, hash) {
        Search::Found(index) => Some(index),
        Search::Skipped(_) => None,
    }
}

/// A search finds nothing but nodes of the subtree with the right hash.
pub proof fn lemma_hits_sound(table: Seq<GoodbyeItem>, i: int, hash: u64)
    requires
        0 <= i,
    ensures
        forall|k: int|
            #![trigger hits(table, i, hash)[k]]
            0 <= k < hits(table, i, hash).len() ==> {
                let index = hits(table, i, hash)[k];
                i <= index < table.len() && in_subtree(i, index) && table[index].hash == hash
            },
    decreases beyond(table.len() as int, i),
{
    if i < table.len() {
        lemma_hits_sound(table, 2 * i + 1, hash);
        lemma_hits_sound(table, 2 * i + 2, hash);
        let (l, r) = (hits(table, 2 * i + 1, hash), hits(table, 2 * i + 2, hash));
        assert forall|k: int|
            #![trigger hits(table, i, hash)[k]]
            0 <= k < hits(table, i, hash).len() implies {
            let index = hits(table, i, hash)[k];
            i <= index < table.len() && in_subtree(i, index) && table[index].hash == hash
        } by {
            let index = hits(table, i, hash)[k];
            lemma_subtree_split(i, index);
            if hash < table[i].hash {
                assert(index == l[k]);
            } else if hash > table[i].hash {
                assert(index == r[k]);
            } else if k == 0 {
                assert(index == i);
            } else if k < 1 + l.len() {
                assert(index == l[k - 1]);
            } else {
                assert(index == r[k - 1 - l.len()]);
            }
        }
    }
}

/// A search finds no node twice: there are no more matches than nodes.
pub proof fn lemma_hits_len(table: Seq<GoodbyeItem>, i: int, hash: u64)
    requires
        0 <= i,
    ensures
        hits(table, i, hash).len() <= subtree_size(table.len() as int, i),
        hits(table, i, hash).len() <= table.len(),
{
    lemma_hits_size(table, i, hash);
    lemma_subtree_at_most(table.len() as int, i);
}

proof fn lemma_hits_size(table: Seq<GoodbyeItem>, i: int, hash: u64)
    requires
        0 <= i,
    ensures
        hits(table, i, hash).len() <= subtree_size(table.len() as int, i),
    decreases beyond(table.len() as int, i),
{
    if i < table.len() {
        lemma_subtree_size(table, 2 * i + 1);
        lemma_subtree_size(table, 2 * i + 2);
        lemma_hits_size(table, 2 * i + 1, hash);
        lemma_hits_size(table, 2 * i + 2, hash);
    }
}

/// A subtree has no more nodes than the array.
proof fn lemma_subtree_at_most(n: int, i: int)
    requires
        0 <= i,
        0 <= n,
    ensures
        subtree_size(n, i) <= n,
    decreases n,
{
    if n > 0 {
        lemma_subtree_at_most(n - 1, i);
        lemma_one_more_node(n - 1, i);
    }
}

/// The hashes of a table never go down.
pub open spec fn sorted_by_hash(items: Seq<GoodbyeItem>) -> bool {
    forall|a: int, b: int| 0 <= a <= b < items.len() ==> items[a].hash <= items[b].hash
}

/// Every value of a subtree has a place in its order.
proof fn lemma_in_order_contains<T>(tree: Seq<T>, i: int, j: int) -> (k: int)
    requires
        0 <= i,
        0 <= j < tree.len(),
        in_subtree(i, j),
    ensures
        0 <= k < in_order(tree, i).len(),
        in_order(tree, i)[k] == tree[j],
    decreases beyond(tree.len() as int, i),
{
    lemma_subtree_bound(i, j);
    lemma_subtree_split(i, j);
    let (l, r) = (in_order(tree, 2 * i + 1), in_order(tree, 2 * i + 2));
    if j == i {
        assert(in_order(tree, i)[l.len() as int] == tree[i]);
        l.len() as int
    } else if in_subtree(2 * i + 1, j) {
        let k = lemma_in_order_contains(tree, 2 * i + 1, j);
        assert(in_order(tree, i)[k] == l[k]);
        k
    } else {
        let k = lemma_in_order_contains(tree, 2 * i + 2, j);
        assert(in_order(tree, i)[l.len() + 1 + k] == r[k]);
        l.len() + 1 + k
    }
}

/// Every value has a place in the order.
pub proof fn lemma_node_in_order<T>(tree: Seq<T>, j: int) -> (k: int)
    requires
        0 <= j < tree.len(),
    ensures
        0 <= k < in_order(tree, 0).len(),
        in_order(tree, 0)[k] == tree[j],
{
    lemma_whole_tree(j);
    lemma_in_order_contains(tree, 0, j)
}

/// Every value in the order of a subtree has a node.
proof fn lemma_order_has_node<T>(tree: Seq<T>, i: int, k: int) -> (j: int)
    requires
        0 <= i,
        0 <= k < in_order(tree, i).len(),
    ensures
        0 <= j < tree.len(),
        tree[j] == in_order(tree, i)[k],
    decreases beyond(tree.len() as int, i),
{
    let (l, r) = (in_order(tree, 2 * i + 1), in_order(tree, 2 * i + 2));
    let all = in_order(tree, i);
    if k < l.len() {
        assert(all[k] == l[k]);
        lemma_order_has_node(tree, 2 * i + 1, k)
    } else if k == l.len() {
        assert(all[k] == tree[i]);
        i
    } else {
        assert(all[k] == r[k - l.len() - 1]);
        lemma_order_has_node(tree, 2 * i + 2, k - l.len() - 1)
    }
}

/// Every value in the order has a node.
pub proof fn lemma_node_of<T>(tree: Seq<T>, k: int) -> (j: int)
    requires
        0 <= k < in_order(tree, 0).len(),
    ensures
        0 <= j < tree.len(),
        tree[j] == in_order(tree, 0)[k],
{
    lemma_order_has_node(tree, 0, k)
}

/// Where the hashes of a subtree are in order, those below a node are in order with it.
proof fn lemma_ordered_below(table: Seq<GoodbyeItem>, i: int, j: int)
    requires
        0 <= i,
        0 <= j < table.len(),
        in_subtree(i, j),
        sorted_by_hash(in_order(table, i)),
    ensures
        2 * j + 1 < table.len() ==> table[2 * j + 1].hash <= table[j].hash,
        2 * j + 2 < table.len() ==> table[j].hash <= table[2 * j + 2].hash,
    decreases beyond(table.len() as int, i),
{
    lemma_subtree_bound(i, j);
    lemma_subtree_split(i, j);
    let all = in_order(table, i);
    let (l, r) = (in_order(table, 2 * i + 1), in_order(table, 2 * i + 2));
    let n = l.len() as int;
    assert(all[n] == table[i]);
    assert(forall|a: int| 0 <= a < n ==> #[trigger] l[a] == all[a]);
    assert(forall|a: int| 0 <= a < r.len() ==> #[trigger] r[a] == all[n + 1 + a]);
    if j == i {
        if 2 * i + 1 < table.len() {
            let k = lemma_in_order_contains(table, 2 * i + 1, 2 * i + 1);
            assert(all[k] == table[2 * i + 1]);
        }
        if 2 * i + 2 < table.len() {
            let k = lemma_in_order_contains(table, 2 * i + 2, 2 * i + 2);
            assert(all[n + 1 + k] == table[2 * i + 2]);
        }
    } else if in_subtree(2 * i + 1, j) {
        lemma_subtree_bound(2 * i + 1, j);
        lemma_ordered_below(table, 2 * i + 1, j);
    } else {
        lemma_subtree_bound(2 * i + 2, j);
        lemma_ordered_below(table, 2 * i + 2, j);
    }
}

/// An array that holds a table in order is a search tree: the two nodes below node `j` are those at
/// `2 * j + 1`, which does not come after it, and at `2 * j + 2`, which does not come before it.
pub proof fn law_search_tree(sorted: Seq<GoodbyeItem>, j: int)
    requires
        sorted_by_hash(sorted),
        0 <= j < sorted.len(),
    ensures
        ({
            let table = tree_of(sorted);
            &&& table.len() == sorted.len()
            &&& 2 * j + 1 < table.len() ==> table[2 * j + 1].hash <= table[j].hash
            &&& 2 * j + 2 < table.len() ==> table[j].hash <= table[2 * j + 2].hash
        }),
{
    lemma_tree_exists(sorted);
    lemma_whole_tree(j);
    lemma_ordered_below(tree_of(sorted), 0, j);
}

/// A search goes down on the side where the hash has to be. Where it finds the hash, that node comes
/// first, then what is found below it on the left, then what is found on the right.
pub proof fn law_search_order(table: Seq<GoodbyeItem>, i: int, hash: u64)
    requires
        0 <= i < table.len(),
    ensures
        table[i].hash > hash ==> hits(table, i, hash) == hits(table, 2 * i + 1, hash),
        table[i].hash < hash ==> hits(table, i, hash) == hits(table, 2 * i + 2, hash),
        table[i].hash == hash ==> {
            let left = hits(table, 2 * i + 1, hash);
            let right = hits(table, 2 * i + 2, hash);
            &&& hits(table, i, hash).len() == 1 + left.len() + right.len()
            &&& hits(table, i, hash)[0] == i
            &&& hits(table, i, hash).subrange(1, 1 + left.len() as int) == left
            &&& hits(table, i, hash).skip(1 + left.len() as int) == right
        },
{
    let left = hits(table, 2 * i + 1, hash);
    let right = hits(table, 2 * i + 2, hash);
    let all = seq![i] + left + right;
    assert(all.subrange(1, 1 + left.len() as int) =~= left);
    assert(all.skip(1 + left.len() as int) =~= right);
}

/// In a table whose hashes are in order, a search finds every node with the right hash.
pub proof fn lemma_hits_complete(table: Seq<GoodbyeItem>, i: int, hash: u64, j: int)
    requires
        0 <= i,
        0 <= j < table.len(),
        in_subtree(i, j),
        table[j].hash == hash,
        sorted_by_hash(in_order(table, i)),
    ensures
        hits(table, i, hash).contains(j),
    decreases beyond(table.len() as int, i),
{
    lemma_subtree_bound(i, j);
    lemma_subtree_split(i, j);
    let (l, r) = (in_order(table, 2 * i + 1), in_order(table, 2 * i + 2));
    let all = in_order(table, i);
    let mid = l.len() as int;
    assert(all[mid] == table[i]);
    assert forall|a: int, b: int| 0 <= a <= b < l.len() implies l[a].hash <= l[b].hash by {
        assert(all[a] == l[a] && all[b] == l[b]);
    }
    assert forall|a: int, b: int| 0 <= a <= b < r.len() implies r[a].hash <= r[b].hash by {
        assert(all[mid + 1 + a] == r[a] && all[mid + 1 + b] == r[b]);
    }
    let (hl, hr) = (hits(table, 2 * i + 1, hash), hits(table, 2 * i + 2, hash));
    let found = hits(table, i, hash);
    if j == i {
        assert(found[0] == j);
    } else if in_subtree(2 * i + 1, j) {
        let k = lemma_in_order_contains(table, 2 * i + 1, j);
        assert(all[k] == l[k]);
        assert(all[k].hash <= all[mid].hash);
        lemma_hits_complete(table, 2 * i + 1, hash, j);
        let w = choose|w: int| 0 <= w < hl.len() && hl[w] == j;
        if hash == table[i].hash {
            assert(found[1 + w] == j);
        } else {
            assert(found[w] == j);
        }
    } else {
        let k = lemma_in_order_contains(table, 2 * i + 2, j);
        assert(all[mid + 1 + k] == r[k]);
        assert(all[mid].hash <= all[mid + 1 + k].hash);
        lemma_hits_complete(table, 2 * i + 2, hash, j);
        let w = choose|w: int| 0 <= w < hr.len() && hr[w] == j;
        if hash == table[i].hash {
            assert(found[1 + hl.len() + w] == j);
        } else {
            assert(found[w] == j);
        }
    }
}

/// In a table whose hashes are in order, a search from the root finds the nodes with the right
/// hash and no others.
pub proof fn lemma_search_finds_all(table: Seq<GoodbyeItem>, hash: u64, j: int)
    requires
        0 <= j < table.len(),
        sorted_by_hash(in_order(table, 0)),
    ensures
        hits(table, 0, hash).contains(j) <==> table[j].hash == hash,
{
    lemma_whole_tree(j);
    lemma_hits_sound(table, 0, hash);
    if table[j].hash == hash {
        lemma_hits_complete(table, 0, hash, j);
    }
}

} // verus!
