//! The prefix tree: an arena of nodes with parent links, child lists and
//! per-item occurrence chains, plus its header table.
use vstd::prelude::*;
use crate::itemset::{holds_all, weighted_support};
use crate::mining::{
    cut_before, lemma_pattern_base_push, lemma_pattern_base_update, lemma_weighted_support_push,
    project, tree_base,
};

verus! {

/// One occurrence of an item on a path from the root. The root has no item.
/// Links are indices into the tree's node arena.
#[derive(Debug)]
pub struct FPNode {
    pub item: Option<char>,
    pub count: usize,
    pub parent: Option<usize>,
    pub children: Vec<usize>,
    pub node_link: Option<usize>,
}

/// Per-item summary of a tree: the item's support and the first and last
/// node of its occurrence chain.
#[derive(Debug)]
pub struct HeaderTableEntry {
    pub item: char,
    pub support: usize,
    pub head: Option<usize>,
    pub tail: Option<usize>,
}

/// A prefix tree. `nodes[0]` is the root; `total` is the summed weight of the
/// paths inserted so far, and `paths` lists those paths with their weights.
pub struct FPTree {
    pub nodes: Vec<FPNode>,
    pub header_table: Vec<HeaderTableEntry>,
    pub total: usize,
    pub paths: Ghost<Seq<(Seq<char>, nat)>>,
}

/// The item of each node.
pub open spec fn items_of(nodes: Seq<FPNode>) -> Seq<Option<char>> {
    nodes.map_values(|n: FPNode| n.item)
}

/// The parent of each node.
pub open spec fn parents_of(nodes: Seq<FPNode>) -> Seq<Option<usize>> {
    nodes.map_values(|n: FPNode| n.parent)
}

/// The count of each node.
pub open spec fn counts_of(nodes: Seq<FPNode>) -> Seq<usize> {
    nodes.map_values(|n: FPNode| n.count)
}

/// The items on the path from the root down to node `n`, root excluded.
pub open spec fn label(items: Seq<Option<char>>, parents: Seq<Option<usize>>, n: int) -> Seq<char>
    decreases n,
{
    if 0 < n < items.len() && n < parents.len() && parents[n] is Some && (parents[n]->0 as int)
        < n && items[n] is Some {
        label(items, parents, parents[n]->0 as int).push(items[n]->0)
    } else {
        Seq::empty()
    }
}

/// The first node at index `from` or later that carries `x`.
pub open spec fn next_with_item(items: Seq<Option<char>>, x: char, from: int) -> Option<usize>
    decreases items.len() - from,
{
    if from < 0 || from >= items.len() {
        None
    } else if items[from] == Some(x) {
        Some(from as usize)
    } else {
        next_with_item(items, x, from + 1)
    }
}

/// Summed count of the nodes below index `k` that carry `x`.
pub open spec fn item_total(items: Seq<Option<char>>, counts: Seq<usize>, x: char, k: int) -> nat
    decreases k,
{
    if k <= 0 || k > items.len() || k > counts.len() {
        0
    } else {
        item_total(items, counts, x, k - 1) + if items[k - 1] == Some(x) {
            counts[k - 1] as nat
        } else {
            0nat
        }
    }
}

/// The items of a header table, in table order.
pub open spec fn header_items(h: Seq<HeaderTableEntry>) -> Seq<char> {
    h.map_values(|e: HeaderTableEntry| e.item)
}

/// The items of a header table with their supports, in table order.
pub open spec fn header_keys(h: Seq<HeaderTableEntry>) -> Seq<(char, usize)> {
    h.map_values(|e: HeaderTableEntry| (e.item, e.support))
}

/// The position of `x` in `keys` (its last one), or -1 when absent.
pub open spec fn key_index(keys: Seq<char>, x: char) -> int
    decreases keys.len(),
{
    if keys.len() == 0 {
        -1
    } else if keys.last() == x {
        keys.len() - 1
    } else {
        key_index(keys.drop_last(), x)
    }
}

/// The items of `l` stand in the order of their positions in `keys`.
pub open spec fn in_key_order(keys: Seq<char>, l: Seq<char>) -> bool {
    forall|a: int, b: int| 0 <= a < b < l.len() ==> key_index(keys, l[a]) < key_index(keys, l[b])
}

pub proof fn lemma_key_index(keys: Seq<char>, x: char)
    ensures
        -1 <= key_index(keys, x) < keys.len(),
        key_index(keys, x) >= 0 ==> keys[key_index(keys, x)] == x,
        keys.contains(x) <==> key_index(keys, x) >= 0,
        keys.no_duplicates() ==> forall|j: int| 0 <= j < keys.len() && keys[j] == x ==> key_index(keys, x) == j,
    decreases keys.len(),
{
    if keys.len() > 0 {
        lemma_key_index(keys.drop_last(), x);
        if keys.contains(x) && keys.last() != x {
            let j = choose|j: int| 0 <= j < keys.len() && keys[j] == x;
            assert(keys.drop_last()[j] == x);
        }
        if key_index(keys, x) >= 0 && keys.last() != x {
            assert(keys.drop_last()[key_index(keys, x)] == x);
        }
        if keys.no_duplicates() {
            assert(keys.drop_last().no_duplicates()) by {
                assert forall|a: int, b: int| 0 <= a < keys.len() - 1 && 0 <= b < keys.len() - 1 && a != b implies keys.drop_last()[a] != keys.drop_last()[b] by {
                    assert(keys.drop_last()[a] == keys[a]);
                    assert(keys.drop_last()[b] == keys[b]);
                }
            }
            assert forall|j: int| 0 <= j < keys.len() && keys[j] == x implies key_index(keys, x) == j by {
                if j < keys.len() - 1 {
                    assert(keys.drop_last()[j] == x);
                    if keys.last() == x {
                        assert(keys[keys.len() - 1] == keys[j]);
                    }
                }
            }
        }
    }
}

impl FPTree {
    /// The path of node `n`, root excluded.
    pub open spec fn label_of(&self, n: int) -> Seq<char> {
        label(items_of(self.nodes@), parents_of(self.nodes@), n)
    }

    /// Whether the header table lists `x`.
    pub open spec fn in_header(&self, x: char) -> bool {
        header_items(self.header_table@).contains(x)
    }

    /// The arena's shape: a root, parents before children, child lists that
    /// point back and hold every child, one node per path, item-distinct
    /// paths in header order, items listed in the header.
    #[verifier::opaque]
    pub open spec fn shape_wf(&self) -> bool {
        let nodes = self.nodes@;
        &&& nodes.len() >= 1
        &&& nodes[0].item is None
        &&& nodes[0].parent is None
        &&& forall|n: int|
            0 < n < nodes.len() ==> {
                &&& (#[trigger] nodes[n]).item is Some
                &&& nodes[n].parent is Some
                &&& (nodes[n].parent->0 as int) < n
                &&& self.in_header(nodes[n].item->0)
                &&& nodes[nodes[n].parent->0 as int].children@.contains(n as usize)
            }
        &&& forall|n1: int, n2: int|
            0 <= n1 < nodes.len() && 0 <= n2 < nodes.len() && n1 != n2 ==> #[trigger] self.label_of(n1)
                != #[trigger] self.label_of(n2)
        &&& forall|n: int, j: int|
            0 <= n < nodes.len() && 0 <= j < nodes[n].children.len() ==> {
                &&& 0 < (#[trigger] nodes[n].children@[j]) < nodes.len()
                &&& nodes[nodes[n].children@[j] as int].parent == Some(n as usize)
            }
        &&& forall|n: int| 0 <= n < nodes.len() ==> (#[trigger] self.label_of(n)).no_duplicates()
        &&& forall|n: int| 0 <= n < nodes.len() ==> in_key_order(header_items(self.header_table@), #[trigger] self.label_of(n))
        &&& header_items(self.header_table@).no_duplicates()
    }

    /// Each header entry and each node link follow the occurrence chain of
    /// the item: all nodes carrying it, in the order they were created.
    #[verifier::opaque]
    pub open spec fn chain_wf(&self) -> bool {
        let items = items_of(self.nodes@);
        &&& forall|h: int|
            0 <= h < self.header_table@.len() ==> {
                let e = #[trigger] self.header_table@[h];
                &&& e.head == next_with_item(items, e.item, 0)
                &&& e.tail is None <==> e.head is None
                &&& e.tail is Some ==> {
                    &&& (e.tail->0 as int) < items.len()
                    &&& items[e.tail->0 as int] == Some(e.item)
                    &&& next_with_item(items, e.item, e.tail->0 + 1) is None
                }
            }
        &&& forall|n: int|
            0 < n < self.nodes@.len() ==> (#[trigger] self.nodes@[n]).node_link == next_with_item(
                items,
                self.nodes@[n].item->0,
                n + 1,
            )
    }

    /// The counts of the nodes of any one item add up to at most `total`.
    pub open spec fn count_wf(&self) -> bool {
        forall|x: char|
            #[trigger] item_total(items_of(self.nodes@), counts_of(self.nodes@), x, self.nodes@.len() as int)
                <= self.total
    }

    /// For every item and every non-empty itemset, the conditional pattern
    /// base of the item has the same weighted support as the inserted paths
    /// that hold the item, cut just before it.
    /// Each inserted path lists distinct header items in header order; the
    /// counts of the nodes of an item (its occurrence chain) add up to the
    /// weight of the inserted paths that hold it; each node's count is the
    /// weight of the inserted paths that start with its path; every
    /// non-empty prefix of an inserted path is the path of some node; and
    /// every node but the root lies on some inserted path.
    #[verifier::opaque]
    pub open spec fn base_wf(&self) -> bool {
        &&& forall|y: char, s: Seq<char>|
            s.len() > 0 ==> #[trigger] weighted_support(tree_base(*self, y), s) == weighted_support(
                project(self.paths@, y),
                s,
            )
        &&& forall|j: int|
            0 <= j < self.paths@.len() ==> (#[trigger] self.paths@[j]).0.no_duplicates() && in_key_order(
                header_items(self.header_table@),
                self.paths@[j].0,
            )
        &&& forall|y: char|
            #[trigger] item_total(items_of(self.nodes@), counts_of(self.nodes@), y, self.nodes@.len() as int)
                == weighted_support(self.paths@, seq![y])
        &&& forall|n: int|
            0 < n < self.nodes@.len() ==> (#[trigger] self.nodes@[n]).count as nat == prefix_weight(
                self.paths@,
                self.label_of(n),
            )
        &&& forall|j: int, k: int|
            0 <= j < self.paths@.len() && 0 < k <= self.paths@[j].0.len() ==> #[trigger] self.holds_path(
                self.paths@[j].0.take(k),
            )
        &&& forall|n: int| 0 < n < self.nodes@.len() ==> on_some_path(self.paths@, #[trigger] self.label_of(n))
    }

    pub open spec fn wf(&self) -> bool {
        &&& self.shape_wf()
        &&& self.chain_wf()
        &&& self.count_wf()
        &&& self.base_wf()
    }
}

pub proof fn lemma_label_push(
    items: Seq<Option<char>>,
    parents: Seq<Option<usize>>,
    y: char,
    p: usize,
    n: int,
)
    requires
        items.len() == parents.len(),
        0 <= n < items.len(),
    ensures
        label(items.push(Some(y)), parents.push(Some(p)), n) == label(items, parents, n),
    decreases n,
{
    let items2 = items.push(Some(y));
    let parents2 = parents.push(Some(p));
    assert(items2[n] == items[n]);
    assert(parents2[n] == parents[n]);
    if 0 < n && parents[n] is Some && (parents[n]->0 as int) < n && items[n] is Some {
        lemma_label_push(items, parents, y, p, parents[n]->0 as int);
    }
}

pub proof fn lemma_next_facts(items: Seq<Option<char>>, x: char, from: int)
    requires
        0 <= from,
        items.len() <= usize::MAX,
    ensures
        match next_with_item(items, x, from) {
            Some(j) => {
                &&& from <= j < items.len()
                &&& items[j as int] == Some(x)
                &&& forall|m: int| from <= m < j ==> items[m] != Some(x)
            },
            None => forall|m: int| from <= m < items.len() ==> items[m] != Some(x),
        },
    decreases items.len() - from,
{
    if from < items.len() && items[from] != Some(x) {
        lemma_next_facts(items, x, from + 1);
        match next_with_item(items, x, from + 1) {
            Some(j) => {
                assert(next_with_item(items, x, from) == Some(j));
                assert forall|m: int| from <= m < j implies items[m] != Some(x) by {
                    if m > from {
                    }
                }
            },
            None => {
                assert forall|m: int| from <= m < items.len() implies items[m] != Some(x) by {
                    if m > from {
                    }
                }
            },
        }
    }
}

pub proof fn lemma_next_push(items: Seq<Option<char>>, x: char, y: char, from: int)
    requires
        0 <= from <= items.len(),
        items.len() < usize::MAX,
    ensures
        next_with_item(items.push(Some(y)), x, from) == if x == y && next_with_item(
            items,
            x,
            from,
        ) is None {
            Some(items.len() as usize)
        } else {
            next_with_item(items, x, from)
        },
    decreases items.len() - from,
{
    let items2 = items.push(Some(y));
    if from < items.len() {
        assert(items2[from] == items[from]);
        lemma_next_push(items, x, y, from + 1);
    } else {
        assert(items2[from] == Some(y));
        assert(next_with_item(items2, x, from + 1) is None);
    }
}

pub proof fn lemma_item_total_push(
    items: Seq<Option<char>>,
    counts: Seq<usize>,
    x: char,
    y: char,
    c: usize,
    k: int,
)
    requires
        items.len() == counts.len(),
        0 <= k <= items.len() + 1,
    ensures
        k <= items.len() ==> item_total(items.push(Some(y)), counts.push(c), x, k) == item_total(
            items,
            counts,
            x,
            k,
        ),
        k == items.len() + 1 ==> item_total(items.push(Some(y)), counts.push(c), x, k)
            == item_total(items, counts, x, k - 1) + if x == y { c as nat } else { 0nat },
    decreases k,
{
    if k > 0 {
        lemma_item_total_push(items, counts, x, y, c, k - 1);
        assert(items.push(Some(y))[k - 1] == if k - 1 < items.len() { items[k - 1] } else { Some(y) });
        assert(counts.push(c)[k - 1] == if k - 1 < items.len() { counts[k - 1] } else { c });
    }
}

pub proof fn lemma_item_total_update(
    items: Seq<Option<char>>,
    counts: Seq<usize>,
    j: int,
    v: usize,
    x: char,
    k: int,
)
    requires
        items.len() == counts.len(),
        0 <= j < items.len(),
        0 <= k <= items.len(),
    ensures
        item_total(items, counts.update(j, v), x, k) + if k > j && items[j] == Some(x) {
            counts[j] as int
        } else {
            0int
        } == item_total(items, counts, x, k) + if k > j && items[j] == Some(x) {
            v as int
        } else {
            0int
        },
    decreases k,
{
    if k > 0 {
        lemma_item_total_update(items, counts, j, v, x, k - 1);
    }
}

pub proof fn lemma_count_le_item_total(
    items: Seq<Option<char>>,
    counts: Seq<usize>,
    x: char,
    n: int,
    k: int,
)
    requires
        items.len() == counts.len(),
        0 <= n < k <= items.len(),
        items[n] == Some(x),
    ensures
        counts[n] <= item_total(items, counts, x, k),
    decreases k,
{
    if n < k - 1 {
        lemma_count_le_item_total(items, counts, x, n, k - 1);
    }
}

/// A tree made of its root alone, with empty chains, is well formed.
proof fn lemma_root_only(t: &FPTree)
    requires
        t.nodes@.len() == 1,
        t.nodes@[0].item is None,
        t.nodes@[0].parent is None,
        t.nodes@[0].children@.len() == 0,
        header_items(t.header_table@).no_duplicates(),
        forall|h: int|
            0 <= h < t.header_table@.len() ==> (#[trigger] t.header_table@[h]).head is None
                && t.header_table@[h].tail is None,
        t.paths@.len() == 0,
    ensures
        t.wf(),
{
    reveal(FPTree::shape_wf);
    reveal(FPTree::chain_wf);
    reveal(FPTree::base_wf);
    assert forall|y: char, s: Seq<char>| s.len() > 0 implies #[trigger] weighted_support(tree_base(*t, y), s)
        == weighted_support(project(t.paths@, y), s) by {
        let items = items_of(t.nodes@);
        assert(items[0] is None);
        assert(counts_of(t.nodes@).len() == 1);
        assert(crate::mining::pattern_base(items, parents_of(t.nodes@), counts_of(t.nodes@), y, 0).len() == 0);
        assert(tree_base(*t, y).len() == 0);
    }
    assert(t.label_of(0) =~= Seq::<char>::empty());
    let items = items_of(t.nodes@);
    assert(items[0] is None);
    assert forall|x: char| next_with_item(items, x, 0) is None by {
        assert(next_with_item(items, x, 1) is None);
    }
    assert forall|x: char|
        #[trigger] item_total(items, counts_of(t.nodes@), x, 1) <= t.total by {
        assert(item_total(items, counts_of(t.nodes@), x, 0) == 0);
    }
    assert forall|x: char|
        #[trigger] item_total(items, counts_of(t.nodes@), x, 1) == weighted_support(t.paths@, seq![x]) by {
        assert(item_total(items, counts_of(t.nodes@), x, 0) == 0);
    }
}

/// Appending a child `c` of `cur` for `x` keeps every node in its parent's
/// child list and keeps paths unique, when no node had the new path.
proof fn lemma_append_shape(a: FPTree, b: FPTree, cur: usize, x: char)
    requires
        a.shape_wf(),
        cur < a.nodes@.len(),
        b.nodes@.len() == a.nodes@.len() + 1,
        items_of(b.nodes@) == items_of(a.nodes@).push(Some(x)),
        parents_of(b.nodes@) == parents_of(a.nodes@).push(Some(cur)),
        forall|n: int| 0 <= n < a.nodes@.len() && n != cur ==> (#[trigger] b.nodes@[n]).children@ == a.nodes@[n].children@,
        b.nodes@[cur as int].children@ == a.nodes@[cur as int].children@.push(a.nodes@.len() as usize),
        forall|m: int| 0 <= m < a.nodes@.len() ==> #[trigger] a.label_of(m) != a.label_of(cur as int).push(x),
    ensures
        forall|n: int| 0 < n < b.nodes@.len() ==> b.nodes@[b.nodes@[n].parent->0 as int].children@.contains(n as usize),
        forall|n1: int, n2: int|
            0 <= n1 < b.nodes@.len() && 0 <= n2 < b.nodes@.len() && n1 != n2 ==> #[trigger] b.label_of(n1)
                != #[trigger] b.label_of(n2),
{
    reveal(FPTree::shape_wf);
    let c = a.nodes@.len() as int;
    let oi = items_of(a.nodes@);
    let op = parents_of(a.nodes@);
    assert forall|n: int| 0 <= n < c implies #[trigger] b.label_of(n) == a.label_of(n) by {
        lemma_label_push(oi, op, x, cur, n);
    }
    assert(b.label_of(c) == b.label_of(cur as int).push(x)) by {
        assert(items_of(b.nodes@)[c] == Some(x));
        assert(parents_of(b.nodes@)[c] == Some(cur));
    }
    assert forall|n: int| 0 < n < b.nodes@.len() implies b.nodes@[b.nodes@[n].parent->0 as int].children@.contains(n as usize) by {
        assert(parents_of(b.nodes@)[n] == b.nodes@[n].parent);
        if n < c {
            assert(op[n] == a.nodes@[n].parent);
            assert(oi[n] == a.nodes@[n].item);
            assert(a.nodes@[n] == a.nodes@[n]);
            assert(a.nodes@[a.nodes@[n].parent->0 as int].children@.contains(n as usize));
            let p = a.nodes@[n].parent->0 as int;
            let q = choose|q: int| 0 <= q < a.nodes@[p].children@.len() && a.nodes@[p].children@[q] == n as usize;
            if p == cur {
                assert(b.nodes@[p].children@[q] == n as usize);
            } else {
                assert(b.nodes@[p].children@ == a.nodes@[p].children@);
                assert(b.nodes@[p].children@[q] == n as usize);
            }
        } else {
            assert(b.nodes@[cur as int].children@[b.nodes@[cur as int].children@.len() - 1] == c as usize);
        }
    }
    assert forall|n1: int, n2: int|
        0 <= n1 < b.nodes@.len() && 0 <= n2 < b.nodes@.len() && n1 != n2 implies #[trigger] b.label_of(n1)
            != #[trigger] b.label_of(n2) by {
        if n1 < c && n2 < c {
            assert(a.label_of(n1) != a.label_of(n2));
        } else if n1 < c {
            assert(a.label_of(n1) != a.label_of(cur as int).push(x));
        } else {
            assert(a.label_of(n2) != a.label_of(cur as int).push(x));
        }
    }
}

proof fn lemma_shape_basics(t: FPTree)
    requires
        t.shape_wf(),
    ensures
        header_items(t.header_table@).no_duplicates(),
        t.nodes@.len() >= 1,
        t.nodes@[0].item is None,
        forall|n1: int, n2: int|
            0 <= n1 < t.nodes@.len() && 0 <= n2 < t.nodes@.len() && n1 != n2 ==> #[trigger] t.label_of(n1)
                != #[trigger] t.label_of(n2),
        forall|n: int|
            0 < n < t.nodes@.len() ==> {
                &&& (#[trigger] t.nodes@[n]).item is Some
                &&& t.nodes@[n].parent is Some
                &&& (t.nodes@[n].parent->0 as int) < n
                &&& t.in_header(t.nodes@[n].item->0)
            },
{
    reveal(FPTree::shape_wf);
}

/// Some path of `paths` starts with `q`.
pub open spec fn on_some_path(paths: Seq<(Seq<char>, nat)>, q: Seq<char>) -> bool {
    exists|j: int| 0 <= j < paths.len() && is_prefix(q, #[trigger] paths[j].0)
}

/// Summed weight of the paths of `paths` that start with `q`.
pub open spec fn prefix_weight(paths: Seq<(Seq<char>, nat)>, q: Seq<char>) -> nat
    decreases paths.len(),
{
    if paths.len() == 0 {
        0
    } else {
        prefix_weight(paths.drop_last(), q) + if is_prefix(q, paths.last().0) { paths.last().1 } else { 0nat }
    }
}

/// A non-empty path that no node of `t` has starts none of the paths whose
/// prefixes all are paths of nodes of `t`.
proof fn lemma_prefix_weight_zero(t: FPTree, paths: Seq<(Seq<char>, nat)>, q: Seq<char>)
    requires
        q.len() > 0,
        forall|n: int| 0 <= n < t.nodes@.len() ==> #[trigger] t.label_of(n) != q,
        forall|j: int, k: int|
            0 <= j < paths.len() && 0 < k <= paths[j].0.len() ==> #[trigger] t.holds_path(paths[j].0.take(k)),
    ensures
        prefix_weight(paths, q) == 0,
    decreases paths.len(),
{
    if paths.len() > 0 {
        let d = paths.drop_last();
        assert forall|j: int, k: int| 0 <= j < d.len() && 0 < k <= d[j].0.len() implies #[trigger] t.holds_path(d[j].0.take(k)) by {
            assert(d[j] == paths[j]);
        }
        lemma_prefix_weight_zero(t, d, q);
        let p = paths.last().0;
        if is_prefix(q, p) {
            assert(paths[paths.len() - 1] == paths.last());
            assert(t.holds_path(paths[paths.len() - 1].0.take(q.len() as int)));
        }
    }
}

/// `l` is a prefix of `t`.
pub open spec fn is_prefix(l: Seq<char>, t: Seq<char>) -> bool {
    l.len() <= t.len() && t.take(l.len() as int) == l
}

proof fn lemma_prefix_step(l: Seq<char>, t: Seq<char>, i: int)
    requires
        0 <= i < t.len(),
    ensures
        is_prefix(l, t.take(i + 1)) <==> is_prefix(l, t.take(i)) || l == t.take(i + 1),
        is_prefix(l, t.take(i)) ==> l != t.take(i + 1),
{
    if l.len() <= i {
        assert(t.take(i + 1).take(l.len() as int) =~= t.take(i).take(l.len() as int));
    }
    if l.len() == i + 1 {
        assert(t.take(i + 1).take(l.len() as int) =~= t.take(i + 1));
    }
}

/// A node has at most one child per item: two children of `n` that carry the
/// same item are the same node.
pub proof fn lemma_one_child_per_item(t: FPTree, n: usize, j1: int, j2: int)
    requires
        t.shape_wf(),
        0 <= n < t.nodes@.len(),
        0 <= j1 < t.nodes@[n as int].children@.len(),
        0 <= j2 < t.nodes@[n as int].children@.len(),
        t.nodes@[t.nodes@[n as int].children@[j1] as int].item == t.nodes@[t.nodes@[n as int].children@[j2] as int].item,
    ensures
        t.nodes@[n as int].children@[j1] == t.nodes@[n as int].children@[j2],
{
    reveal(FPTree::shape_wf);
    let c1 = t.nodes@[n as int].children@[j1] as int;
    let c2 = t.nodes@[n as int].children@[j2] as int;
    assert(0 < c1 < t.nodes@.len());
    assert(0 < c2 < t.nodes@.len());
    assert(items_of(t.nodes@)[c1] == t.nodes@[c1].item);
    assert(items_of(t.nodes@)[c2] == t.nodes@[c2].item);
    assert(parents_of(t.nodes@)[c1] == t.nodes@[c1].parent);
    assert(parents_of(t.nodes@)[c2] == t.nodes@[c2].parent);
    assert(t.nodes@[c1].parent == Some(n));
    assert(t.nodes@[c2].parent == Some(n));
    assert(t.nodes@[c1].item is Some && (t.nodes@[c1].parent->0 as int) < c1);
    assert(t.nodes@[c2].item is Some && (t.nodes@[c2].parent->0 as int) < c2);
    assert(items_of(t.nodes@).len() == t.nodes@.len() && parents_of(t.nodes@).len() == t.nodes@.len());
    assert(t.label_of(c1) == t.label_of(n as int).push(t.nodes@[c1].item->0));
    assert(t.label_of(c2) == t.label_of(n as int).push(t.nodes@[c2].item->0));
    if c1 != c2 {
        assert(t.label_of(c1) != t.label_of(c2));
    }
}

/// The shape and chains of a tree do not depend on its total.
proof fn lemma_wf_frame(a: &FPTree, b: &FPTree)
    requires
        a.nodes@ == b.nodes@,
        a.header_table@ == b.header_table@,
        a.shape_wf(),
        a.chain_wf(),
    ensures
        b.shape_wf(),
        b.chain_wf(),
{
    reveal(FPTree::shape_wf);
    reveal(FPTree::chain_wf);
    assert forall|n: int| 0 <= n < b.nodes@.len() implies (#[trigger] b.label_of(n)).no_duplicates() by {
        assert(a.label_of(n) == b.label_of(n));
    }
    assert forall|n: int| 0 <= n < b.nodes@.len() implies in_key_order(header_items(b.header_table@), #[trigger] b.label_of(n)) by {
        assert(a.label_of(n) == b.label_of(n));
    }
    assert forall|n1: int, n2: int|
        0 <= n1 < b.nodes@.len() && 0 <= n2 < b.nodes@.len() && n1 != n2 implies #[trigger] b.label_of(n1)
            != #[trigger] b.label_of(n2) by {
        assert(a.label_of(n1) != a.label_of(n2));
    }
}

impl FPNode {
    /// A node for `item` below `parent`, with count zero, no children and no
    /// next occurrence.
    pub fn new(item: Option<char>, parent: Option<usize>) -> (r: FPNode)
        ensures
            r.item == item,
            r.parent == parent,
            r.count == 0,
            r.children@.len() == 0,
            r.node_link is None,
    {
        FPNode { item, count: 0, parent, children: Vec::new(), node_link: None }
    }

    /// Adds `count` to the node's count.
    pub fn increment(&mut self, count: usize)
        requires
            old(self).count + count <= usize::MAX,
        ensures
            final(self).count == old(self).count + count,
            final(self).item == old(self).item,
            final(self).parent == old(self).parent,
            final(self).children == old(self).children,
            final(self).node_link == old(self).node_link,
    {
        self.count = self.count + count;
    }
}

impl HeaderTableEntry {
    /// An entry for `item` with the given support and an empty chain.
    pub fn new(item: char, support: usize) -> (r: HeaderTableEntry)
        ensures
            r.item == item,
            r.support == support,
            r.head is None,
            r.tail is None,
    {
        HeaderTableEntry { item, support, head: None, tail: None }
    }
}

impl FPTree {
    /// A tree with only its root and an empty header table.
    pub fn new() -> (r: FPTree)
        ensures
            r.wf(),
            r.nodes@.len() == 1,
            r.nodes@[0].item is None,
            r.nodes@[0].parent is None,
            r.nodes@[0].children@.len() == 0,
            r.nodes@[0].count == 0,
            r.nodes@[0].node_link is None,
            r.header_table@.len() == 0,
            r.total == 0,
            r.paths@.len() == 0,
    {
        let mut nodes: Vec<FPNode> = Vec::new();
        nodes.push(FPNode::new(None, None));
        let r = FPTree { nodes, header_table: Vec::new(), total: 0, paths: Ghost(Seq::empty()) };
        proof {
            lemma_root_only(&r);
        }
        r
    }

    /// A tree with only its root, whose header table lists `keys` in order,
    /// each with an empty chain.
    pub fn with_header(keys: &Vec<(char, usize)>) -> (r: FPTree)
        requires
            forall|i: int, j: int| 0 <= i < j < keys@.len() ==> keys@[i].0 != keys@[j].0,
        ensures
            r.wf(),
            r.nodes@.len() == 1,
            header_keys(r.header_table@) == keys@,
            r.total == 0,
            r.paths@.len() == 0,
    {
        let mut r = FPTree::new();
        let mut i: usize = 0;
        while i < keys.len()
            invariant
                0 <= i <= keys.len(),
                r.nodes@.len() == 1,
                r.nodes@[0].item is None,
                r.nodes@[0].parent is None,
                r.nodes@[0].children@.len() == 0,
                r.total == 0,
                r.paths@.len() == 0,
                header_keys(r.header_table@) =~= keys@.take(i as int),
                forall|h: int|
                    0 <= h < r.header_table@.len() ==> (#[trigger] r.header_table@[h]).head is None
                        && r.header_table@[h].tail is None,
            decreases keys.len() - i,
        {
            let ghost before = r.header_table@;
            r.header_table.push(HeaderTableEntry::new(keys[i].0, keys[i].1));
            assert(header_keys(r.header_table@) =~= header_keys(before).push(keys@[i as int]));
            assert(keys@.take(i + 1) =~= keys@.take(i as int).push(keys@[i as int]));
            i = i + 1;
        }
        proof {
            assert(keys@.take(i as int) =~= keys@);
            let hi = header_items(r.header_table@);
            assert forall|a: int, b: int| 0 <= a < hi.len() && 0 <= b < hi.len() && a != b implies hi[a]
                != hi[b] by {
                assert(hi[a] == keys@[a].0);
                assert(hi[b] == keys@[b].0);
            }
            lemma_root_only(&r);
        }
        r
    }

    /// The header-table position of `x`.
    fn header_index(&self, x: char) -> (h: usize)
        requires
            self.in_header(x),
        ensures
            h < self.header_table@.len(),
            self.header_table@[h as int].item == x,
    {
        let mut h: usize = 0;
        while h < self.header_table.len()
            invariant
                self.in_header(x),
                forall|k: int| 0 <= k < h ==> (#[trigger] self.header_table@[k]).item != x,
            decreases self.header_table.len() - h,
        {
            if self.header_table[h].item == x {
                return h;
            }
            h = h + 1;
        }
        proof {
            let k = choose|k: int| 0 <= k < header_items(self.header_table@).len()
                && header_items(self.header_table@)[k] == x;
            assert(self.header_table@[k].item == x);
        }
        0
    }

    /// Creates a child of `cur` for `x` with count `count` at the end of the
    /// arena, and appends it to the occurrence chain of `x`.
    #[verifier::rlimit(100)]
    #[verifier::spinoff_prover]
    fn append_node(&mut self, cur: usize, x: char, count: usize) -> (c: usize)
        requires
            old(self).shape_wf(),
            old(self).chain_wf(),
            cur < old(self).nodes@.len(),
            old(self).in_header(x),
            !old(self).label_of(cur as int).contains(x),
            forall|j: int| 0 <= j < old(self).label_of(cur as int).len() ==> key_index(header_items(old(self).header_table@), #[trigger] old(self).label_of(cur as int)[j])
                < key_index(header_items(old(self).header_table@), x),
            forall|m: int| 0 <= m < old(self).nodes@.len() ==> #[trigger] old(self).label_of(m) != old(self).label_of(cur as int).push(x),
        ensures
            final(self).shape_wf(),
            final(self).chain_wf(),
            c == old(self).nodes@.len(),
            items_of(final(self).nodes@) == items_of(old(self).nodes@).push(Some(x)),
            parents_of(final(self).nodes@) == parents_of(old(self).nodes@).push(Some(cur)),
            counts_of(final(self).nodes@) == counts_of(old(self).nodes@).push(count),
            header_keys(final(self).header_table@) == header_keys(old(self).header_table@),
            final(self).label_of(c as int) == old(self).label_of(cur as int).push(x),
            final(self).total == old(self).total,
            final(self).paths == old(self).paths,
    {
        let ghost old_nodes = self.nodes@;
        let ghost old_header = self.header_table@;
        let ghost oi = items_of(old_nodes);
        let ghost op = parents_of(old_nodes);
        let h = self.header_index(x);
        let c = self.nodes.len();
        self.nodes.push(FPNode { item: Some(x), count, parent: Some(cur), children: Vec::new(), node_link: None });
        let len_after = self.nodes.len();
        assert(len_after == c + 1);
        self.nodes[cur].children.push(c);
        let old_tail = self.header_table[h].tail;
        proof {
            reveal(FPTree::chain_wf);
            assert(old_header[h as int] == self.header_table@[h as int]);
            if old_tail is Some {
                assert((old_tail->0 as int) < c);
            }
        }
        match old_tail {
            Some(t) => {
                self.nodes[t].node_link = Some(c);
                self.header_table[h].tail = Some(c);
            },
            None => {
                self.header_table[h].head = Some(c);
                self.header_table[h].tail = Some(c);
            },
        }
        proof {
            let nodes = self.nodes@;
            let ni = items_of(nodes);
            let np = parents_of(nodes);
            assert(ni =~= oi.push(Some(x)));
            assert(np =~= op.push(Some(cur)));
            assert forall|n: int| 0 <= n < c && n != cur implies (#[trigger] nodes[n]).children@ == old_nodes[n].children@ by {
            }
            lemma_append_shape(*old(self), *self, cur, x);
            assert(counts_of(nodes) =~= counts_of(old_nodes).push(count));
            assert(header_keys(self.header_table@) =~= header_keys(old_header));
            assert(header_items(self.header_table@) =~= header_items(old_header));
            assert forall|n: int| 0 <= n < c implies label(ni, np, n) == label(oi, op, n) by {
                lemma_label_push(oi, op, x, cur, n);
            }
            assert(label(ni, np, c as int) == label(ni, np, cur as int).push(x));
            assert(label(ni, np, c as int) == label(oi, op, cur as int).push(x));
            assert(self.shape_wf()) by {
                reveal(FPTree::shape_wf);
            assert forall|n: int| 0 < n < nodes.len() implies {
                &&& (#[trigger] nodes[n]).item is Some
                &&& nodes[n].parent is Some
                &&& (nodes[n].parent->0 as int) < n
                &&& self.in_header(nodes[n].item->0)
            } by {
                assert(ni[n] == nodes[n].item);
                assert(np[n] == nodes[n].parent);
                if n < c {
                    assert(oi[n] == old_nodes[n].item);
                    assert(op[n] == old_nodes[n].parent);
                }
            }
            assert forall|n: int, j: int| 0 <= n < nodes.len() && 0 <= j < nodes[n].children.len() implies {
                &&& 0 < (#[trigger] nodes[n].children@[j]) < nodes.len()
                &&& nodes[nodes[n].children@[j] as int].parent == Some(n as usize)
            } by {
                let ch = nodes[n].children@[j];
                if n == cur && j == nodes[n].children.len() - 1 {
                    assert(ch == c);
                    assert(np[c as int] == nodes[c as int].parent);
                } else {
                    assert(n < c);
                    assert(ch == old_nodes[n].children@[j]);
                    assert(np[ch as int] == nodes[ch as int].parent);
                    assert(op[ch as int] == old_nodes[ch as int].parent);
                }
            }
            assert forall|n: int| 0 <= n < nodes.len() implies in_key_order(header_items(self.header_table@), #[trigger] self.label_of(n)) by {
                let keys = header_items(self.header_table@);
                if n < c {
                    assert(in_key_order(keys, old(self).label_of(n)));
                } else {
                    let l = label(oi, op, cur as int);
                    assert(in_key_order(keys, l));
                    assert(label(ni, np, n) =~= l.push(x));
                    assert forall|a: int, b: int| 0 <= a < b < l.len() + 1 implies key_index(keys, l.push(x)[a]) < key_index(keys, l.push(x)[b]) by {
                        assert(l.push(x)[a] == l[a]);
                        if b < l.len() {
                            assert(l.push(x)[b] == l[b]);
                        }
                    }
                }
            }
            assert forall|n: int| 0 <= n < nodes.len() implies (#[trigger] self.label_of(n)).no_duplicates() by {
                if n < c {
                    assert(old(self).label_of(n).no_duplicates());
                } else {
                    let l = label(oi, op, cur as int);
                    assert(l.no_duplicates());
                    assert(label(ni, np, n) =~= l.push(x));
                    assert forall|a: int, b: int| 0 <= a < b < l.len() + 1 implies l.push(x)[a] != l.push(x)[b] by {
                        if b == l.len() {
                            assert(l.push(x)[a] == l[a]);
                            assert(l.contains(l[a]));
                        }
                    }
                }
            }
            }
            lemma_shape_basics(*old(self));
            assert(self.chain_wf()) by {
                reveal(FPTree::chain_wf);
            lemma_next_facts(oi, x, 0);
            assert forall|g: int| 0 <= g < self.header_table@.len() implies {
                let e = #[trigger] self.header_table@[g];
                &&& e.head == next_with_item(ni, e.item, 0)
                &&& e.tail is None <==> e.head is None
                &&& e.tail is Some ==> {
                    &&& (e.tail->0 as int) < ni.len()
                    &&& ni[e.tail->0 as int] == Some(e.item)
                    &&& next_with_item(ni, e.item, e.tail->0 + 1) is None
                }
            } by {
                let e = self.header_table@[g];
                let oe = old_header[g];
                assert(header_items(old_header)[g] == oe.item);
                lemma_next_push(oi, e.item, x, 0);
                if g != h {
                    assert(header_items(old_header)[h as int] == x);
                    assert(e == oe);
                    if oe.tail is Some {
                        lemma_next_push(oi, e.item, x, oe.tail->0 + 1);
                    }
                } else {
                    assert(next_with_item(ni, x, c + 1) is None);
                }
            }
            assert forall|n: int| 0 < n < nodes.len() implies (#[trigger] nodes[n]).node_link
                == next_with_item(ni, nodes[n].item->0, n + 1) by {
                assert(ni[n] == nodes[n].item);
                if n < c {
                    let y = old_nodes[n].item->0;
                    assert(oi[n] == old_nodes[n].item);
                    lemma_next_push(oi, y, x, n + 1);
                    if y == x {
                        match old_tail {
                            Some(t) => {
                                lemma_next_facts(oi, x, t + 1);
                                if n != t {
                                    lemma_next_facts(oi, x, n + 1);
                                    assert(n < t);
                                }
                            },
                            None => {},
                        }
                    }
                }
            }
            }
        }
        c
    }

    /// Sets the count of node `n` to `v`; nothing else changes.
    fn set_count(&mut self, n: usize, v: usize)
        requires
            old(self).shape_wf(),
            old(self).chain_wf(),
            n < old(self).nodes@.len(),
        ensures
            final(self).shape_wf(),
            final(self).chain_wf(),
            items_of(final(self).nodes@) == items_of(old(self).nodes@),
            parents_of(final(self).nodes@) == parents_of(old(self).nodes@),
            counts_of(final(self).nodes@) == counts_of(old(self).nodes@).update(n as int, v),
            final(self).header_table == old(self).header_table,
            final(self).total == old(self).total,
            final(self).paths == old(self).paths,
    {
        let ghost old_nodes = self.nodes@;
        self.nodes[n].count = v;
        proof {
            reveal(FPTree::shape_wf);
            reveal(FPTree::chain_wf);
            let nodes = self.nodes@;
            assert(items_of(nodes) =~= items_of(old_nodes));
            assert(parents_of(nodes) =~= parents_of(old_nodes));
            assert(counts_of(nodes) =~= counts_of(old_nodes).update(n as int, v));
            assert forall|k: int| 0 <= k < nodes.len() implies (#[trigger] self.label_of(k)).no_duplicates() by {
                assert(old(self).label_of(k).no_duplicates());
            }
            assert forall|k: int| 0 <= k < nodes.len() implies in_key_order(header_items(self.header_table@), #[trigger] self.label_of(k)) by {
                assert(in_key_order(header_items(self.header_table@), old(self).label_of(k)));
            }
            assert forall|k: int, j: int| 0 <= k < nodes.len() && 0 <= j < nodes[k].children.len() implies {
                &&& 0 < (#[trigger] nodes[k].children@[j]) < nodes.len()
                &&& nodes[nodes[k].children@[j] as int].parent == Some(k as usize)
            } by {
                assert(old_nodes[k].children@[j] == nodes[k].children@[j]);
                let ch = nodes[k].children@[j] as int;
                assert(old_nodes[ch].parent == nodes[ch].parent);
            }
            assert forall|k: int| 0 < k < nodes.len() implies (#[trigger] nodes[k]).node_link
                == next_with_item(items_of(nodes), nodes[k].item->0, k + 1) by {
                assert(old_nodes[k].node_link == nodes[k].node_link);
                assert(old_nodes[k].item == nodes[k].item);
            }
            assert forall|k: int| 0 < k < nodes.len() implies {
                &&& (#[trigger] nodes[k]).item is Some
                &&& nodes[k].parent is Some
                &&& (nodes[k].parent->0 as int) < k
                &&& self.in_header(nodes[k].item->0)
                &&& nodes[nodes[k].parent->0 as int].children@.contains(k as usize)
            } by {
                assert(old_nodes[k].item == nodes[k].item);
                assert(old_nodes[k].parent == nodes[k].parent);
                let p = nodes[k].parent->0 as int;
                assert(old_nodes[p].children == nodes[p].children);
            }
            assert forall|n1: int, n2: int|
                0 <= n1 < nodes.len() && 0 <= n2 < nodes.len() && n1 != n2 implies #[trigger] self.label_of(n1)
                    != #[trigger] self.label_of(n2) by {
                assert(old(self).label_of(n1) != old(self).label_of(n2));
            }
        }
    }

    /// Moves one step down from `cur` along item `x`: reuses the child of
    /// `cur` that carries `x`, or creates it, and adds `count` to it.
    fn extend_path(&mut self, cur: usize, x: char, count: usize) -> (next: usize)
        requires
            old(self).shape_wf(),
            old(self).chain_wf(),
            cur < old(self).nodes@.len(),
            old(self).in_header(x),
            !old(self).label_of(cur as int).contains(x),
            forall|j: int| 0 <= j < old(self).label_of(cur as int).len() ==> key_index(header_items(old(self).header_table@), #[trigger] old(self).label_of(cur as int)[j])
                < key_index(header_items(old(self).header_table@), x),
            item_total(items_of(old(self).nodes@), counts_of(old(self).nodes@), x, old(self).nodes@.len() as int)
                + count <= usize::MAX,
        ensures
            final(self).shape_wf(),
            final(self).chain_wf(),
            next < final(self).nodes@.len(),
            final(self).label_of(next as int) == old(self).label_of(cur as int).push(x),
            header_keys(final(self).header_table@) == header_keys(old(self).header_table@),
            final(self).total == old(self).total,
            old(self).nodes@.len() <= final(self).nodes@.len(),
            forall|n: int| 0 <= n < old(self).nodes@.len() ==> #[trigger] final(self).label_of(n) == old(self).label_of(n),
            forall|y: char| #[trigger] item_total(items_of(final(self).nodes@), counts_of(final(self).nodes@), y, final(self).nodes@.len() as int)
                == item_total(items_of(old(self).nodes@), counts_of(old(self).nodes@), y, old(self).nodes@.len() as int)
                    + if y == x { count as nat } else { 0nat },
            final(self).paths == old(self).paths,
            forall|y: char, s: Seq<char>|
                s.len() > 0 ==> #[trigger] weighted_support(tree_base(*final(self), y), s) == weighted_support(
                    tree_base(*old(self), y),
                    s,
                ) + if y == x && holds_all(old(self).label_of(cur as int), s) { count as nat } else { 0nat },
            final(self).nodes@.len() <= old(self).nodes@.len() + 1,
            forall|m: int|
                0 <= m < old(self).nodes@.len() ==> (#[trigger] final(self).nodes@[m]).count == old(self).nodes@[m].count
                    + if old(self).label_of(m) == old(self).label_of(cur as int).push(x) { count } else { 0 },
            final(self).nodes@.len() == old(self).nodes@.len() + 1 ==> {
                &&& final(self).nodes@[old(self).nodes@.len() as int].count == count
                &&& next == old(self).nodes@.len()
                &&& forall|m: int| 0 <= m < old(self).nodes@.len() ==> #[trigger] old(self).label_of(m) != old(self).label_of(cur as int).push(x)
            },
    {
        let ghost bi = items_of(self.nodes@);
        let ghost bc = counts_of(self.nodes@);
        let ghost bp = parents_of(self.nodes@);
        let ghost len = self.nodes@.len() as int;
        let n_nodes = self.nodes.len();
        let mut found: Option<usize> = None;
        let mut j: usize = 0;
        while j < self.nodes[cur].children.len()
            invariant
                cur < self.nodes@.len(),
                self.shape_wf(),
                0 <= j <= self.nodes@[cur as int].children@.len(),
                found is Some ==> {
                    let ch = found->0;
                    &&& 0 < ch < self.nodes@.len()
                    &&& self.nodes@[ch as int].parent == Some(cur)
                    &&& self.nodes@[ch as int].item == Some(x)
                },
                found is None ==> forall|jj: int|
                    0 <= jj < j ==> self.nodes@[(#[trigger] self.nodes@[cur as int].children@[jj]) as int].item != Some(x),
            decreases self.nodes@[cur as int].children@.len() - j,
        {
            let ch = self.nodes[cur].children[j];
            proof {
                reveal(FPTree::shape_wf);
            }
            assert(0 < self.nodes@[cur as int].children@[j as int] < self.nodes@.len());
            if self.nodes[ch].item == Some(x) {
                found = Some(ch);
            }
            j = j + 1;
        }
        match found {
            Some(ch) => {
                proof {
                    reveal(FPTree::shape_wf);
                    assert(bi[ch as int] == self.nodes@[ch as int].item);
                    lemma_count_le_item_total(bi, bc, x, ch as int, len);
                }
                let v = self.nodes[ch].count + count;
                proof {
                    assert forall|y: char| #[trigger] item_total(bi, bc.update(ch as int, v), y, len)
                        == item_total(bi, bc, y, len) + if y == x { count as nat } else { 0nat } by {
                        lemma_item_total_update(bi, bc, ch as int, v, y, len);
                    }
                    reveal(FPTree::shape_wf);
                    assert(bp[ch as int] == Some(cur));
                    assert(label(bi, bp, ch as int) == label(bi, bp, cur as int).push(x));
                }
                proof {
                    lemma_shape_basics(*self);
                }
                self.set_count(ch, v);
                proof {
                    assert(self.nodes@.len() == items_of(self.nodes@).len());
                    assert(self.nodes@.len() == len);
                    assert forall|m: int| 0 <= m < len implies (#[trigger] self.nodes@[m]).count == old(self).nodes@[m].count
                        + if old(self).label_of(m) == old(self).label_of(cur as int).push(x) { count } else { 0 } by {
                        assert(counts_of(self.nodes@)[m] == self.nodes@[m].count);
                        assert(bc[m] == old(self).nodes@[m].count);
                        if m != ch {
                            assert(old(self).label_of(m) != old(self).label_of(ch as int));
                        }
                    }
                    assert forall|n: int| 0 <= n < len implies #[trigger] self.label_of(n) == old(self).label_of(n) by {
                    }
                    let lc = label(bi, bp, cur as int);
                    assert(label(bi, bp, ch as int).drop_last() =~= lc);
                    assert forall|y: char, s: Seq<char>| s.len() > 0 implies #[trigger] weighted_support(tree_base(*self, y), s)
                        == weighted_support(tree_base(*old(self), y), s) + if y == x && holds_all(lc, s) { count as nat } else { 0nat } by {
                        lemma_pattern_base_update(bi, bp, bc, ch as int, v, y, len, s);
                        assert(counts_of(self.nodes@) == bc.update(ch as int, v));
                        if lc.len() == 0 {
                            assert(!lc.contains(s[0]));
                        }
                    }
                }
                ch
            },
            None => {
                proof {
                    reveal(FPTree::shape_wf);
                    assert forall|m: int| 0 <= m < len implies #[trigger] self.label_of(m) != self.label_of(cur as int).push(x) by {
                        if self.label_of(m) == self.label_of(cur as int).push(x) {
                            assert(m != 0) by {
                                assert(self.label_of(0).len() == 0);
                            }
                            let p = self.nodes@[m].parent->0 as int;
                            assert(bp[m] == self.nodes@[m].parent);
                            assert(bi[m] == self.nodes@[m].item);
                            assert(self.label_of(m) == self.label_of(p).push(self.nodes@[m].item->0));
                            assert(self.label_of(p) =~= self.label_of(m).drop_last());
                            assert(self.label_of(cur as int) =~= self.label_of(cur as int).push(x).drop_last());
                            assert(self.label_of(p) == self.label_of(cur as int));
                            assert(p == cur);
                            assert(self.label_of(m).last() == x);
                            assert(self.nodes@[m].item == Some(x));
                            assert(m < n_nodes);
                            assert(self.nodes@[cur as int].children@.contains(m as usize));
                            let q = choose|q: int| 0 <= q < self.nodes@[cur as int].children@.len() && self.nodes@[cur as int].children@[q] == m as usize;
                            assert(self.nodes@[(self.nodes@[cur as int].children@[q]) as int].item != Some(x));
                        }
                    }
                }
                let ch = self.append_node(cur, x, count);
                proof {
                    assert(self.nodes@.len() == counts_of(self.nodes@).len());
                    assert(self.nodes@.len() == len + 1);
                    assert(counts_of(self.nodes@)[len] == self.nodes@[len].count);
                    assert forall|m: int| 0 <= m < len implies (#[trigger] self.nodes@[m]).count == old(self).nodes@[m].count
                        + if old(self).label_of(m) == old(self).label_of(cur as int).push(x) { count } else { 0 } by {
                        assert(counts_of(self.nodes@)[m] == self.nodes@[m].count);
                        assert(bc[m] == old(self).nodes@[m].count);
                        assert(old(self).label_of(m) != old(self).label_of(cur as int).push(x));
                    }
                    let lc = label(bi, bp, cur as int);
                    assert forall|y: char, s: Seq<char>| s.len() > 0 implies #[trigger] weighted_support(tree_base(*self, y), s)
                        == weighted_support(tree_base(*old(self), y), s) + if y == x && holds_all(lc, s) { count as nat } else { 0nat } by {
                        lemma_pattern_base_push(bi, bp, bc, x, cur, count, y, len);
                        if y == x && lc.len() > 0 {
                            lemma_weighted_support_push(tree_base(*old(self), y), (lc, count as nat), s);
                        }
                        if lc.len() == 0 {
                            assert(!lc.contains(s[0]));
                        }
                    }
                    assert forall|y: char| #[trigger] item_total(items_of(self.nodes@), counts_of(self.nodes@), y, self.nodes@.len() as int)
                        == item_total(bi, bc, y, len) + if y == x { count as nat } else { 0nat } by {
                        lemma_item_total_push(bi, bc, y, x, count, len + 1);
                    }
                    assert forall|n: int| 0 <= n < len implies #[trigger] self.label_of(n) == old(self).label_of(n) by {
                        lemma_label_push(bi, bp, x, cur, n);
                    }
                }
                ch
            },
        }
    }

    /// Inserts one path with weight `count`. The path lists header items,
    /// each once, in the order they are to stand from the root down. Nodes
    /// on an existing prefix are reused and gain `count`; the rest are
    /// created and appended to their items' occurrence chains.
    pub fn add_transaction(&mut self, transaction: Vec<char>, count: usize)
        requires
            old(self).wf(),
            transaction@.no_duplicates(),
            in_key_order(header_items(old(self).header_table@), transaction@),
            forall|i: int| 0 <= i < transaction@.len() ==> old(self).in_header(#[trigger] transaction@[i]),
            old(self).total + count <= usize::MAX,
        ensures
            final(self).wf(),
            final(self).total == old(self).total + count,
            header_keys(final(self).header_table@) == header_keys(old(self).header_table@),
            old(self).nodes@.len() <= final(self).nodes@.len(),
            forall|n: int| 0 <= n < old(self).nodes@.len() ==> #[trigger] final(self).label_of(n) == old(self).label_of(n),
            exists|n: int| 0 <= n < final(self).nodes@.len() && final(self).label_of(n) == transaction@,
            final(self).paths@ == old(self).paths@.push((transaction@, count as nat)),
            transaction@.len() == 0 ==> final(self).nodes@ == old(self).nodes@,
            forall|m: int|
                0 <= m < old(self).nodes@.len() ==> (#[trigger] final(self).nodes@[m]).count == old(self).nodes@[m].count
                    + if old(self).label_of(m).len() > 0 && is_prefix(old(self).label_of(m), transaction@) {
                    count
                } else {
                    0
                },
            forall|m: int|
                old(self).nodes@.len() <= m < final(self).nodes@.len() ==> {
                    &&& (#[trigger] final(self).nodes@[m]).count == count
                    &&& final(self).label_of(m).len() > 0
                    &&& is_prefix(final(self).label_of(m), transaction@)
                    &&& forall|m2: int| 0 <= m2 < old(self).nodes@.len() ==> #[trigger] old(self).label_of(m2) != final(self).label_of(m)
                },
    {
        let ghost old_len = self.nodes@.len();
        let ghost old_total = self.total;
        let ghost old_paths = self.paths@;
        proof {
            reveal(FPTree::base_wf);
        }
        let mut cur: usize = 0;
        let mut i: usize = 0;
        proof {
            reveal(FPTree::shape_wf);
        }
        assert(self.label_of(0) =~= transaction@.take(0));
        while i < transaction.len()
            invariant
                0 <= i <= transaction@.len(),
                transaction@.len() == 0 ==> self.nodes@ == old(self).nodes@,
                forall|k: int| 0 < k <= i ==> #[trigger] self.holds_path(transaction@.take(k)),
                forall|m: int|
                    0 <= m < old_len ==> (#[trigger] self.nodes@[m]).count == old(self).nodes@[m].count
                        + if old(self).label_of(m).len() > 0 && is_prefix(old(self).label_of(m), transaction@.take(i as int)) {
                        count
                    } else {
                        0
                    },
                forall|m: int|
                    old_len <= m < self.nodes@.len() ==> {
                        &&& (#[trigger] self.nodes@[m]).count == count
                        &&& self.label_of(m).len() > 0
                        &&& is_prefix(self.label_of(m), transaction@.take(i as int))
                        &&& forall|m2: int| 0 <= m2 < old_len ==> #[trigger] old(self).label_of(m2) != self.label_of(m)
                    },
                transaction@.no_duplicates(),
                in_key_order(header_items(old(self).header_table@), transaction@),
                forall|k: int| 0 <= k < transaction@.len() ==> self.in_header(#[trigger] transaction@[k]),
                self.shape_wf(),
                self.chain_wf(),
                self.total == old_total,
                old_total + count <= usize::MAX,
                cur < self.nodes@.len(),
                self.label_of(cur as int) == transaction@.take(i as int),
                header_keys(self.header_table@) == header_keys(old(self).header_table@),
                old_len == old(self).nodes@.len(),
                old_len <= self.nodes@.len(),
                forall|n: int| 0 <= n < old_len ==> #[trigger] self.label_of(n) == old(self).label_of(n),
                forall|y: char|
                    #[trigger] item_total(items_of(self.nodes@), counts_of(self.nodes@), y, self.nodes@.len() as int)
                        <= old_total + if transaction@.take(i as int).contains(y) { count as int } else { 0int },
                self.paths@ == old_paths,
                forall|y: char|
                    #[trigger] item_total(items_of(self.nodes@), counts_of(self.nodes@), y, self.nodes@.len() as int)
                        == weighted_support(old_paths, seq![y]) + if transaction@.take(i as int).contains(y) { count as nat } else { 0nat },
                forall|y: char, s: Seq<char>|
                    s.len() > 0 ==> #[trigger] weighted_support(tree_base(*self, y), s) == weighted_support(
                        project(old_paths, y),
                        s,
                    ) + if transaction@.take(i as int).contains(y) && holds_all(cut_before(transaction@, y), s) {
                        count as nat
                    } else {
                        0nat
                    },
            decreases transaction@.len() - i,
        {
            let x = transaction[i];
            proof {
                assert(transaction@.take(i + 1) =~= transaction@.take(i as int).push(x));
                if transaction@.take(i as int).contains(x) {
                    let k = choose|k: int| 0 <= k < i && #[trigger] transaction@.take(i as int)[k] == x;
                    assert(transaction@[k] == transaction@[i as int]);
                }
                assert(header_items(self.header_table@) =~= header_keys(self.header_table@).map_values(|e: (char, usize)| e.0));
                assert(header_items(old(self).header_table@) =~= header_keys(old(self).header_table@).map_values(|e: (char, usize)| e.0));
                assert(self.in_header(x));
                assert forall|j: int| 0 <= j < self.label_of(cur as int).len() implies key_index(header_items(self.header_table@), #[trigger] self.label_of(cur as int)[j])
                    < key_index(header_items(self.header_table@), x) by {
                    assert(self.label_of(cur as int)[j] == transaction@[j]);
                }
            }
            let ghost bi = items_of(self.nodes@);
            let ghost bc = counts_of(self.nodes@);
            let ghost blen = self.nodes@.len() as int;
            let ghost before = *self;
            let ghost lc = self.label_of(cur as int);
            cur = self.extend_path(cur, x, count);
            proof {
                let t = transaction@;
                assert(lc.push(x) =~= t.take(i + 1));
                assert forall|k: int| 0 < k <= i + 1 implies #[trigger] self.holds_path(t.take(k)) by {
                    if k <= i {
                        assert(before.holds_path(t.take(k)));
                        let n = choose|n: int| 0 <= n < before.nodes@.len() && #[trigger] before.label_of(n) == t.take(k);
                        assert(self.label_of(n) == before.label_of(n));
                    } else {
                        assert(self.label_of(cur as int) == t.take(i + 1));
                    }
                }
                assert forall|m: int| 0 <= m < old_len implies (#[trigger] self.nodes@[m]).count == old(self).nodes@[m].count
                    + if old(self).label_of(m).len() > 0 && is_prefix(old(self).label_of(m), t.take(i + 1)) {
                    count
                } else {
                    0
                } by {
                    assert(before.label_of(m) == old(self).label_of(m));
                    lemma_prefix_step(old(self).label_of(m), t, i as int);
                    assert(before.nodes@[m].count == old(self).nodes@[m].count
                        + if old(self).label_of(m).len() > 0 && is_prefix(old(self).label_of(m), t.take(i as int)) { count } else { 0 });
                    if old(self).label_of(m) == t.take(i + 1) {
                        assert(t.take(i + 1).len() > 0);
                    }
                }
                assert forall|m: int| old_len <= m < self.nodes@.len() implies {
                    &&& (#[trigger] self.nodes@[m]).count == count
                    &&& self.label_of(m).len() > 0
                    &&& is_prefix(self.label_of(m), t.take(i + 1))
                    &&& forall|m2: int| 0 <= m2 < old_len ==> #[trigger] old(self).label_of(m2) != self.label_of(m)
                } by {
                    if m < blen {
                        assert(self.label_of(m) == before.label_of(m));
                        lemma_prefix_step(before.label_of(m), t, i as int);
                        assert(before.nodes@[m].count == count);
                    } else {
                        assert(m == blen);
                        assert(self.label_of(m) == t.take(i + 1));
                        assert(t.take(i + 1).take(i + 1) =~= t.take(i + 1));
                        assert forall|m2: int| 0 <= m2 < old_len implies #[trigger] old(self).label_of(m2) != self.label_of(m) by {
                            assert(before.label_of(m2) == old(self).label_of(m2));
                        }
                    }
                }
                crate::tree::lemma_key_index(transaction@, x);
                assert(key_index(transaction@, x) == i);
                assert(cut_before(transaction@, x) =~= lc);
                assert forall|y: char, s: Seq<char>| s.len() > 0 implies #[trigger] weighted_support(tree_base(*self, y), s)
                    == weighted_support(project(old_paths, y), s) + if transaction@.take(i + 1).contains(y) && holds_all(
                        cut_before(transaction@, y), s) { count as nat } else { 0nat } by {
                    assert(weighted_support(tree_base(before, y), s) == weighted_support(project(old_paths, y), s)
                        + if transaction@.take(i as int).contains(y) && holds_all(cut_before(transaction@, y), s) { count as nat } else { 0nat });
                    if y != x {
                        if transaction@.take(i + 1).contains(y) {
                            let k = choose|k: int| 0 <= k < i + 1 && #[trigger] transaction@.take(i + 1)[k] == y;
                            assert(transaction@.take(i as int)[k] == y);
                        }
                        if transaction@.take(i as int).contains(y) {
                            let k = choose|k: int| 0 <= k < i && #[trigger] transaction@.take(i as int)[k] == y;
                            assert(transaction@.take(i + 1)[k] == y);
                        }
                    } else {
                        assert(transaction@.take(i + 1)[i as int] == x);
                    }
                }
                assert(header_items(self.header_table@) =~= header_keys(self.header_table@).map_values(|e: (char, usize)| e.0));
                assert forall|k: int| 0 <= k < transaction@.len() implies self.in_header(#[trigger] transaction@[k]) by {
                    assert(old(self).in_header(transaction@[k]));
                }
                assert forall|y: char|
                    #[trigger] item_total(items_of(self.nodes@), counts_of(self.nodes@), y, self.nodes@.len() as int)
                        <= old_total + if transaction@.take(i + 1).contains(y) { count as int } else { 0int } by {
                    assert(item_total(bi, bc, y, blen) <= old_total + if transaction@.take(i as int).contains(y) { count as int } else { 0int });
                    if transaction@.take(i as int).contains(y) {
                        let k = choose|k: int| 0 <= k < i && #[trigger] transaction@.take(i as int)[k] == y;
                        assert(transaction@.take(i + 1)[k] == y);
                    }
                    if y == x {
                        assert(transaction@.take(i + 1)[i as int] == x);
                    }
                }
                assert forall|y: char|
                    #[trigger] item_total(items_of(self.nodes@), counts_of(self.nodes@), y, self.nodes@.len() as int)
                        == weighted_support(old_paths, seq![y]) + if transaction@.take(i + 1).contains(y) { count as nat } else { 0nat } by {
                    assert(item_total(bi, bc, y, blen) == weighted_support(old_paths, seq![y]) + if transaction@.take(i as int).contains(y) { count as nat } else { 0nat });
                    if transaction@.take(i as int).contains(y) {
                        let k = choose|k: int| 0 <= k < i && #[trigger] transaction@.take(i as int)[k] == y;
                        assert(transaction@.take(i + 1)[k] == y);
                    }
                    if transaction@.take(i + 1).contains(y) && y != x {
                        let k = choose|k: int| 0 <= k < i + 1 && #[trigger] transaction@.take(i + 1)[k] == y;
                        assert(transaction@.take(i as int)[k] == y);
                    }
                    if y == x {
                        assert(transaction@.take(i + 1)[i as int] == x);
                    }
                }
            }
            i = i + 1;
        }
        let ghost mid = *self;
        self.total = self.total + count;
        self.paths = Ghost(self.paths@.push((transaction@, count as nat)));
        proof {
            lemma_wf_frame(&mid, self);
            assert(transaction@.take(i as int) =~= transaction@);
            reveal(FPTree::base_wf);
            assert forall|y: char, s: Seq<char>| s.len() > 0 implies #[trigger] weighted_support(tree_base(*self, y), s)
                == weighted_support(project(self.paths@, y), s) by {
                assert(tree_base(*self, y) == tree_base(mid, y));
                let np = self.paths@;
                assert(np.drop_last() =~= old_paths);
                if transaction@.contains(y) {
                    lemma_weighted_support_push(project(old_paths, y), (cut_before(transaction@, y), count as nat), s);
                }
            }
            assert forall|y: char|
                #[trigger] item_total(items_of(self.nodes@), counts_of(self.nodes@), y, self.nodes@.len() as int)
                    == weighted_support(self.paths@, seq![y]) by {
                assert(item_total(items_of(mid.nodes@), counts_of(mid.nodes@), y, mid.nodes@.len() as int)
                    == weighted_support(old_paths, seq![y]) + if transaction@.take(i as int).contains(y) { count as nat } else { 0nat });
                assert(self.paths@.drop_last() =~= old_paths);
                assert(holds_all(transaction@, seq![y]) <==> transaction@.contains(y)) by {
                    assert(seq![y][0] == y);
                }
            }
            assert forall|n: int| 0 < n < self.nodes@.len() implies (#[trigger] self.nodes@[n]).count as nat == prefix_weight(
                self.paths@, self.label_of(n)) by {
                let np = self.paths@;
                assert(np.drop_last() =~= old_paths);
                assert(np.last() == (transaction@, count as nat));
                assert(self.label_of(n) == mid.label_of(n));
                if n < old_len {
                    assert(self.nodes@[n] == mid.nodes@[n]);
                    assert(mid.label_of(n) == old(self).label_of(n));
                    assert(old(self).nodes@[n].count as nat == prefix_weight(old_paths, old(self).label_of(n)));
                    assert(old(self).label_of(n).len() > 0) by {
                        lemma_shape_basics(*old(self));
                        reveal(FPTree::shape_wf);
                        assert(old(self).label_of(n) != old(self).label_of(0));
                        assert(old(self).label_of(0).len() == 0);
                    }
                } else {
                    assert(self.nodes@[n] == mid.nodes@[n]);
                    lemma_prefix_weight_zero(*old(self), old_paths, mid.label_of(n));
                }
            }
            assert forall|n: int| 0 < n < self.nodes@.len() implies on_some_path(self.paths@, #[trigger] self.label_of(n)) by {
                assert(self.label_of(n) == mid.label_of(n));
                if n < old_len {
                    assert(mid.label_of(n) == old(self).label_of(n));
                    assert(on_some_path(old_paths, old(self).label_of(n)));
                    let j = choose|j: int| 0 <= j < old_paths.len() && is_prefix(old(self).label_of(n), #[trigger] old_paths[j].0);
                    assert(self.paths@[j] == old_paths[j]);
                } else {
                    assert(self.paths@[old_paths.len() as int].0 == transaction@);
                }
            }
            assert forall|j: int, k: int|
                0 <= j < self.paths@.len() && 0 < k <= self.paths@[j].0.len() implies #[trigger] self.holds_path(
                    self.paths@[j].0.take(k)) by {
                if j < old_paths.len() {
                    assert(self.paths@[j] == old_paths[j]);
                    assert(old(self).holds_path(old_paths[j].0.take(k)));
                    let n = choose|n: int| 0 <= n < old(self).nodes@.len() && #[trigger] old(self).label_of(n) == old_paths[j].0.take(k);
                    assert(self.label_of(n) == mid.label_of(n));
                } else {
                    assert(self.paths@[j].0 == transaction@);
                    assert(mid.holds_path(transaction@.take(k)));
                    let n = choose|n: int| 0 <= n < mid.nodes@.len() && #[trigger] mid.label_of(n) == transaction@.take(k);
                    assert(self.label_of(n) == mid.label_of(n));
                }
            }
            assert(header_items(self.header_table@) =~= header_keys(self.header_table@).map_values(|e: (char, usize)| e.0));
            assert(header_items(old(self).header_table@) =~= header_keys(old(self).header_table@).map_values(|e: (char, usize)| e.0));
            assert forall|j: int| 0 <= j < self.paths@.len() implies (#[trigger] self.paths@[j]).0.no_duplicates() && in_key_order(
                header_items(self.header_table@), self.paths@[j].0) by {
                if j < old_paths.len() {
                    assert(self.paths@[j] == old_paths[j]);
                }
            }
            assert forall|n: int| 0 <= n < self.nodes@.len() implies #[trigger] self.label_of(n) == mid.label_of(n) by {}
            assert(self.label_of(cur as int) == transaction@.take(i as int));
            assert(transaction@.take(i as int) =~= transaction@);
            assert forall|y: char|
                #[trigger] item_total(items_of(self.nodes@), counts_of(self.nodes@), y, self.nodes@.len() as int)
                    <= self.total by {
                assert(item_total(items_of(self.nodes@), counts_of(self.nodes@), y, self.nodes@.len() as int)
                    <= old_total + if transaction@.take(i as int).contains(y) { count as int } else { 0int });
            }
        }
    }
}

} // verus!
