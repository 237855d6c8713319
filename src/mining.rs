//! Conditional pattern bases and the recursive miner over prefix trees.
use vstd::prelude::*;
use crate::counter::{count_items, frequent_items, lemma_total_weight_prefix};
use crate::rules::{items_without, lemma_items_without};
use crate::itemset::{
    holds_all, lemma_positive_support_occurs, lemma_weighted_support_same_items,
    lemma_weighted_support_subset, occurs, strictly_sorted, total_weight, transactions_view,
    unit_weights, weighted_support, weighted_view,
};
use crate::tree::{
    FPTree, HeaderTableEntry, counts_of, header_items, header_keys, in_key_order, item_total,
    items_of, key_index, label, lemma_key_index, lemma_next_facts, parents_of,
};

verus! {

/// The conditional pattern base of `x` among the first `k` nodes: for each
/// node carrying `x` whose path above it is not empty, in creation order,
/// that path with the node's count.
pub open spec fn pattern_base(
    items: Seq<Option<char>>,
    parents: Seq<Option<usize>>,
    counts: Seq<usize>,
    x: char,
    k: int,
) -> Seq<(Seq<char>, nat)>
    decreases k,
{
    if k <= 0 || k > items.len() || k > counts.len() {
        Seq::empty()
    } else {
        let prev = pattern_base(items, parents, counts, x, k - 1);
        let l = label(items, parents, k - 1);
        if items[k - 1] == Some(x) && l.len() > 1 {
            prev.push((l.drop_last(), counts[k - 1] as nat))
        } else {
            prev
        }
    }
}

proof fn lemma_pattern_base_skip(
    items: Seq<Option<char>>,
    parents: Seq<Option<usize>>,
    counts: Seq<usize>,
    x: char,
    k: int,
    j: int,
)
    requires
        0 <= k <= j <= items.len(),
        items.len() == counts.len(),
        forall|m: int| k <= m < j ==> items[m] != Some(x),
    ensures
        pattern_base(items, parents, counts, x, j) == pattern_base(items, parents, counts, x, k),
    decreases j - k,
{
    if j > k {
        lemma_pattern_base_skip(items, parents, counts, x, k, j - 1);
    }
}

proof fn lemma_pattern_base_weight(
    items: Seq<Option<char>>,
    parents: Seq<Option<usize>>,
    counts: Seq<usize>,
    x: char,
    k: int,
)
    requires
        0 <= k <= items.len(),
        items.len() == counts.len(),
    ensures
        total_weight(pattern_base(items, parents, counts, x, k)) <= item_total(items, counts, x, k),
    decreases k,
{
    if k > 0 {
        lemma_pattern_base_weight(items, parents, counts, x, k - 1);
        let prev = pattern_base(items, parents, counts, x, k - 1);
        let l = label(items, parents, k - 1);
        if items[k - 1] == Some(x) && l.len() > 1 {
            assert(prev.push((l.drop_last(), counts[k - 1] as nat)).drop_last() =~= prev);
        }
    }
}

/// The part of path `p` before its item `y`.
pub open spec fn cut_before(p: Seq<char>, y: char) -> Seq<char> {
    p.take(key_index(p, y))
}

/// The paths of `paths` that hold `y`, each cut just before `y`, with their
/// weights: the sub-database that the conditional pattern base of `y`
/// stands for.
pub open spec fn project(paths: Seq<(Seq<char>, nat)>, y: char) -> Seq<(Seq<char>, nat)>
    decreases paths.len(),
{
    if paths.len() == 0 {
        Seq::empty()
    } else {
        let prev = project(paths.drop_last(), y);
        if paths.last().0.contains(y) {
            prev.push((cut_before(paths.last().0, y), paths.last().1))
        } else {
            prev
        }
    }
}

/// The conditional pattern base of `y` in the whole tree.
pub open spec fn tree_base(t: FPTree, y: char) -> Seq<(Seq<char>, nat)> {
    pattern_base(items_of(t.nodes@), parents_of(t.nodes@), counts_of(t.nodes@), y, t.nodes@.len() as int)
}

pub proof fn lemma_weighted_support_push(db: Seq<(Seq<char>, nat)>, e: (Seq<char>, nat), s: Seq<char>)
    ensures
        weighted_support(db.push(e), s) == weighted_support(db, s) + if holds_all(e.0, s) { e.1 } else { 0nat },
{
    assert(db.push(e).drop_last() =~= db);
}

/// Changing the count of node `j` changes the weighted supports of the
/// pattern bases by the change of that node's entry.
pub proof fn lemma_pattern_base_update(
    items: Seq<Option<char>>,
    parents: Seq<Option<usize>>,
    counts: Seq<usize>,
    j: int,
    v: usize,
    y: char,
    k: int,
    s: Seq<char>,
)
    requires
        items.len() == counts.len(),
        0 <= j < items.len(),
        0 <= k <= items.len(),
    ensures
        ({
            let l = label(items, parents, j);
            let c = k > j && items[j] == Some(y) && l.len() > 1 && holds_all(l.drop_last(), s);
            weighted_support(pattern_base(items, parents, counts.update(j, v), y, k), s) + if c {
                counts[j] as int
            } else {
                0int
            } == weighted_support(pattern_base(items, parents, counts, y, k), s) + if c {
                v as int
            } else {
                0int
            }
        }),
    decreases k,
{
    if k > 0 {
        lemma_pattern_base_update(items, parents, counts, j, v, y, k - 1, s);
        let l = label(items, parents, k - 1);
        let c2 = counts.update(j, v);
        if items[k - 1] == Some(y) && l.len() > 1 {
            lemma_weighted_support_push(pattern_base(items, parents, counts, y, k - 1), (l.drop_last(), counts[k - 1] as nat), s);
            lemma_weighted_support_push(pattern_base(items, parents, c2, y, k - 1), (l.drop_last(), c2[k - 1] as nat), s);
        }
    }
}

/// Appending a node leaves the pattern bases of the old nodes as they were
/// and adds the new node's entry.
pub proof fn lemma_pattern_base_push(
    items: Seq<Option<char>>,
    parents: Seq<Option<usize>>,
    counts: Seq<usize>,
    x: char,
    p: usize,
    c: usize,
    y: char,
    k: int,
)
    requires
        items.len() == counts.len(),
        items.len() == parents.len(),
        0 <= k <= items.len(),
        (p as int) < items.len(),
    ensures
        pattern_base(items.push(Some(x)), parents.push(Some(p)), counts.push(c), y, k) == pattern_base(items, parents, counts, y, k),
        ({
            let l = label(items, parents, p as int);
            pattern_base(items.push(Some(x)), parents.push(Some(p)), counts.push(c), y, items.len() as int + 1)
                == if y == x && l.len() > 0 {
                    pattern_base(items, parents, counts, y, items.len() as int).push((l, c as nat))
                } else {
                    pattern_base(items, parents, counts, y, items.len() as int)
                }
        }),
{
    lemma_pattern_base_prefix(items, parents, counts, x, p, c, y, k);
    lemma_pattern_base_push_top(items, parents, counts, x, p, c, y);
}

proof fn lemma_pattern_base_push_top(
    items: Seq<Option<char>>,
    parents: Seq<Option<usize>>,
    counts: Seq<usize>,
    x: char,
    p: usize,
    c: usize,
    y: char,
)
    requires
        items.len() == counts.len(),
        items.len() == parents.len(),
        (p as int) < items.len(),
    ensures
        ({
            let l = label(items, parents, p as int);
            pattern_base(items.push(Some(x)), parents.push(Some(p)), counts.push(c), y, items.len() as int + 1)
                == if y == x && l.len() > 0 {
                    pattern_base(items, parents, counts, y, items.len() as int).push((l, c as nat))
                } else {
                    pattern_base(items, parents, counts, y, items.len() as int)
                }
        }),
{
    let i2 = items.push(Some(x));
    let p2 = parents.push(Some(p));
    let c2 = counts.push(c);
    let n = items.len() as int;
    lemma_pattern_base_prefix(items, parents, counts, x, p, c, y, n);
    crate::tree::lemma_label_push(items, parents, x, p, p as int);
    assert(label(i2, p2, n) == label(i2, p2, p as int).push(x));
    assert(label(i2, p2, n).drop_last() =~= label(items, parents, p as int));
}

proof fn lemma_pattern_base_prefix(
    items: Seq<Option<char>>,
    parents: Seq<Option<usize>>,
    counts: Seq<usize>,
    x: char,
    p: usize,
    c: usize,
    y: char,
    k: int,
)
    requires
        items.len() == counts.len(),
        items.len() == parents.len(),
        0 <= k <= items.len(),
    ensures
        pattern_base(items.push(Some(x)), parents.push(Some(p)), counts.push(c), y, k) == pattern_base(items, parents, counts, y, k),
    decreases k,
{
    if k > 0 {
        lemma_pattern_base_prefix(items, parents, counts, x, p, c, y, k - 1);
        crate::tree::lemma_label_push(items, parents, x, p, k - 1);
        assert(items.push(Some(x))[k - 1] == items[k - 1]);
        assert(counts.push(c)[k - 1] == counts[k - 1]);
    }
}

impl FPTree {
    /// Every item on the path of node `n` is listed in the header table.
    pub proof fn lemma_label_in_header(&self, n: int)
        requires
            self.shape_wf(),
            0 <= n < self.nodes@.len(),
        ensures
            forall|j: int| 0 <= j < self.label_of(n).len() ==> self.in_header(#[trigger] self.label_of(n)[j]),
        decreases n,
    {
        reveal(FPTree::shape_wf);
        if n > 0 {
            let p = self.nodes@[n].parent->0 as int;
            assert(parents_of(self.nodes@)[n] == self.nodes@[n].parent);
            assert(items_of(self.nodes@)[n] == self.nodes@[n].item);
            self.lemma_label_in_header(p);
            assert(self.label_of(n) == self.label_of(p).push(self.nodes@[n].item->0));
        } else {
            assert(self.label_of(0).len() == 0);
        }
    }

    /// The items on the path from the root down to node `n`.
    pub fn path_of(&self, n: usize) -> (r: Vec<char>)
        requires
            self.shape_wf(),
            n < self.nodes@.len(),
        ensures
            r@ == self.label_of(n as int),
        decreases n,
    {
        proof {
            reveal(FPTree::shape_wf);
            assert(parents_of(self.nodes@)[n as int] == self.nodes@[n as int].parent);
            assert(items_of(self.nodes@)[n as int] == self.nodes@[n as int].item);
        }
        match self.nodes[n].parent {
            None => {
                assert(n == 0);
                Vec::new()
            },
            Some(p) => {
                let mut r = self.path_of(p);
                match self.nodes[n].item {
                    Some(x) => r.push(x),
                    None => {},
                }
                r
            },
        }
    }

    /// The conditional pattern base of the item at header position `h`: for
    /// each node of its occurrence chain, in chain order, the path above the
    /// node (root excluded) weighted by the node's count; empty paths are
    /// left out.
    #[verifier::rlimit(40)]
    pub fn conditional_base(&self, h: usize) -> (r: Vec<(Vec<char>, usize)>)
        requires
            self.wf(),
            h < self.header_table@.len(),
        ensures
            weighted_view(r@) == pattern_base(
                items_of(self.nodes@),
                parents_of(self.nodes@),
                counts_of(self.nodes@),
                self.header_table@[h as int].item,
                self.nodes@.len() as int,
            ),
            total_weight(weighted_view(r@)) <= self.total,
            forall|s: Seq<char>|
                s.len() > 0 ==> #[trigger] weighted_support(weighted_view(r@), s) == weighted_support(
                    project(self.paths@, self.header_table@[h as int].item),
                    s,
                ),
            forall|i: int| 0 <= i < r@.len() ==> {
                &&& (#[trigger] r@[i]).0@.no_duplicates()
                &&& !r@[i].0@.contains(self.header_table@[h as int].item)
                &&& forall|j: int| 0 <= j < r@[i].0@.len() ==> self.in_header(#[trigger] r@[i].0@[j])
                &&& forall|j: int| 0 <= j < r@[i].0@.len() ==> key_index(header_items(self.header_table@), #[trigger] r@[i].0@[j]) < h
            },
    {
        let ghost items = items_of(self.nodes@);
        let ghost parents = parents_of(self.nodes@);
        let ghost counts = counts_of(self.nodes@);
        let ghost len = self.nodes@.len() as int;
        let x = self.header_table[h].item;
        let node_count = self.nodes.len();
        proof {
            reveal(FPTree::chain_wf);
            assert(self.header_table@[h as int].head == crate::tree::next_with_item(items, x, 0));
        }
        let mut cur = self.header_table[h].head;
        let ghost mut k: int = 0;
        let mut r: Vec<(Vec<char>, usize)> = Vec::new();
        while cur.is_some()
            invariant
                self.wf(),
                h < self.header_table@.len(),
                x == self.header_table@[h as int].item,
                items == items_of(self.nodes@),
                parents == parents_of(self.nodes@),
                counts == counts_of(self.nodes@),
                len == self.nodes@.len(),
                len == node_count,
                0 <= k <= len,
                cur == crate::tree::next_with_item(items, x, k),
                weighted_view(r@) == pattern_base(items, parents, counts, x, k),
                forall|i: int| 0 <= i < r@.len() ==> {
                    &&& (#[trigger] r@[i]).0@.no_duplicates()
                    &&& !r@[i].0@.contains(x)
                    &&& forall|j: int| 0 <= j < r@[i].0@.len() ==> self.in_header(#[trigger] r@[i].0@[j])
                    &&& forall|j: int| 0 <= j < r@[i].0@.len() ==> key_index(header_items(self.header_table@), #[trigger] r@[i].0@[j]) < h
                },
            decreases len - k,
        {
            let n = cur.unwrap();
            proof {
                reveal(FPTree::shape_wf);
                reveal(FPTree::chain_wf);
                lemma_next_facts(items, x, k);
                lemma_pattern_base_skip(items, parents, counts, x, k, n as int);
                assert(items[n as int] == self.nodes@[n as int].item);
                assert(parents[n as int] == self.nodes@[n as int].parent);
                assert(counts[n as int] == self.nodes@[n as int].count);
                assert(n > 0);
            }
            let p = self.nodes[n].parent.unwrap();
            let path = self.path_of(p);
            proof {
                let l = label(items, parents, n as int);
                assert(l == self.label_of(p as int).push(x));
                assert(l.drop_last() =~= path@);
                assert(self.label_of(n as int).no_duplicates());
                assert(!path@.contains(x)) by {
                    if path@.contains(x) {
                        let a = choose|a: int| 0 <= a < path@.len() && path@[a] == x;
                        assert(l[a] == l[path@.len() as int]);
                    }
                }
                assert(path@.no_duplicates()) by {
                    assert forall|a: int, b: int| 0 <= a < b < path@.len() implies path@[a] != path@[b] by {
                        assert(l[a] == path@[a] && l[b] == path@[b]);
                    }
                }
                self.lemma_label_in_header(p as int);
                let keys = header_items(self.header_table@);
                lemma_key_index(keys, x);
                assert(keys[h as int] == x);
                assert(in_key_order(keys, self.label_of(n as int)));
                assert forall|j: int| 0 <= j < path@.len() implies key_index(keys, #[trigger] path@[j]) < h by {
                    assert(l[j] == path@[j]);
                    assert(l[path@.len() as int] == x);
                }
            }
            if path.len() > 0 {
                let ghost before = r@;
                r.push((path, self.nodes[n].count));
                proof {
                    assert(weighted_view(r@) =~= weighted_view(before).push((path@, counts[n as int] as nat)));
                }
            }
            cur = self.nodes[n].node_link;
            proof {
                k = n + 1;
            }
        }
        proof {
            lemma_next_facts(items, x, k);
            lemma_pattern_base_skip(items, parents, counts, x, k, len);
            lemma_pattern_base_weight(items, parents, counts, x, len);
            assert(item_total(items, counts, x, len) <= self.total);
            reveal(FPTree::base_wf);
            assert forall|s: Seq<char>| s.len() > 0 implies #[trigger] weighted_support(weighted_view(r@), s)
                == weighted_support(project(self.paths@, x), s) by {
                assert(weighted_support(tree_base(*self, x), s) == weighted_support(project(self.paths@, x), s));
            }
        }
        r
    }
}

/// The header items, in table order, that `t` holds.
pub open spec fn present_in_order(keys: Seq<char>, t: Seq<char>) -> Seq<char>
    decreases keys.len(),
{
    if keys.len() == 0 {
        Seq::empty()
    } else {
        let prev = present_in_order(keys.drop_last(), t);
        if t.contains(keys.last()) {
            prev.push(keys.last())
        } else {
            prev
        }
    }
}

/// Each path of `db` cut down to the items of `keys`, in `keys` order, with
/// its weight; paths left empty are dropped.
pub open spec fn ordered_paths(keys: Seq<char>, db: Seq<(Seq<char>, nat)>) -> Seq<(Seq<char>, nat)>
    decreases db.len(),
{
    if db.len() == 0 {
        Seq::empty()
    } else {
        let prev = ordered_paths(keys, db.drop_last());
        let o = present_in_order(keys, db.last().0);
        if o.len() > 0 {
            prev.push((o, db.last().1))
        } else {
            prev
        }
    }
}

pub proof fn lemma_present_in_order(keys: Seq<char>, t: Seq<char>, y: char)
    ensures
        present_in_order(keys, t).contains(y) <==> keys.contains(y) && t.contains(y),
    decreases keys.len(),
{
    if keys.len() > 0 {
        lemma_present_in_order(keys.drop_last(), t, y);
        let prev = present_in_order(keys.drop_last(), t);
        if t.contains(keys.last()) {
            let q = prev.push(keys.last());
            if q.contains(y) {
                let k = choose|k: int| 0 <= k < q.len() && q[k] == y;
                if k < prev.len() {
                    assert(prev[k] == y);
                }
            }
            if prev.contains(y) {
                let k = choose|k: int| 0 <= k < prev.len() && prev[k] == y;
                assert(q[k] == y);
            }
            if y == keys.last() {
                assert(q[prev.len() as int] == y);
            }
        }
        if keys.contains(y) {
            let k = choose|k: int| 0 <= k < keys.len() && keys[k] == y;
            if k < keys.len() - 1 {
                assert(keys.drop_last()[k] == y);
            }
        }
        if keys.drop_last().contains(y) {
            let k = choose|k: int| 0 <= k < keys.len() - 1 && keys.drop_last()[k] == y;
            assert(keys[k] == y);
        }
    }
}

/// Cutting paths down to `keys` keeps the weighted support of any
/// non-empty itemset of `keys` items.
pub proof fn lemma_ordered_support(keys: Seq<char>, db: Seq<(Seq<char>, nat)>, u: Seq<char>)
    requires
        u.len() > 0,
        forall|j: int| 0 <= j < u.len() ==> keys.contains(#[trigger] u[j]),
    ensures
        weighted_support(ordered_paths(keys, db), u) == weighted_support(db, u),
    decreases db.len(),
{
    if db.len() > 0 {
        lemma_ordered_support(keys, db.drop_last(), u);
        let t = db.last().0;
        let o = present_in_order(keys, t);
        assert(holds_all(o, u) <==> holds_all(t, u)) by {
            if holds_all(o, u) {
                assert forall|j: int| 0 <= j < u.len() implies #[trigger] t.contains(u[j]) by {
                    lemma_present_in_order(keys, t, u[j]);
                }
            }
            if holds_all(t, u) {
                assert forall|j: int| 0 <= j < u.len() implies #[trigger] o.contains(u[j]) by {
                    lemma_present_in_order(keys, t, u[j]);
                }
            }
        }
        if o.len() > 0 {
            lemma_weighted_support_push(ordered_paths(keys, db.drop_last()), (o, db.last().1), u);
        } else if holds_all(t, u) {
            assert(t.contains(u[0]));
            lemma_present_in_order(keys, t, u[0]);
            assert(!o.contains(u[0]));
        }
    }
}

proof fn lemma_cut_holds(keys: Seq<char>, p: Seq<char>, x: char, s: Seq<char>)
    requires
        p.no_duplicates(),
        in_key_order(keys, p),
        forall|j: int| 0 <= j < s.len() ==> key_index(keys, #[trigger] s[j]) < key_index(keys, x),
    ensures
        (p.contains(x) && holds_all(cut_before(p, x), s)) <==> holds_all(p, s.push(x)),
{
    lemma_key_index(p, x);
    let kx = key_index(p, x);
    if p.contains(x) && holds_all(cut_before(p, x), s) {
        assert forall|j: int| 0 <= j < s.push(x).len() implies #[trigger] p.contains(s.push(x)[j]) by {
            if j < s.len() {
                assert(s.push(x)[j] == s[j]);
                assert(cut_before(p, x).contains(s[j]));
                let q = choose|q: int| 0 <= q < kx && cut_before(p, x)[q] == s[j];
                assert(p[q] == s[j]);
            } else {
                assert(s.push(x)[j] == x);
            }
        }
    }
    if holds_all(p, s.push(x)) {
        assert(s.push(x)[s.len() as int] == x);
        assert(p.contains(x));
        assert(p[kx] == x);
        assert forall|j: int| 0 <= j < s.len() implies #[trigger] cut_before(p, x).contains(s[j]) by {
            assert(s.push(x)[j] == s[j]);
            assert(p.contains(s[j]));
            let q = choose|q: int| 0 <= q < p.len() && p[q] == s[j];
            if q > kx {
                assert(key_index(keys, p[kx]) < key_index(keys, p[q]));
            }
            assert(q != kx);
            assert(cut_before(p, x)[q] == s[j]);
        }
    }
}

/// For paths that list distinct items in `keys` order, the projection on
/// `x` holds an itemset `s` whose items all come before `x` with the weight
/// that the paths hold `s` with `x` added.
pub proof fn lemma_project_support(keys: Seq<char>, paths: Seq<(Seq<char>, nat)>, x: char, s: Seq<char>)
    requires
        forall|j: int| 0 <= j < paths.len() ==> (#[trigger] paths[j]).0.no_duplicates() && in_key_order(keys, paths[j].0),
        forall|j: int| 0 <= j < s.len() ==> key_index(keys, #[trigger] s[j]) < key_index(keys, x),
    ensures
        weighted_support(project(paths, x), s) == weighted_support(paths, s.push(x)),
    decreases paths.len(),
{
    if paths.len() > 0 {
        let d = paths.drop_last();
        assert forall|j: int| 0 <= j < d.len() implies (#[trigger] d[j]).0.no_duplicates() && in_key_order(keys, d[j].0) by {
            assert(d[j] == paths[j]);
        }
        lemma_project_support(keys, d, x, s);
        let e = paths.last();
        assert(e == paths[paths.len() - 1]);
        lemma_cut_holds(keys, e.0, x, s);
        if e.0.contains(x) {
            lemma_weighted_support_push(project(d, x), (cut_before(e.0, x), e.1), s);
        }
    }
}

/// A copy of `t`.
pub fn copy_items(t: &Vec<char>) -> (r: Vec<char>)
    ensures
        r@ == t@,
{
    let mut r: Vec<char> = Vec::new();
    let mut i: usize = 0;
    while i < t.len()
        invariant
            0 <= i <= t.len(),
            r@ == t@.take(i as int),
        decreases t.len() - i,
    {
        r.push(t[i]);
        i = i + 1;
        assert(r@ =~= t@.take(i as int));
    }
    assert(t@.take(i as int) =~= t@);
    r
}

/// The items of `t` that the header table lists, in header-table order.
pub fn order_items(header: &Vec<HeaderTableEntry>, t: &Vec<char>) -> (r: Vec<char>)
    requires
        header_items(header@).no_duplicates(),
    ensures
        r@ == present_in_order(header_items(header@), t@),
        r@.no_duplicates(),
        in_key_order(header_items(header@), r@),
        forall|j: int|
            0 <= j < r@.len() ==> header_items(header@).contains(#[trigger] r@[j]) && t@.contains(
                r@[j],
            ),
{
    let ghost keys = header_items(header@);
    let mut r: Vec<char> = Vec::new();
    let mut i: usize = 0;
    while i < header.len()
        invariant
            0 <= i <= header.len(),
            keys == header_items(header@),
            keys.no_duplicates(),
            r@ == present_in_order(keys.take(i as int), t@),
            r@.no_duplicates(),
            in_key_order(keys, r@),
            forall|j: int| 0 <= j < r@.len() ==> key_index(keys, #[trigger] r@[j]) < i,
            forall|j: int|
                0 <= j < r@.len() ==> keys.take(i as int).contains(#[trigger] r@[j]) && t@.contains(
                    r@[j],
                ),
        decreases header.len() - i,
    {
        let x = header[i].item;
        assert(keys[i as int] == x);
        assert(keys.take(i + 1).drop_last() =~= keys.take(i as int));
        let ghost before = r@;
        proof {
            lemma_key_index(keys, x);
        }
        if crate::counter::contains_item(t, x) {
            proof {
                assert forall|j: int| 0 <= j < before.len() implies before[j] != x by {
                    let m = choose|m: int| 0 <= m < i && #[trigger] keys.take(i as int)[m] == before[j];
                    assert(keys[m] == keys[i as int] ==> m == i);
                }
            }
            r.push(x);
        }
        proof {
            assert forall|j: int| 0 <= j < r@.len() implies key_index(keys, #[trigger] r@[j]) < i + 1 by {
                if j < before.len() {
                    assert(r@[j] == before[j]);
                }
            }
            assert(in_key_order(keys, r@)) by {
                assert forall|a: int, b: int| 0 <= a < b < r@.len() implies key_index(keys, r@[a]) < key_index(keys, r@[b]) by {
                    assert(r@[a] == before[a]);
                    if b < before.len() {
                        assert(r@[b] == before[b]);
                    } else {
                        assert(key_index(keys, before[a]) < i);
                    }
                }
            }
            assert forall|j: int| 0 <= j < r@.len() implies keys.take(i + 1).contains(#[trigger] r@[j])
                && t@.contains(r@[j]) by {
                if j < before.len() {
                    assert(r@[j] == before[j]);
                    let m = choose|m: int| 0 <= m < i && #[trigger] keys.take(i as int)[m] == before[j];
                    assert(keys.take(i + 1)[m] == before[j]);
                } else {
                    assert(keys.take(i + 1)[i as int] == x);
                }
            }
        }
        i = i + 1;
    }
    proof {
        assert(keys.take(i as int) =~= keys);
        assert forall|j: int| 0 <= j < r@.len() implies keys.contains(#[trigger] r@[j]) && t@.contains(r@[j]) by {
            let m = choose|m: int| 0 <= m < i && #[trigger] keys.take(i as int)[m] == r@[j];
            assert(keys[m] == r@[j]);
        }
    }
    r
}

/// `prefix` with `x` put in its sorted place.
pub fn insert_sorted(prefix: &Vec<char>, x: char) -> (r: Vec<char>)
    requires
        strictly_sorted(prefix@),
        !prefix@.contains(x),
    ensures
        strictly_sorted(r@),
        r@.len() == prefix@.len() + 1,
        forall|y: char| r@.contains(y) <==> prefix@.contains(y) || y == x,
{
    let mut r: Vec<char> = Vec::new();
    let mut i: usize = 0;
    while i < prefix.len() && prefix[i] < x
        invariant
            0 <= i <= prefix.len(),
            strictly_sorted(prefix@),
            r@ == prefix@.take(i as int),
            forall|j: int| 0 <= j < i ==> prefix@[j] < x,
        decreases prefix.len() - i,
    {
        r.push(prefix[i]);
        i = i + 1;
        assert(r@ =~= prefix@.take(i as int));
    }
    let split = i;
    r.push(x);
    while i < prefix.len()
        invariant
            split <= i <= prefix.len(),
            strictly_sorted(prefix@),
            !prefix@.contains(x),
            forall|j: int| 0 <= j < split ==> prefix@[j] < x,
            split < prefix.len() ==> x < prefix@[split as int],
            r@ == prefix@.take(split as int).push(x) + prefix@.subrange(split as int, i as int),
        decreases prefix.len() - i,
    {
        proof {
            if i == split {
                assert(prefix@[split as int] != x);
            }
        }
        r.push(prefix[i]);
        i = i + 1;
        assert(r@ =~= prefix@.take(split as int).push(x) + prefix@.subrange(split as int, i as int));
    }
    proof {
        if split < prefix.len() {
            assert(prefix@[split as int] != x);
        }
        let a = prefix@.take(split as int);
        let b = prefix@.subrange(split as int, prefix@.len() as int);
        assert(r@ =~= a.push(x) + b);
        assert forall|p: int, q: int| 0 <= p < q < r@.len() implies r@[p] < r@[q] by {
            if q < split {
                assert(r@[p] == prefix@[p] && r@[q] == prefix@[q]);
            } else if q == split {
                assert(r@[p] == prefix@[p]);
            } else if p == split {
                assert(r@[q] == prefix@[q - 1]);
                if q - 1 > split {
                    assert(prefix@[split as int] < prefix@[q - 1]);
                }
            } else if p < split {
                assert(r@[p] == prefix@[p] && r@[q] == prefix@[q - 1]);
            } else {
                assert(r@[p] == prefix@[p - 1] && r@[q] == prefix@[q - 1]);
            }
        }
        assert forall|y: char| r@.contains(y) <==> prefix@.contains(y) || y == x by {
            if r@.contains(y) {
                let k = choose|k: int| 0 <= k < r@.len() && r@[k] == y;
                if k < split {
                    assert(prefix@[k] == y);
                } else if k > split {
                    assert(prefix@[k - 1] == y);
                }
            }
            if prefix@.contains(y) {
                let k = choose|k: int| 0 <= k < prefix@.len() && prefix@[k] == y;
                if k < split {
                    assert(r@[k] == y);
                } else {
                    assert(r@[k + 1] == y);
                }
            }
            if y == x {
                assert(r@[split as int] == x);
            }
        }
    }
    r
}

impl FPTree {
    /// Some node of the tree has exactly the path `p` from the root.
    pub open spec fn holds_path(&self, p: Seq<char>) -> bool {
        exists|n: int| 0 <= n < self.nodes@.len() && #[trigger] self.label_of(n) == p
    }

    /// Builds a tree from weighted paths: the header table is the frequency
    /// counter's result, and each path, cut down to header items in header
    /// order, is inserted with its weight when it is not empty.
    pub fn build_weighted(db: &Vec<(Vec<char>, usize)>, min_support: usize) -> (r: FPTree)
        requires
            total_weight(weighted_view(db@)) <= usize::MAX,
        ensures
            r.wf(),
            frequent_items(weighted_view(db@), min_support, header_keys(r.header_table@)),
            r.total <= total_weight(weighted_view(db@)),
            forall|j: int|
                0 <= j < db@.len() ==> #[trigger] present_in_order(header_items(r.header_table@), db@[j].0@).len() > 0
                    ==> r.holds_path(present_in_order(header_items(r.header_table@), db@[j].0@)),
            r.paths@ == ordered_paths(header_items(r.header_table@), weighted_view(db@)),
            forall|h: int|
                0 <= h < r.header_table@.len() ==> (#[trigger] r.header_table@[h]).support as nat
                    == weighted_support(r.paths@, seq![r.header_table@[h].item]),
            forall|h: int|
                0 <= h < r.header_table@.len() ==> item_total(items_of(r.nodes@), counts_of(r.nodes@), (#[trigger] r.header_table@[h]).item, r.nodes@.len() as int)
                    == r.header_table@[h].support as nat,
            forall|n: int|
                0 < n < r.nodes@.len() ==> (#[trigger] r.nodes@[n]).count as nat == crate::tree::prefix_weight(r.paths@, r.label_of(n)),
            forall|n: int| 0 < n < r.nodes@.len() ==> crate::tree::on_some_path(r.paths@, #[trigger] r.label_of(n)),
    {
        let ghost wv = weighted_view(db@);
        let keys = count_items(db, min_support);
        let mut tree = FPTree::with_header(&keys);
        let ghost hk = header_items(tree.header_table@);
        proof {
            assert(hk =~= keys@.map_values(|e: (char, usize)| e.0));
            assert(hk.no_duplicates()) by {
                assert forall|a: int, b: int| 0 <= a < hk.len() && 0 <= b < hk.len() && a != b implies hk[a] != hk[b] by {
                    if a < b {
                        assert(crate::counter::ranked_before(keys@[a], keys@[b]));
                    } else {
                        assert(crate::counter::ranked_before(keys@[b], keys@[a]));
                    }
                }
            }
        }
        let mut i: usize = 0;
        proof {
            assert(wv.take(0).len() == 0);
            assert(tree.paths@ =~= ordered_paths(hk, wv.take(0)));
        }
        while i < db.len()
            invariant
                0 <= i <= db.len(),
                wv == weighted_view(db@),
                total_weight(wv) <= usize::MAX,
                tree.wf(),
                header_keys(tree.header_table@) == keys@,
                hk == header_items(tree.header_table@),
                hk.no_duplicates(),
                tree.total <= total_weight(wv.take(i as int)),
                tree.paths@ == ordered_paths(hk, wv.take(i as int)),
                forall|j: int|
                    0 <= j < i ==> #[trigger] present_in_order(hk, db@[j].0@).len() > 0 ==> tree.holds_path(
                        present_in_order(hk, db@[j].0@),
                    ),
            decreases db.len() - i,
        {
            proof {
                assert(wv.take(i + 1).drop_last() =~= wv.take(i as int));
                lemma_total_weight_prefix(wv, i + 1);
                assert(wv[i as int].1 == db@[i as int].1);
                assert(wv.take(i + 1).last() == wv[i as int]);
                assert(wv[i as int].0 == db@[i as int].0@);
            }
            let ordered = order_items(&tree.header_table, &db[i].0);
            if ordered.len() > 0 {
                let ghost before = tree;
                tree.add_transaction(ordered, db[i].1);
                proof {
                    assert(hk =~= header_keys(tree.header_table@).map_values(|e: (char, usize)| e.0));
                    assert forall|j: int|
                        0 <= j < i + 1 implies #[trigger] present_in_order(hk, db@[j].0@).len() > 0 ==> tree.holds_path(
                            present_in_order(hk, db@[j].0@),
                        ) by {
                        if j < i && present_in_order(hk, db@[j].0@).len() > 0 {
                            let n = choose|n: int| 0 <= n < before.nodes@.len() && #[trigger] before.label_of(n)
                                == present_in_order(hk, db@[j].0@);
                            assert(tree.label_of(n) == before.label_of(n));
                        }
                    }
                }
            }
            i = i + 1;
        }
        proof {
            assert(wv.take(i as int) =~= wv);
            assert forall|h: int| 0 <= h < tree.header_table@.len() implies (#[trigger] tree.header_table@[h]).support as nat
                == weighted_support(tree.paths@, seq![tree.header_table@[h].item]) by {
                let e = header_keys(tree.header_table@)[h];
                assert(e == (tree.header_table@[h].item, tree.header_table@[h].support));
                assert(occurs(wv, e.0));
                assert(hk[h] == e.0);
                assert(hk.contains(e.0));
                assert forall|j: int| 0 <= j < seq![e.0].len() implies hk.contains(#[trigger] seq![e.0][j]) by {
                    assert(seq![e.0][j] == e.0);
                }
                lemma_ordered_support(hk, wv, seq![e.0]);
            }
            reveal(FPTree::base_wf);
            assert forall|h: int| 0 <= h < tree.header_table@.len() implies item_total(items_of(tree.nodes@), counts_of(tree.nodes@),
                (#[trigger] tree.header_table@[h]).item, tree.nodes@.len() as int) == tree.header_table@[h].support as nat by {
                assert(tree.header_table@[h].support as nat == weighted_support(tree.paths@, seq![tree.header_table@[h].item]));
            }
            assert forall|n: int| 0 < n < tree.nodes@.len() implies (#[trigger] tree.nodes@[n]).count as nat
                == crate::tree::prefix_weight(tree.paths@, tree.label_of(n)) by {
            }
            assert forall|n: int| 0 < n < tree.nodes@.len() implies crate::tree::on_some_path(tree.paths@, #[trigger] tree.label_of(n)) by {
            }
        }
        tree
    }

    /// Builds the tree of `transactions` at threshold `min_support`: the
    /// header table lists the items held by at least `min_support`
    /// transactions, and each transaction, cut down to those items in
    /// header order, is inserted with weight one.
    pub fn build(&mut self, transactions: &Vec<Vec<char>>, min_support: usize)
        ensures
            final(self).wf(),
            frequent_items(
                unit_weights(transactions_view(transactions@)),
                min_support,
                header_keys(final(self).header_table@),
            ),
            final(self).total <= transactions@.len(),
            forall|j: int|
                0 <= j < transactions@.len() ==> #[trigger] present_in_order(
                    header_items(final(self).header_table@),
                    transactions@[j]@,
                ).len() > 0 ==> final(self).holds_path(
                    present_in_order(header_items(final(self).header_table@), transactions@[j]@),
                ),
            final(self).paths@ == ordered_paths(
                header_items(final(self).header_table@),
                unit_weights(transactions_view(transactions@)),
            ),
            forall|h: int|
                0 <= h < final(self).header_table@.len() ==> (#[trigger] final(self).header_table@[h]).support as nat
                    == weighted_support(final(self).paths@, seq![final(self).header_table@[h].item]),
            forall|h: int|
                0 <= h < final(self).header_table@.len() ==> item_total(items_of(final(self).nodes@), counts_of(final(self).nodes@),
                    (#[trigger] final(self).header_table@[h]).item, final(self).nodes@.len() as int)
                    == final(self).header_table@[h].support as nat,
            forall|n: int|
                0 < n < final(self).nodes@.len() ==> (#[trigger] final(self).nodes@[n]).count as nat == crate::tree::prefix_weight(
                    final(self).paths@,
                    final(self).label_of(n),
                ),
            forall|n: int| 0 < n < final(self).nodes@.len() ==> crate::tree::on_some_path(final(self).paths@, #[trigger] final(self).label_of(n)),
            forall|n: int| 0 < n < final(self).nodes@.len() ==> (#[trigger] final(self).nodes@[n]).count >= 1,
    {
        let ghost tv = transactions_view(transactions@);
        let mut db: Vec<(Vec<char>, usize)> = Vec::new();
        let mut i: usize = 0;
        while i < transactions.len()
            invariant
                0 <= i <= transactions.len(),
                tv == transactions_view(transactions@),
                db@.len() == i,
                weighted_view(db@) =~= unit_weights(tv.take(i as int)),
                forall|j: int| 0 <= j < i ==> (#[trigger] db@[j]).0@ == transactions@[j]@,
            decreases transactions.len() - i,
        {
            let ghost before = db@;
            db.push((copy_items(&transactions[i]), 1));
            proof {
                assert(weighted_view(db@) =~= weighted_view(before).push((transactions@[i as int]@, 1nat)));
                assert(tv.take(i + 1) =~= tv.take(i as int).push(transactions@[i as int]@));
                assert(unit_weights(tv.take(i + 1)) =~= unit_weights(tv.take(i as int)).push((transactions@[i as int]@, 1nat)));
            }
            i = i + 1;
        }
        proof {
            assert(tv.take(i as int) =~= tv);
            crate::itemset::lemma_unit_weights(tv, Seq::empty());
            assert(tv.len() == transactions@.len());
        }
        let tree = FPTree::build_weighted(&db, min_support);
        *self = tree;
        proof {
            assert forall|j: int|
                0 <= j < transactions@.len() implies #[trigger] present_in_order(
                    header_items(self.header_table@),
                    transactions@[j]@,
                ).len() > 0 ==> self.holds_path(
                    present_in_order(header_items(self.header_table@), transactions@[j]@),
                ) by {
                assert(db@[j].0@ == transactions@[j]@);
            }
            let ps = self.paths@;
            lemma_ordered_unit_weights(header_items(self.header_table@), tv);
            assert forall|n: int| 0 < n < self.nodes@.len() implies (#[trigger] self.nodes@[n]).count >= 1 by {
                assert(crate::tree::on_some_path(ps, self.label_of(n)));
                let j = choose|j: int| 0 <= j < ps.len() && crate::tree::is_prefix(self.label_of(n), #[trigger] ps[j].0);
                lemma_prefix_weight_at_least(ps, self.label_of(n), j);
            }
        }
    }
}

proof fn lemma_ordered_unit_weights(keys: Seq<char>, tv: Seq<Seq<char>>)
    ensures
        forall|j: int| 0 <= j < ordered_paths(keys, unit_weights(tv)).len() ==> (#[trigger] ordered_paths(keys, unit_weights(tv))[j]).1 == 1,
    decreases tv.len(),
{
    if tv.len() > 0 {
        assert(unit_weights(tv).drop_last() =~= unit_weights(tv.drop_last()));
        lemma_ordered_unit_weights(keys, tv.drop_last());
        let prev = ordered_paths(keys, unit_weights(tv.drop_last()));
        let cur = ordered_paths(keys, unit_weights(tv));
        assert forall|j: int| 0 <= j < cur.len() implies (#[trigger] cur[j]).1 == 1 by {
            if j < prev.len() {
                assert(cur[j] == prev[j]);
            }
        }
    }
}

proof fn lemma_prefix_weight_at_least(paths: Seq<(Seq<char>, nat)>, q: Seq<char>, j: int)
    requires
        0 <= j < paths.len(),
        crate::tree::is_prefix(q, paths[j].0),
    ensures
        crate::tree::prefix_weight(paths, q) >= paths[j].1,
    decreases paths.len(),
{
    if j < paths.len() - 1 {
        assert(paths.drop_last()[j] == paths[j]);
        lemma_prefix_weight_at_least(paths.drop_last(), q, j);
    }
}

/// A mined record extends `prefix` with items of `keys`: its items are
/// strictly sorted, it holds every item of `prefix` and more, each of its items
/// is in `prefix` or in `keys`, and its support reaches `min_support`.
pub open spec fn extends(
    items: Seq<char>,
    support: usize,
    prefix: Seq<char>,
    keys: Seq<char>,
    min_support: usize,
) -> bool {
    &&& strictly_sorted(items)
    &&& items.len() > prefix.len()
    &&& forall|j: int| 0 <= j < prefix.len() ==> items.contains(#[trigger] prefix[j])
    &&& forall|j: int| 0 <= j < items.len() ==> prefix.contains(#[trigger] items[j]) || keys.contains(items[j])
    &&& support >= min_support
}

/// Some record of `r` from index `lo` on is `prefix` with the item of `e`
/// added, with the support of `e`.
pub open spec fn emitted(r: Seq<(Vec<char>, usize)>, lo: int, prefix: Seq<char>, e: HeaderTableEntry) -> bool {
    exists|k: int| lo <= k < r.len() && adds_one((#[trigger] r[k]).0@, prefix, e.item) && r[k].1 == e.support
}

/// Some record of `r` is the single item of `e`, with the support of `e`.
pub open spec fn emitted_single(r: Seq<(Vec<char>, usize)>, e: HeaderTableEntry) -> bool {
    exists|i: int| 0 <= i < r.len() && (#[trigger] r[i]).0@ == seq![e.item] && r[i].1 == e.support
}

/// `items` is `prefix` with `x` added, as a set.
pub open spec fn adds_one(items: Seq<char>, prefix: Seq<char>, x: char) -> bool {
    forall|y: char| items.contains(y) <==> prefix.contains(y) || y == x
}

proof fn lemma_fewer_items(small: Seq<char>, big: Seq<char>, x: char)
    requires
        small.no_duplicates(),
        big.no_duplicates(),
        big.contains(x),
        forall|j: int| 0 <= j < small.len() ==> big.contains(#[trigger] small[j]) && small[j] != x,
    ensures
        small.len() < big.len(),
{
    small.unique_seq_to_set();
    big.unique_seq_to_set();
    let bs = big.to_set().remove(x);
    assert(small.to_set().subset_of(bs)) by {
        assert forall|y: char| small.to_set().contains(y) implies bs.contains(y) by {
            let j = choose|j: int| 0 <= j < small.len() && small[j] == y;
            assert(big.contains(small[j]));
        }
    }
    vstd::set_lib::lemma_len_subset(small.to_set(), bs);
    assert(big.to_set().contains(x));
}

/// The highest header position among the items of `items`, or -1 when
/// the header lists none of them.
pub open spec fn top_index(keys: Seq<char>, items: Seq<char>) -> int
    decreases items.len(),
{
    if items.len() == 0 {
        -1
    } else {
        let rest = top_index(keys, items.drop_last());
        let last = key_index(keys, items.last());
        if rest >= last {
            rest
        } else {
            last
        }
    }
}

proof fn lemma_top_index_bounds(keys: Seq<char>, items: Seq<char>, b: int)
    requires
        forall|j: int| 0 <= j < items.len() ==> key_index(keys, #[trigger] items[j]) <= b,
        b >= -1,
    ensures
        top_index(keys, items) <= b,
        forall|j: int| 0 <= j < items.len() ==> key_index(keys, #[trigger] items[j]) <= top_index(keys, items),
    decreases items.len(),
{
    if items.len() > 0 {
        let d = items.drop_last();
        assert forall|j: int| 0 <= j < d.len() implies key_index(keys, #[trigger] d[j]) <= b by {
            assert(d[j] == items[j]);
        }
        lemma_top_index_bounds(keys, d, b);
        assert forall|j: int| 0 <= j < items.len() implies key_index(keys, #[trigger] items[j]) <= top_index(keys, items) by {
            if j < d.len() {
                assert(d[j] == items[j]);
            }
        }
    }
}

proof fn lemma_top_index_ge(keys: Seq<char>, items: Seq<char>)
    ensures
        forall|j: int| 0 <= j < items.len() ==> key_index(keys, #[trigger] items[j]) <= top_index(keys, items),
    decreases items.len(),
{
    if items.len() > 0 {
        let d = items.drop_last();
        lemma_top_index_ge(keys, d);
        assert forall|j: int| 0 <= j < items.len() implies key_index(keys, #[trigger] items[j]) <= top_index(keys, items) by {
            if j < d.len() {
                assert(d[j] == items[j]);
            }
        }
    }
}

/// The records of the branch of the header item at position `i` reach
/// exactly position `i`.
proof fn lemma_branch_top(keys: Seq<char>, prefix: Seq<char>, x: char, i: int, items: Seq<char>)
    requires
        keys.no_duplicates(),
        0 <= i < keys.len(),
        keys[i] == x,
        forall|q: int| 0 <= q < prefix.len() ==> !keys.contains(#[trigger] prefix[q]),
        items.contains(x),
        forall|j: int|
            0 <= j < items.len() ==> prefix.contains(#[trigger] items[j]) || items[j] == x || key_index(keys, items[j]) < i,
    ensures
        top_index(keys, items) == i,
{
    lemma_key_index(keys, x);
    assert forall|j: int| 0 <= j < items.len() implies key_index(keys, #[trigger] items[j]) <= i by {
        lemma_key_index(keys, items[j]);
        if prefix.contains(items[j]) {
            let q = choose|q: int| 0 <= q < prefix.len() && prefix[q] == items[j];
            assert(!keys.contains(prefix[q]));
        }
    }
    lemma_top_index_bounds(keys, items, i);
    let j = choose|j: int| 0 <= j < items.len() && items[j] == x;
    assert(key_index(keys, items[j]) <= top_index(keys, items));
}

pub proof fn lemma_len_within(small: Seq<char>, big: Seq<char>)
    requires
        small.no_duplicates(),
        forall|j: int| 0 <= j < small.len() ==> big.contains(#[trigger] small[j]),
    ensures
        small.len() <= big.len(),
{
    small.unique_seq_to_set();
    big.lemma_cardinality_of_set();
    assert(small.to_set().subset_of(big.to_set())) by {
        assert forall|y: char| small.to_set().contains(y) implies big.to_set().contains(y) by {
            let j = choose|j: int| 0 <= j < small.len() && small[j] == y;
            assert(big.contains(small[j]));
        }
    }
    vstd::set_lib::lemma_len_subset(small.to_set(), big.to_set());
}

proof fn lemma_sorted_no_dup(s: Seq<char>)
    requires
        strictly_sorted(s),
    ensures
        s.no_duplicates(),
{
    assert forall|a: int, b: int| 0 <= a < s.len() && 0 <= b < s.len() && a != b implies s[a] != s[b] by {
        if a > b {
            assert(s[b] < s[a]);
        }
    }
}

/// The record `prefix` with `x` added has, past its prefix, the single item `x`.
proof fn lemma_first_support(paths: Seq<(Seq<char>, nat)>, prefix: Seq<char>, new_prefix: Seq<char>, x: char)
    requires
        forall|y: char| new_prefix.contains(y) <==> prefix.contains(y) || y == x,
        !prefix.contains(x),
    ensures
        weighted_support(paths, items_without(new_prefix, prefix)) == weighted_support(paths, seq![x]),
{
    assert forall|y: char| items_without(new_prefix, prefix).contains(y) <==> seq![x].contains(y) by {
        lemma_items_without(new_prefix, prefix, y);
        if y == x {
            assert(seq![x][0] == x);
        }
    }
    lemma_weighted_support_same_items(paths, items_without(new_prefix, prefix), seq![x]);
}

/// A record mined from the conditional tree of `x` has, past `prefix`, the
/// weighted support in the paths of the tree of `x` that its conditional
/// support stood for.
proof fn lemma_child_support(
    keys: Seq<char>,
    paths: Seq<(Seq<char>, nat)>,
    prefix: Seq<char>,
    new_prefix: Seq<char>,
    x: char,
    i: int,
    ck: Seq<char>,
    bv: Seq<(Seq<char>, nat)>,
    cond_paths: Seq<(Seq<char>, nat)>,
    it: Seq<char>,
    sup: usize,
    min_support: usize,
)
    requires
        keys.no_duplicates(),
        0 <= i < keys.len(),
        keys[i] == x,
        forall|j: int| 0 <= j < paths.len() ==> (#[trigger] paths[j]).0.no_duplicates() && in_key_order(keys, paths[j].0),
        forall|y: char| new_prefix.contains(y) <==> prefix.contains(y) || y == x,
        !prefix.contains(x),
        strictly_sorted(new_prefix),
        forall|q: int| 0 <= q < ck.len() ==> key_index(keys, #[trigger] ck[q]) < i,
        cond_paths == ordered_paths(ck, bv),
        forall|s: Seq<char>| s.len() > 0 ==> #[trigger] weighted_support(bv, s) == weighted_support(project(paths, x), s),
        extends(it, sup, new_prefix, ck, min_support),
        sup as nat == weighted_support(cond_paths, items_without(it, new_prefix)),
    ensures
        sup as nat == weighted_support(paths, items_without(it, prefix)),
{
    let u = items_without(it, new_prefix);
    lemma_sorted_no_dup(it);
    assert(u.len() > 0) by {
        if u.len() == 0 {
            assert forall|j: int| 0 <= j < it.len() implies new_prefix.contains(#[trigger] it[j]) by {
                lemma_items_without(it, new_prefix, it[j]);
                assert(it.contains(it[j]));
                if !new_prefix.contains(it[j]) {
                    assert(u.contains(it[j]));
                }
            }
            lemma_len_within(it, new_prefix);
        }
    }
    assert forall|j: int| 0 <= j < u.len() implies ck.contains(#[trigger] u[j]) by {
        assert(u.contains(u[j]));
        lemma_items_without(it, new_prefix, u[j]);
        let q = choose|q: int| 0 <= q < it.len() && it[q] == u[j];
        assert(new_prefix.contains(it[q]) || ck.contains(it[q]));
    }
    lemma_ordered_support(ck, bv, u);
    assert(weighted_support(bv, u) == weighted_support(project(paths, x), u));
    lemma_key_index(keys, x);
    assert forall|j: int| 0 <= j < u.len() implies key_index(keys, #[trigger] u[j]) < key_index(keys, x) by {
        assert(ck.contains(u[j]));
        let q = choose|q: int| 0 <= q < ck.len() && ck[q] == u[j];
        assert(key_index(keys, ck[q]) < i);
    }
    lemma_project_support(keys, paths, x, u);
    assert(new_prefix.contains(x));
    let qx = choose|qx: int| 0 <= qx < new_prefix.len() && new_prefix[qx] == x;
    assert(it.contains(new_prefix[qx]));
    assert forall|y: char| u.push(x).contains(y) <==> items_without(it, prefix).contains(y) by {
        lemma_items_without(it, new_prefix, y);
        lemma_items_without(it, prefix, y);
        if u.push(x).contains(y) {
            let k = choose|k: int| 0 <= k < u.push(x).len() && u.push(x)[k] == y;
            if k < u.len() {
                assert(u[k] == y);
            }
        }
        if items_without(it, prefix).contains(y) {
            if y == x {
                assert(u.push(x)[u.len() as int] == x);
            } else {
                assert(u.contains(y));
                let k = choose|k: int| 0 <= k < u.len() && u[k] == y;
                assert(u.push(x)[k] == y);
            }
        }
    }
    lemma_weighted_support_same_items(paths, u.push(x), items_without(it, prefix));
}

/// `items` holds exactly the items of `prefix` and of `s`.
pub open spec fn joins(items: Seq<char>, prefix: Seq<char>, s: Seq<char>) -> bool {
    forall|y: char| items.contains(y) <==> prefix.contains(y) || s.contains(y)
}

/// Some record of `r` from index `lo` on holds exactly the items of
/// `prefix` and of `s`.
pub open spec fn found(r: Seq<(Vec<char>, usize)>, lo: int, prefix: Seq<char>, s: Seq<char>) -> bool {
    exists|k: int| lo <= k < r.len() && joins((#[trigger] r[k]).0@, prefix, s)
}

/// `s` is a non-empty itemset of `keys` items that `paths` hold with a
/// positive weight of at least `min_support`.
pub open spec fn minable(paths: Seq<(Seq<char>, nat)>, keys: Seq<char>, s: Seq<char>, min_support: usize) -> bool {
    &&& s.len() > 0
    &&& forall|j: int| 0 <= j < s.len() ==> keys.contains(#[trigger] s[j])
    &&& weighted_support(paths, s) >= min_support
    &&& weighted_support(paths, s) > 0
}

proof fn lemma_top_attained(keys: Seq<char>, s: Seq<char>)
    requires
        s.len() > 0,
    ensures
        exists|j: int| 0 <= j < s.len() && key_index(keys, #[trigger] s[j]) == top_index(keys, s),
    decreases s.len(),
{
    let d = s.drop_last();
    if d.len() > 0 {
        lemma_top_attained(keys, d);
        let j = choose|j: int| 0 <= j < d.len() && key_index(keys, #[trigger] d[j]) == top_index(keys, d);
        assert(s[j] == d[j]);
        if top_index(keys, d) < key_index(keys, s.last()) {
            assert(s[s.len() - 1] == s.last());
        }
    } else {
        assert(top_index(keys, d) == -1);
        lemma_key_index(keys, s.last());
        assert(s[s.len() - 1] == s.last());
    }
}

/// An itemset whose highest header position is that of `x` is `x` together
/// with items that all come before `x`.
proof fn lemma_branch_split(keys: Seq<char>, x: char, i: int, s: Seq<char>)
    requires
        keys.no_duplicates(),
        0 <= i < keys.len(),
        keys[i] == x,
        s.len() > 0,
        forall|j: int| 0 <= j < s.len() ==> keys.contains(#[trigger] s[j]),
        top_index(keys, s) == i,
    ensures
        s.contains(x),
        forall|y: char| s.contains(y) <==> items_without(s, seq![x]).contains(y) || y == x,
        forall|j: int| 0 <= j < items_without(s, seq![x]).len() ==> key_index(keys, #[trigger] items_without(s, seq![x])[j]) < i,
{
    let s2 = items_without(s, seq![x]);
    lemma_top_attained(keys, s);
    let j0 = choose|j: int| 0 <= j < s.len() && key_index(keys, #[trigger] s[j]) == top_index(keys, s);
    lemma_key_index(keys, s[j0]);
    assert(s[j0] == x);
    lemma_top_index_ge(keys, s);
    assert forall|y: char| s.contains(y) <==> s2.contains(y) || y == x by {
        lemma_items_without(s, seq![x], y);
        if seq![x].contains(y) {
            let q = choose|q: int| 0 <= q < 1 && seq![x][q] == y;
            assert(seq![x][q] == x);
        }
        if y != x {
            assert(!seq![x].contains(y)) by {
                if seq![x].contains(y) {
                    let q = choose|q: int| 0 <= q < 1 && seq![x][q] == y;
                }
            }
        }
    }
    assert forall|j: int| 0 <= j < s2.len() implies key_index(keys, #[trigger] s2[j]) < i by {
        assert(s2.contains(s2[j]));
        lemma_items_without(s, seq![x], s2[j]);
        assert(!seq![x].contains(s2[j]) ==> s2[j] != x) by {
            if s2[j] == x {
                assert(seq![x][0] == x);
            }
        }
        let q = choose|q: int| 0 <= q < s.len() && s[q] == s2[j];
        assert(key_index(keys, s[q]) <= top_index(keys, s));
        lemma_key_index(keys, s2[j]);
        if key_index(keys, s2[j]) == i {
            assert(s2[j] == x);
            assert(seq![x][0] == x);
        }
    }
}

/// The rest of a minable itemset past `x` is minable in the conditional tree
/// of `x`.
proof fn lemma_cond_minable(
    keys: Seq<char>,
    paths: Seq<(Seq<char>, nat)>,
    x: char,
    i: int,
    s: Seq<char>,
    s2: Seq<char>,
    ck: Seq<char>,
    bv: Seq<(Seq<char>, nat)>,
    cond_paths: Seq<(Seq<char>, nat)>,
    min_support: usize,
)
    requires
        forall|j: int| 0 <= j < paths.len() ==> (#[trigger] paths[j]).0.no_duplicates() && in_key_order(keys, paths[j].0),
        keys.no_duplicates(),
        0 <= i < keys.len(),
        keys[i] == x,
        s2.len() > 0,
        forall|j: int| 0 <= j < s2.len() ==> key_index(keys, #[trigger] s2[j]) < i,
        forall|y: char| s.contains(y) <==> s2.contains(y) || y == x,
        weighted_support(paths, s) >= min_support,
        weighted_support(paths, s) > 0,
        forall|u: Seq<char>| u.len() > 0 ==> #[trigger] weighted_support(bv, u) == weighted_support(project(paths, x), u),
        cond_paths == ordered_paths(ck, bv),
        forall|y: char| occurs(bv, y) && weighted_support(bv, seq![y]) >= min_support ==> ck.contains(y),
    ensures
        minable(cond_paths, ck, s2, min_support),
{
    lemma_key_index(keys, x);
    lemma_project_support(keys, paths, x, s2);
    assert forall|y: char| s2.push(x).contains(y) <==> s.contains(y) by {
        if s2.push(x).contains(y) {
            let k = choose|k: int| 0 <= k < s2.push(x).len() && s2.push(x)[k] == y;
            if k < s2.len() {
                assert(s2[k] == y);
            }
        }
        if s.contains(y) {
            if y == x {
                assert(s2.push(x)[s2.len() as int] == x);
            } else {
                let k = choose|k: int| 0 <= k < s2.len() && s2[k] == y;
                assert(s2.push(x)[k] == y);
            }
        }
    }
    lemma_weighted_support_same_items(paths, s2.push(x), s);
    assert(weighted_support(bv, s2) == weighted_support(paths, s));
    assert forall|j: int| 0 <= j < s2.len() implies ck.contains(#[trigger] s2[j]) by {
        let y = s2[j];
        assert forall|q: int| 0 <= q < seq![y].len() implies #[trigger] s2.contains(seq![y][q]) by {
            assert(seq![y][q] == y);
        }
        lemma_weighted_support_subset(bv, seq![y], s2);
        lemma_positive_support_occurs(bv, y);
    }
    lemma_ordered_support(ck, bv, s2);
}

/// A minable itemset whose highest header position is that of `x` is found
/// in the branch of `x`: as the branch's first record, or among the records
/// of the conditional tree.
proof fn lemma_branch_found(
    keys: Seq<char>,
    paths: Seq<(Seq<char>, nat)>,
    prefix: Seq<char>,
    np: Seq<char>,
    x: char,
    i: int,
    s: Seq<char>,
    ck: Seq<char>,
    bv: Seq<(Seq<char>, nat)>,
    cond_paths: Seq<(Seq<char>, nat)>,
    min_support: usize,
    r: Seq<(Vec<char>, usize)>,
    lo: int,
    nr: int,
    lo_child: int,
)
    requires
        keys.no_duplicates(),
        0 <= i < keys.len(),
        keys[i] == x,
        forall|j: int| 0 <= j < paths.len() ==> (#[trigger] paths[j]).0.no_duplicates() && in_key_order(keys, paths[j].0),
        minable(paths, keys, s, min_support),
        top_index(keys, s) == i,
        forall|y: char| np.contains(y) <==> prefix.contains(y) || y == x,
        forall|u: Seq<char>| u.len() > 0 ==> #[trigger] weighted_support(bv, u) == weighted_support(project(paths, x), u),
        cond_paths == ordered_paths(ck, bv),
        forall|y: char| occurs(bv, y) && weighted_support(bv, seq![y]) >= min_support ==> ck.contains(y),
        lo <= nr < r.len(),
        r[nr].0@ == np,
        lo <= lo_child,
        forall|s2: Seq<char>| #[trigger] minable(cond_paths, ck, s2, min_support) ==> found(r, lo_child, np, s2),
    ensures
        found(r, lo, prefix, s),
{
    lemma_branch_split(keys, x, i, s);
    let s2 = items_without(s, seq![x]);
    if s2.len() == 0 {
        assert forall|y: char| r[nr].0@.contains(y) <==> prefix.contains(y) || s.contains(y) by {
            if s2.contains(y) {
                let q = choose|q: int| 0 <= q < s2.len() && s2[q] == y;
            }
        }
        assert(joins(r[nr].0@, prefix, s));
    } else {
        lemma_cond_minable(keys, paths, x, i, s, s2, ck, bv, cond_paths, min_support);
        assert(found(r, lo_child, np, s2));
        let k = choose|k: int| lo_child <= k < r.len() && joins((#[trigger] r[k]).0@, np, s2);
        assert(joins(r[k].0@, prefix, s));
    }
}

impl FPTree {
    /// The recursive miner. For each header item `x`, from the last entry to
    /// the first, emits `prefix` with `x` added and the header support of `x`,
    /// then builds the conditional tree of `x` from its pattern base and,
    /// when that tree lists any item, mines it with the extended prefix.
    #[verifier::rlimit(80)]
    pub fn fp_growth(&self, prefix: Vec<char>, min_support: usize, result: &mut Vec<(Vec<char>, usize)>)
        requires
            self.wf(),
            strictly_sorted(prefix@),
            forall|h: int| 0 <= h < self.header_table@.len() ==> !prefix@.contains(#[trigger] self.header_table@[h].item),
            forall|h: int| 0 <= h < self.header_table@.len() ==> (#[trigger] self.header_table@[h]).support >= min_support,
            forall|h: int|
                0 <= h < self.header_table@.len() ==> (#[trigger] self.header_table@[h]).support as nat
                    == weighted_support(self.paths@, seq![self.header_table@[h].item]),
        ensures
            old(result)@.len() <= final(result)@.len(),
            forall|k: int|
                old(result)@.len() <= k < final(result)@.len() ==> (#[trigger] final(result)@[k]).1 as nat
                    == weighted_support(self.paths@, items_without(final(result)@[k].0@, prefix@)),
            forall|s: Seq<char>|
                #[trigger] minable(self.paths@, header_items(self.header_table@), s, min_support) ==> found(
                    final(result)@,
                    old(result)@.len() as int,
                    prefix@,
                    s,
                ),
            final(result)@.take(old(result)@.len() as int) == old(result)@,
            forall|i: int|
                old(result)@.len() <= i < final(result)@.len() ==> extends(
                    (#[trigger] final(result)@[i]).0@,
                    final(result)@[i].1,
                    prefix@,
                    header_items(self.header_table@),
                    min_support,
                ),
            forall|h: int|
                0 <= h < self.header_table@.len() ==> emitted(final(result)@, old(result)@.len() as int, prefix@, #[trigger] self.header_table@[h]),
            forall|k1: int, k2: int|
                old(result)@.len() <= k1 < k2 < final(result)@.len() ==> (#[trigger] final(result)@[k1]).0@
                    != (#[trigger] final(result)@[k2]).0@,
            self.header_table@.len() == 0 ==> final(result)@ == old(result)@,
        decreases self.header_table@.len(),
    {
        let ghost start = old(result)@;
        let ghost keys = header_items(self.header_table@);
        let ghost hlen = self.header_table@.len() as int;
        proof {
            reveal(FPTree::shape_wf);
        }
        let mut i: usize = self.header_table.len();
        proof {
            assert forall|s: Seq<char>|
                #[trigger] minable(self.paths@, keys, s, min_support) && top_index(keys, s) > i - 1 implies found(
                    result@, start.len() as int, prefix@, s) by {
                assert forall|j: int| 0 <= j < s.len() implies key_index(keys, #[trigger] s[j]) <= hlen - 1 by {
                    lemma_key_index(keys, s[j]);
                }
                lemma_top_index_bounds(keys, s, hlen - 1);
            }
        }
        while i > 0
            invariant
                0 <= i <= hlen,
                hlen == self.header_table@.len(),
                keys == header_items(self.header_table@),
                keys.no_duplicates(),
                self.wf(),
                strictly_sorted(prefix@),
                forall|h: int| 0 <= h < self.header_table@.len() ==> !prefix@.contains(#[trigger] self.header_table@[h].item),
                forall|h: int| 0 <= h < self.header_table@.len() ==> (#[trigger] self.header_table@[h]).support >= min_support,
                start.len() <= result@.len(),
                result@.take(start.len() as int) == start,
                forall|k: int|
                    start.len() <= k < result@.len() ==> extends(
                        (#[trigger] result@[k]).0@,
                        result@[k].1,
                        prefix@,
                        keys,
                        min_support,
                    ),
                forall|h: int|
                    i <= h < hlen ==> emitted(result@, start.len() as int, prefix@, #[trigger] self.header_table@[h]),
                i == hlen ==> result@ == start,
                forall|k1: int, k2: int|
                    start.len() <= k1 < k2 < result@.len() ==> (#[trigger] result@[k1]).0@ != (#[trigger] result@[k2]).0@,
                forall|k: int| start.len() <= k < result@.len() ==> top_index(keys, (#[trigger] result@[k]).0@) > i - 1,
                forall|h: int|
                    0 <= h < self.header_table@.len() ==> (#[trigger] self.header_table@[h]).support as nat
                        == weighted_support(self.paths@, seq![self.header_table@[h].item]),
                forall|k: int|
                    start.len() <= k < result@.len() ==> (#[trigger] result@[k]).1 as nat
                        == weighted_support(self.paths@, items_without(result@[k].0@, prefix@)),
                forall|s: Seq<char>|
                    #[trigger] minable(self.paths@, keys, s, min_support) && top_index(keys, s) > i - 1 ==> found(
                        result@,
                        start.len() as int,
                        prefix@,
                        s,
                    ),
            decreases i,
        {
            i = i - 1;
            let x = self.header_table[i].item;
            let support = self.header_table[i].support;
            proof {
                assert(keys[i as int] == x);
                assert(!prefix@.contains(self.header_table@[i as int].item));
            }
            let new_prefix = insert_sorted(&prefix, x);
            let ghost r0 = result@;
            result.push((copy_items(&new_prefix), support));
            proof {
                assert(result@.take(start.len() as int) =~= r0.take(start.len() as int));
                let rec = result@[r0.len() as int];
                assert(rec.0@ == new_prefix@);
                assert forall|j: int| 0 <= j < prefix@.len() implies new_prefix@.contains(#[trigger] prefix@[j]) by {
                    assert(prefix@.contains(prefix@[j]));
                }
                assert forall|j: int| 0 <= j < new_prefix@.len() implies prefix@.contains(#[trigger] new_prefix@[j])
                    || keys.contains(new_prefix@[j]) by {
                    assert(new_prefix@.contains(new_prefix@[j]));
                    assert(keys.contains(keys[i as int]));
                }
                assert(prefix@.len() < new_prefix@.len());
                assert forall|k: int| start.len() <= k < result@.len() implies extends(
                    (#[trigger] result@[k]).0@, result@[k].1, prefix@, keys, min_support) by {
                    if k < r0.len() {
                        assert(result@[k] == r0[k]);
                    }
                }
                assert forall|h: int| i <= h < hlen implies emitted(result@, start.len() as int, prefix@, #[trigger] self.header_table@[h]) by {
                    if h == i {
                        assert(adds_one(result@[r0.len() as int].0@, prefix@, x));
                        assert(result@[r0.len() as int].1 == self.header_table@[h].support);
                    } else {
                        assert(emitted(r0, start.len() as int, prefix@, self.header_table@[h]));
                        let k = choose|k: int|
                            start.len() <= k < r0.len() && adds_one(
                                (#[trigger] r0[k]).0@,
                                prefix@,
                                self.header_table@[h].item,
                            ) && r0[k].1 == self.header_table@[h].support;
                        assert(result@[k] == r0[k]);
                    }
                }
            }
            proof {
                assert forall|q: int| 0 <= q < prefix@.len() implies !keys.contains(#[trigger] prefix@[q]) by {
                    if keys.contains(prefix@[q]) {
                        let g = choose|g: int| 0 <= g < keys.len() && keys[g] == prefix@[q];
                        assert(keys[g] == self.header_table@[g].item);
                        assert(prefix@.contains(prefix@[q]));
                    }
                }
                assert forall|j: int| 0 <= j < new_prefix@.len() implies prefix@.contains(#[trigger] new_prefix@[j])
                    || new_prefix@[j] == x || key_index(keys, new_prefix@[j]) < i by {
                    assert(new_prefix@.contains(new_prefix@[j]));
                }
                lemma_branch_top(keys, prefix@, x, i as int, new_prefix@);
                let nr = r0.len() as int;
                lemma_first_support(self.paths@, prefix@, new_prefix@, x);
                assert forall|k: int| start.len() <= k < result@.len() implies (#[trigger] result@[k]).1 as nat
                    == weighted_support(self.paths@, items_without(result@[k].0@, prefix@)) by {
                    if k < nr {
                        assert(result@[k] == r0[k]);
                    } else {
                        assert(result@[k].0@ == new_prefix@);
                    }
                }
                assert(result@[nr].0@ == new_prefix@);
                assert forall|k: int| start.len() <= k < result@.len() implies top_index(keys, (#[trigger] result@[k]).0@) > i - 1 by {
                    if k < nr {
                        assert(result@[k] == r0[k]);
                    }
                }
                assert forall|k1: int, k2: int|
                    start.len() <= k1 < k2 < result@.len() implies (#[trigger] result@[k1]).0@ != (#[trigger] result@[k2]).0@ by {
                    assert(result@[k1] == r0[k1]);
                    if k2 < nr {
                        assert(result@[k2] == r0[k2]);
                    } else {
                        assert(top_index(keys, r0[k1].0@) > i);
                    }
                }
            }
            let ghost r_first = result@;
            let base = self.conditional_base(i);
            let cond = FPTree::build_weighted(&base, min_support);
            let ghost ck = header_items(cond.header_table@);
            let ghost bv = weighted_view(base@);
            let ghost np = new_prefix@;
            let ghost lo_child = result@.len() as int;
            proof {
                assert forall|y: char| occurs(bv, y) && weighted_support(bv, seq![y]) >= min_support implies ck.contains(y) by {
                    let q = choose|q: int| 0 <= q < header_keys(cond.header_table@).len() && (#[trigger] header_keys(cond.header_table@)[q]).0 == y;
                    assert(ck[q] == y);
                }
            }
            if cond.header_table.len() > 0 {
                proof {
                    reveal(FPTree::shape_wf);
                    assert forall|j: int| 0 <= j < ck.len() implies keys.contains(#[trigger] ck[j]) && ck[j] != x
                        && key_index(keys, ck[j]) < i by {
                        let e = header_keys(cond.header_table@)[j];
                        assert(e.0 == ck[j]);
                        assert(occurs(bv, e.0));
                        let idx = choose|idx: int| 0 <= idx < bv.len() && #[trigger] bv[idx].0.contains(e.0);
                        assert(bv[idx].0 == base@[idx].0@);
                        let q = choose|q: int| 0 <= q < base@[idx].0@.len() && base@[idx].0@[q] == e.0;
                        assert(self.in_header(base@[idx].0@[q]));
                        assert(!base@[idx].0@.contains(x));
                        assert(key_index(keys, base@[idx].0@[q]) < i);
                    }
                    lemma_fewer_items(ck, keys, x);
                    assert forall|h: int| 0 <= h < cond.header_table@.len() implies !new_prefix@.contains(
                        #[trigger] cond.header_table@[h].item) by {
                        assert(ck[h] == cond.header_table@[h].item);
                        let g = choose|g: int| 0 <= g < keys.len() && keys[g] == ck[h];
                        assert(keys[g] == self.header_table@[g].item);
                    }
                    assert forall|h: int| 0 <= h < cond.header_table@.len() implies (#[trigger] cond.header_table@[h]).support >= min_support by {
                        let e = header_keys(cond.header_table@)[h];
                        assert(e.0 == cond.header_table@[h].item);
                        assert(e.1 == cond.header_table@[h].support);
                    }
                }
                let ghost r1 = result@;
                cond.fp_growth(new_prefix, min_support, result);
                proof {
                    assert(result@.take(start.len() as int) =~= r1.take(r1.len() as int).take(start.len() as int));
                    assert forall|k: int| start.len() <= k < result@.len() implies extends(
                        (#[trigger] result@[k]).0@, result@[k].1, prefix@, keys, min_support) by {
                        if k < r1.len() {
                            assert(result@.take(r1.len() as int)[k] == r1[k]);
                        } else {
                            let it = result@[k].0@;
                            assert(extends(it, result@[k].1, new_prefix@, ck, min_support));
                            assert forall|j: int| 0 <= j < prefix@.len() implies it.contains(#[trigger] prefix@[j]) by {
                                assert(new_prefix@.contains(prefix@[j]));
                                let q = choose|q: int| 0 <= q < new_prefix@.len() && new_prefix@[q] == prefix@[j];
                                assert(it.contains(new_prefix@[q]));
                            }
                            assert forall|j: int| 0 <= j < it.len() implies prefix@.contains(#[trigger] it[j])
                                || keys.contains(it[j]) by {
                                if new_prefix@.contains(it[j]) {
                                    if it[j] == x {
                                        assert(keys[i as int] == x);
                                    }
                                } else {
                                    assert(ck.contains(it[j]));
                                    let q = choose|q: int| 0 <= q < ck.len() && ck[q] == it[j];
                                    assert(keys.contains(ck[q]));
                                }
                            }
                        }
                    }
                    let nr = r0.len() as int;
                    reveal(FPTree::base_wf);
                    assert forall|q: int| 0 <= q < ck.len() implies key_index(keys, #[trigger] ck[q]) < i by {
                        assert(keys.contains(ck[q]) && ck[q] != x && key_index(keys, ck[q]) < i);
                    }
                    assert forall|k: int| start.len() <= k < result@.len() implies (#[trigger] result@[k]).1 as nat
                        == weighted_support(self.paths@, items_without(result@[k].0@, prefix@)) by {
                        if k < r1.len() {
                            assert(result@.take(r1.len() as int)[k] == r1[k]);
                        } else {
                            lemma_child_support(keys, self.paths@, prefix@, np, x, i as int, ck, bv, cond.paths@,
                                result@[k].0@, result@[k].1, min_support);
                        }
                    }
                    assert forall|k: int| r1.len() <= k < result@.len() implies top_index(keys, (#[trigger] result@[k]).0@) == i by {
                        let it = result@[k].0@;
                        assert(extends(it, result@[k].1, new_prefix@, ck, min_support));
                        assert(new_prefix@.contains(x));
                        let q = choose|q: int| 0 <= q < new_prefix@.len() && new_prefix@[q] == x;
                        assert(it.contains(new_prefix@[q]));
                        assert forall|j: int| 0 <= j < it.len() implies prefix@.contains(#[trigger] it[j])
                            || it[j] == x || key_index(keys, it[j]) < i by {
                            if !new_prefix@.contains(it[j]) {
                                assert(ck.contains(it[j]));
                                let g = choose|g: int| 0 <= g < ck.len() && ck[g] == it[j];
                                assert(key_index(keys, ck[g]) < i);
                            }
                        }
                        lemma_branch_top(keys, prefix@, x, i as int, it);
                    }
                    assert forall|k: int| start.len() <= k < result@.len() implies top_index(keys, (#[trigger] result@[k]).0@) > i - 1 by {
                        if k < r1.len() {
                            assert(result@.take(r1.len() as int)[k] == r1[k]);
                        } else {
                            assert(top_index(keys, result@[k].0@) == i);
                        }
                    }
                    assert forall|k1: int, k2: int|
                        start.len() <= k1 < k2 < result@.len() implies (#[trigger] result@[k1]).0@ != (#[trigger] result@[k2]).0@ by {
                        if k2 < r1.len() {
                            assert(result@.take(r1.len() as int)[k1] == r1[k1]);
                            assert(result@.take(r1.len() as int)[k2] == r1[k2]);
                        } else if k1 < nr {
                            assert(result@.take(r1.len() as int)[k1] == r1[k1]);
                            assert(r1[k1] == r0[k1]);
                            assert(top_index(keys, r0[k1].0@) > i);
                            assert(top_index(keys, result@[k2].0@) == i);
                        } else if k1 == nr {
                            assert(result@.take(r1.len() as int)[k1] == r1[k1]);
                            assert(r1[nr].0@ == new_prefix@);
                            assert(extends(result@[k2].0@, result@[k2].1, new_prefix@, ck, min_support));
                        }
                    }
                    assert forall|h: int| i <= h < hlen implies emitted(result@, start.len() as int, prefix@, #[trigger] self.header_table@[h]) by {
                        assert(emitted(r1, start.len() as int, prefix@, self.header_table@[h]));
                        let k = choose|k: int|
                            start.len() <= k < r1.len() && adds_one(
                                (#[trigger] r1[k]).0@,
                                prefix@,
                                self.header_table@[h].item,
                            ) && r1[k].1 == self.header_table@[h].support;
                        assert(result@.take(r1.len() as int)[k] == r1[k]);
                    }
                }
            }
            proof {
                let nr = r_first.len() - 1;
                assert(result@.take(r_first.len() as int) == r_first);
                assert(result@[nr].0@ == np) by {
                    assert(result@.take(r_first.len() as int)[nr] == r_first[nr]);
                }
                assert forall|s2: Seq<char>| #[trigger] minable(cond.paths@, ck, s2, min_support) implies found(
                    result@, lo_child, np, s2) by {
                    if cond.header_table@.len() == 0 {
                        assert(ck.len() == 0);
                        assert(ck.contains(s2[0]));
                    }
                }
                reveal(FPTree::base_wf);
                assert forall|s: Seq<char>|
                    #[trigger] minable(self.paths@, keys, s, min_support) && top_index(keys, s) > i - 1 implies found(
                        result@,
                        start.len() as int,
                        prefix@,
                        s,
                    ) by {
                    if top_index(keys, s) == i {
                        lemma_branch_found(keys, self.paths@, prefix@, np, x, i as int, s, ck, bv, cond.paths@,
                            min_support, result@, start.len() as int, nr, lo_child);
                    } else {
                        assert(found(r0, start.len() as int, prefix@, s));
                        let k = choose|k: int| start.len() <= k < r0.len() && joins((#[trigger] r0[k]).0@, prefix@, s);
                        assert(result@.take(r_first.len() as int)[k] == r_first[k]);
                        assert(r_first[k] == r0[k]);
                    }
                }
            }
        }
        proof {
            assert(result@.take(start.len() as int) == start);
            assert forall|s: Seq<char>| #[trigger] minable(self.paths@, keys, s, min_support) implies found(
                result@, old(result)@.len() as int, prefix@, s) by {
                lemma_top_attained(keys, s);
                let j = choose|j: int| 0 <= j < s.len() && key_index(keys, #[trigger] s[j]) == top_index(keys, s);
                lemma_key_index(keys, s[j]);
                assert(found(result@, start.len() as int, prefix@, s));
            }
            assert forall|h: int| 0 <= h < self.header_table@.len() implies emitted(result@, old(result)@.len() as int, prefix@, #[trigger] self.header_table@[h]) by {
                assert(emitted(result@, start.len() as int, prefix@, self.header_table@[h]));
            }
        }
    }

    /// Every record of the tree, in the order `fp_growth` emits them from the
    /// empty prefix.
    fn collect_records(&self, min_support: usize) -> (r: Vec<(Vec<char>, usize)>)
        requires
            self.wf(),
            forall|h: int| 0 <= h < self.header_table@.len() ==> (#[trigger] self.header_table@[h]).support >= min_support,
            forall|h: int|
                0 <= h < self.header_table@.len() ==> (#[trigger] self.header_table@[h]).support as nat
                    == weighted_support(self.paths@, seq![self.header_table@[h].item]),
        ensures
            forall|i: int| 0 <= i < r@.len() ==> (#[trigger] r@[i]).1 as nat == weighted_support(self.paths@, r@[i].0@),
            forall|s: Seq<char>|
                #[trigger] minable(self.paths@, header_items(self.header_table@), s, min_support) ==> exists|i: int|
                    0 <= i < r@.len() && forall|y: char| (#[trigger] r@[i]).0@.contains(y) <==> s.contains(y),
            forall|i: int|
                0 <= i < r@.len() ==> extends(
                    (#[trigger] r@[i]).0@,
                    r@[i].1,
                    Seq::empty(),
                    header_items(self.header_table@),
                    min_support,
                ),
            forall|h: int| 0 <= h < self.header_table@.len() ==> emitted_single(r@, #[trigger] self.header_table@[h]),
            forall|k1: int, k2: int| 0 <= k1 < k2 < r@.len() ==> (#[trigger] r@[k1]).0@ != (#[trigger] r@[k2]).0@,
            self.header_table@.len() == 0 ==> r@.len() == 0,
    {
        let mut r: Vec<(Vec<char>, usize)> = Vec::new();
        let prefix: Vec<char> = Vec::new();
        proof {
            assert(r@.take(0) =~= r@);
        }
        self.fp_growth(prefix, min_support, &mut r);
        proof {
            assert forall|s: Seq<char>| #[trigger] minable(self.paths@, header_items(self.header_table@), s, min_support)
                implies exists|i: int| 0 <= i < r@.len() && forall|y: char| (#[trigger] r@[i]).0@.contains(y) <==> s.contains(y) by {
                assert(found(r@, 0, Seq::<char>::empty(), s));
                let k = choose|k: int| 0 <= k < r@.len() && joins((#[trigger] r@[k]).0@, Seq::<char>::empty(), s);
                assert(joins(r@[k].0@, Seq::<char>::empty(), s));
            }
            assert forall|i: int| 0 <= i < r@.len() implies (#[trigger] r@[i]).1 as nat == weighted_support(self.paths@, r@[i].0@) by {
                assert forall|y: char| items_without(r@[i].0@, Seq::<char>::empty()).contains(y) <==> r@[i].0@.contains(y) by {
                    lemma_items_without(r@[i].0@, Seq::<char>::empty(), y);
                }
                lemma_weighted_support_same_items(self.paths@, items_without(r@[i].0@, Seq::<char>::empty()), r@[i].0@);
            }
            assert forall|h: int| 0 <= h < self.header_table@.len() implies emitted_single(r@, #[trigger] self.header_table@[h]) by {
                assert(emitted(r@, 0, Seq::<char>::empty(), self.header_table@[h]));
                let i = choose|i: int|
                    0 <= i < r@.len() && adds_one(
                        (#[trigger] r@[i]).0@,
                        Seq::<char>::empty(),
                        self.header_table@[h].item,
                    ) && r@[i].1 == self.header_table@[h].support;
                let it = r@[i].0@;
                let x = self.header_table@[h].item;
                assert(it.contains(x));
                assert(strictly_sorted(it));
                assert(it.len() == 1) by {
                    if it.len() > 1 {
                        assert(it.contains(it[0]) && it.contains(it[1]));
                        assert(it[0] == x && it[1] == x);
                    }
                }
                assert(it.contains(it[0]));
                assert(it[0] == x);
                assert(it =~= seq![x]);
                assert(r@[i].0@ == seq![x]);
            }
        }
        r
    }

    /// Mines every record of the tree (`fp_growth` from the empty prefix, at
    /// a threshold of at least one) and lists the records in increasing
    /// lexicographic order of their itemsets.
    pub fn mine(&self, min_support: usize) -> (r: Vec<(Vec<char>, usize)>)
        requires
            self.wf(),
            forall|h: int| 0 <= h < self.header_table@.len() ==> (#[trigger] self.header_table@[h]).support >= min_support,
            forall|h: int| 0 <= h < self.header_table@.len() ==> (#[trigger] self.header_table@[h]).support >= 1,
            forall|h: int|
                0 <= h < self.header_table@.len() ==> (#[trigger] self.header_table@[h]).support as nat
                    == weighted_support(self.paths@, seq![self.header_table@[h].item]),
        ensures
            crate::order::lex_sorted(r@),
            forall|i: int| 0 <= i < r@.len() ==> (#[trigger] r@[i]).1 as nat == weighted_support(self.paths@, r@[i].0@),
            forall|i: int| 0 <= i < r@.len() ==> (#[trigger] r@[i]).1 >= 1,
            forall|s: Seq<char>|
                #[trigger] minable(self.paths@, header_items(self.header_table@), s, min_support) ==> exists|i: int|
                    0 <= i < r@.len() && forall|y: char| (#[trigger] r@[i]).0@.contains(y) <==> s.contains(y),
            forall|i: int|
                0 <= i < r@.len() ==> extends(
                    (#[trigger] r@[i]).0@,
                    r@[i].1,
                    Seq::empty(),
                    header_items(self.header_table@),
                    min_support,
                ),
            forall|h: int| 0 <= h < self.header_table@.len() ==> emitted_single(r@, #[trigger] self.header_table@[h]),
            forall|k1: int, k2: int| 0 <= k1 < k2 < r@.len() ==> (#[trigger] r@[k1]).0@ != (#[trigger] r@[k2]).0@,
            self.header_table@.len() == 0 ==> r@.len() == 0,
    {
        let t: usize = if min_support == 0 { 1 } else { min_support };
        let c = self.collect_records(t);
        let r = crate::order::sort_records(c);
        proof {
            let keys = header_items(self.header_table@);
            assert forall|i: int| 0 <= i < r@.len() implies {
                &&& (#[trigger] r@[i]).1 as nat == weighted_support(self.paths@, r@[i].0@)
                &&& r@[i].1 >= 1
                &&& extends(r@[i].0@, r@[i].1, Seq::empty(), keys, min_support)
            } by {
                assert(r@.contains(r@[i]));
                let j = choose|j: int| 0 <= j < c@.len() && c@[j] == r@[i];
                assert(extends(c@[j].0@, c@[j].1, Seq::empty(), keys, t));
            }
            assert forall|s: Seq<char>| #[trigger] minable(self.paths@, keys, s, min_support) implies exists|i: int|
                0 <= i < r@.len() && forall|y: char| (#[trigger] r@[i]).0@.contains(y) <==> s.contains(y) by {
                assert(minable(self.paths@, keys, s, t));
                let j = choose|j: int| 0 <= j < c@.len() && forall|y: char| (#[trigger] c@[j]).0@.contains(y) <==> s.contains(y);
                assert(c@.contains(c@[j]));
                let i = choose|i: int| 0 <= i < r@.len() && r@[i] == c@[j];
                assert(forall|y: char| (#[trigger] r@[i]).0@.contains(y) <==> s.contains(y));
            }
            assert forall|h: int| 0 <= h < self.header_table@.len() implies emitted_single(r@, #[trigger] self.header_table@[h]) by {
                assert(emitted_single(c@, self.header_table@[h]));
                let j = choose|j: int| 0 <= j < c@.len() && (#[trigger] c@[j]).0@ == seq![self.header_table@[h].item]
                    && c@[j].1 == self.header_table@[h].support;
                assert(c@.contains(c@[j]));
                let i = choose|i: int| 0 <= i < r@.len() && r@[i] == c@[j];
                assert(r@[i].0@ == seq![self.header_table@[h].item]);
            }
            assert forall|k1: int, k2: int| 0 <= k1 < k2 < r@.len() implies (#[trigger] r@[k1]).0@ != (#[trigger] r@[k2]).0@ by {
                crate::order::lemma_lex_irreflexive(r@[k1].0@);
            }
        }
        r
    }
}

} // verus!
