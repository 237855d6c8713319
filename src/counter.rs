//! Frequency counting: the items of a weighted database that meet a threshold.
use vstd::prelude::*;
use crate::itemset::{holds_all, occurs, total_weight, weighted_support, weighted_view, lemma_weighted_support_bound};

verus! {

/// `a` comes before `b` in a header table: higher support first, then the
/// smaller item.
pub open spec fn ranked_before(a: (char, usize), b: (char, usize)) -> bool {
    a.1 > b.1 || (a.1 == b.1 && a.0 < b.0)
}

/// Entries listed in strict header-table order (so each item once).
pub open spec fn ranked(r: Seq<(char, usize)>) -> bool {
    forall|i: int, j: int| 0 <= i < j < r.len() ==> ranked_before(#[trigger] r[i], #[trigger] r[j])
}

/// The result of the frequency counter: exactly the items that occur in `db`
/// with weighted support at least `min_support`, each with its support, in
/// header-table order.
pub open spec fn frequent_items(
    db: Seq<(Seq<char>, nat)>,
    min_support: usize,
    r: Seq<(char, usize)>,
) -> bool {
    &&& ranked(r)
    &&& forall|i: int|
        0 <= i < r.len() ==> {
            &&& occurs(db, #[trigger] r[i].0)
            &&& r[i].1 as nat == weighted_support(db, seq![r[i].0])
            &&& r[i].1 >= min_support
        }
    &&& forall|x: char|
        occurs(db, x) && weighted_support(db, seq![x]) >= min_support ==> exists|i: int|
            0 <= i < r.len() && (#[trigger] r[i]).0 == x
}

/// Whether `t` holds `x`.
pub fn contains_item(t: &Vec<char>, x: char) -> (r: bool)
    ensures
        r == t@.contains(x),
{
    let mut i: usize = 0;
    while i < t.len()
        invariant
            0 <= i <= t.len(),
            forall|j: int| 0 <= j < i ==> t@[j] != x,
        decreases t.len() - i,
    {
        if t[i] == x {
            return true;
        }
        i = i + 1;
    }
    false
}

pub proof fn lemma_total_weight_prefix(db: Seq<(Seq<char>, nat)>, i: int)
    requires
        0 <= i <= db.len(),
    ensures
        total_weight(db.take(i)) <= total_weight(db),
    decreases db.len(),
{
    if i < db.len() {
        assert(db.take(i) =~= db.drop_last().take(i));
        lemma_total_weight_prefix(db.drop_last(), i);
    } else {
        assert(db.take(i) =~= db);
    }
}

proof fn lemma_weighted_view_step(db: Seq<(Vec<char>, usize)>, i: int)
    requires
        0 <= i < db.len(),
    ensures
        weighted_view(db.take(i + 1)).drop_last() =~= weighted_view(db.take(i)),
        weighted_view(db.take(i + 1)).last() == (db[i].0@, db[i].1 as nat),
        weighted_view(db.take(db.len() as int)) =~= weighted_view(db),
{
    assert(db.take(db.len() as int) =~= db);
}

/// Weighted support of the single item `x`.
fn item_weight(db: &Vec<(Vec<char>, usize)>, x: char) -> (r: usize)
    requires
        total_weight(weighted_view(db@)) <= usize::MAX,
    ensures
        r as nat == weighted_support(weighted_view(db@), seq![x]),
{
    let mut sum: usize = 0;
    let mut i: usize = 0;
    while i < db.len()
        invariant
            0 <= i <= db.len(),
            total_weight(weighted_view(db@)) <= usize::MAX,
            sum as nat == weighted_support(weighted_view(db@.take(i as int)), seq![x]),
        decreases db.len() - i,
    {
        proof {
            lemma_weighted_view_step(db@, i as int);
            let v = weighted_view(db@.take(i + 1));
            lemma_weighted_support_bound(v, seq![x]);
            lemma_total_weight_prefix(weighted_view(db@), i + 1);
            assert(weighted_view(db@).take(i + 1) =~= v);
            assert(holds_all(db@[i as int].0@, seq![x]) == db@[i as int].0@.contains(x)) by {
                if db@[i as int].0@.contains(x) {
                    assert forall|k: int| 0 <= k < 1 implies #[trigger] db@[i as int].0@.contains(
                        seq![x][k],
                    ) by {
                        assert(seq![x][k] == x);
                    }
                } else {
                    assert(seq![x][0] == x);
                }
            }
        }
        if contains_item(&db[i].0, x) {
            sum = sum + db[i].1;
        }
        i = i + 1;
    }
    assert(db@.take(i as int) =~= db@);
    sum
}

/// Every item that occurs in `db`, each once.
fn distinct_items(db: &Vec<(Vec<char>, usize)>) -> (r: Vec<char>)
    ensures
        r@.no_duplicates(),
        forall|x: char| r@.contains(x) <==> occurs(weighted_view(db@), x),
{
    let ghost wv = weighted_view(db@);
    let mut r: Vec<char> = Vec::new();
    let mut i: usize = 0;
    while i < db.len()
        invariant
            0 <= i <= db.len(),
            wv == weighted_view(db@),
            r@.no_duplicates(),
            forall|x: char|
                r@.contains(x) <==> exists|k: int| 0 <= k < i && #[trigger] wv[k].0.contains(x),
        decreases db.len() - i,
    {
        let t = &db[i].0;
        assert(wv[i as int].0 == t@);
        let mut j: usize = 0;
        while j < t.len()
            invariant
                0 <= i < db.len(),
                0 <= j <= t.len(),
                t@ == wv[i as int].0,
                wv == weighted_view(db@),
                r@.no_duplicates(),
                forall|x: char|
                    r@.contains(x) <==> (exists|k: int| 0 <= k < i && #[trigger] wv[k].0.contains(x))
                        || t@.take(j as int).contains(x),
            decreases t.len() - j,
        {
            let x = t[j];
            assert(t@.take(j + 1) =~= t@.take(j as int).push(x));
            let ghost before = r@;
            if !contains_item(&r, x) {
                r.push(x);
                proof {
                    assert forall|y: char| r@.contains(y) <==> before.contains(y) || y == x by {
                        if r@.contains(y) {
                            let k = choose|k: int| 0 <= k < r@.len() && r@[k] == y;
                            if k < before.len() {
                                assert(before[k] == y);
                            }
                        }
                        if before.contains(y) {
                            let k = choose|k: int| 0 <= k < before.len() && before[k] == y;
                            assert(r@[k] == y);
                        }
                        if y == x {
                            assert(r@[before.len() as int] == x);
                        }
                    }
                }
            }
            proof {
                assert forall|y: char|
                    r@.contains(y) <==> (exists|k: int| 0 <= k < i && #[trigger] wv[k].0.contains(y))
                        || t@.take(j + 1).contains(y) by {
                    assert(t@.take(j + 1)[j as int] == x);
                    assert(r@.contains(y) <==> before.contains(y) || y == x);
                    assert(before.contains(y) <==> (exists|k: int| 0 <= k < i && #[trigger] wv[k].0.contains(y))
                        || t@.take(j as int).contains(y));
                    if t@.take(j + 1).contains(y) && y != x {
                        let m = choose|m: int| 0 <= m < j + 1 && #[trigger] t@.take(j + 1)[m] == y;
                        assert(t@.take(j as int)[m] == y);
                    }
                    if t@.take(j as int).contains(y) {
                        let m = choose|m: int| 0 <= m < j && #[trigger] t@.take(j as int)[m] == y;
                        assert(t@.take(j + 1)[m] == y);
                    }
                }
            }
            j = j + 1;
        }
        assert(t@.take(j as int) =~= t@);
        proof {
            assert forall|y: char|
                r@.contains(y) <==> exists|k: int| 0 <= k < i + 1 && #[trigger] wv[k].0.contains(y) by {
                if exists|k: int| 0 <= k < i + 1 && #[trigger] wv[k].0.contains(y) {
                    let k = choose|k: int| 0 <= k < i + 1 && #[trigger] wv[k].0.contains(y);
                    if k < i {
                        assert(exists|k: int| 0 <= k < i && #[trigger] wv[k].0.contains(y));
                    }
                }
            }
        }
        i = i + 1;
    }
    r
}

/// Inserts `e` into `r` at the place that keeps header-table order.
fn insert_ranked(r: &mut Vec<(char, usize)>, e: (char, usize))
    requires
        ranked(old(r)@),
        forall|i: int| 0 <= i < old(r)@.len() ==> (#[trigger] old(r)@[i]).0 != e.0,
    ensures
        ranked(final(r)@),
        forall|y: (char, usize)| final(r)@.contains(y) <==> old(r)@.contains(y) || y == e,
{
    let mut pos: usize = 0;
    while pos < r.len() && !(r[pos].1 < e.1 || (r[pos].1 == e.1 && e.0 < r[pos].0))
        invariant
            0 <= pos <= r.len(),
            r@ == old(r)@,
            forall|k: int| 0 <= k < r@.len() ==> (#[trigger] r@[k]).0 != e.0,
            forall|k: int| 0 <= k < pos ==> ranked_before(#[trigger] r@[k], e),
        decreases r.len() - pos,
    {
        assert(r@[pos as int].0 != e.0);
        assert(ranked_before(r@[pos as int], e));
        pos = pos + 1;
    }
    proof {
        if pos < r.len() {
            assert forall|k: int| pos <= k < r@.len() implies ranked_before(e, #[trigger] r@[k]) by {
                if k > pos {
                    assert(ranked_before(r@[pos as int], r@[k]));
                }
            }
        }
    }
    let ghost before = r@;
    r.insert(pos, e);
    proof {
        assert(r@ =~= before.insert(pos as int, e));
        before.insert_ensures(pos as int, e);
        assert forall|y: (char, usize)| r@.contains(y) <==> before.contains(y) || y == e by {
            if r@.contains(y) {
                let k = choose|k: int| 0 <= k < r@.len() && r@[k] == y;
                if k < pos {
                    assert(before[k] == y);
                } else if k > pos {
                    assert(before[k - 1] == y);
                }
            }
            if before.contains(y) {
                let k = choose|k: int| 0 <= k < before.len() && before[k] == y;
                if k < pos {
                    assert(r@[k] == y);
                } else {
                    assert(r@[k + 1] == y);
                }
            }
            if y == e {
                assert(r@[pos as int] == e);
            }
        }
    }
}

/// The frequency counter: every item of `db` whose weighted support reaches
/// `min_support`, with that support, in header-table order (support
/// descending, ties by the smaller item).
pub fn count_items(db: &Vec<(Vec<char>, usize)>, min_support: usize) -> (r: Vec<(char, usize)>)
    requires
        total_weight(weighted_view(db@)) <= usize::MAX,
    ensures
        frequent_items(weighted_view(db@), min_support, r@),
{
    let ghost wv = weighted_view(db@);
    let items = distinct_items(db);
    let mut r: Vec<(char, usize)> = Vec::new();
    let mut i: usize = 0;
    while i < items.len()
        invariant
            0 <= i <= items.len(),
            wv == weighted_view(db@),
            total_weight(wv) <= usize::MAX,
            items@.no_duplicates(),
            forall|x: char| items@.contains(x) <==> occurs(wv, x),
            ranked(r@),
            forall|k: int|
                0 <= k < r@.len() ==> {
                    &&& items@.take(i as int).contains(#[trigger] r@[k].0)
                    &&& r@[k].1 as nat == weighted_support(wv, seq![r@[k].0])
                    &&& r@[k].1 >= min_support
                },
            forall|x: char|
                items@.take(i as int).contains(x) && weighted_support(wv, seq![x]) >= min_support
                    ==> exists|k: int| 0 <= k < r@.len() && (#[trigger] r@[k]).0 == x,
        decreases items.len() - i,
    {
        let x = items[i];
        assert(items@.take(i + 1) =~= items@.take(i as int).push(x));
        let w = item_weight(db, x);
        if w >= min_support {
            proof {
                assert forall|k: int| 0 <= k < r@.len() implies (#[trigger] r@[k]).0 != x by {
                    let m = choose|m: int| 0 <= m < i && items@[m] == r@[k].0;
                    assert(items@.take(i as int)[m] == r@[k].0);
                }
            }
            let ghost before = r@;
            insert_ranked(&mut r, (x, w));
            proof {
                assert forall|k: int| 0 <= k < r@.len() implies {
                    &&& items@.take(i + 1).contains(#[trigger] r@[k].0)
                    &&& r@[k].1 as nat == weighted_support(wv, seq![r@[k].0])
                    &&& r@[k].1 >= min_support
                } by {
                    assert(r@.contains(r@[k]));
                    if r@[k] != (x, w) {
                        let m = choose|m: int| 0 <= m < before.len() && before[m] == r@[k];
                        assert(before[m] == r@[k]);
                        assert(items@.take(i as int).contains(before[m].0));
                        let q = choose|q: int| 0 <= q < i && #[trigger] items@.take(i as int)[q] == before[m].0;
                        assert(items@.take(i + 1)[q] == before[m].0);
                    } else {
                        assert(items@.take(i + 1)[i as int] == x);
                    }
                }
                assert forall|y: char|
                    items@.take(i + 1).contains(y) && weighted_support(wv, seq![y]) >= min_support
                        implies exists|k: int| 0 <= k < r@.len() && (#[trigger] r@[k]).0 == y by {
                    if y == x {
                        assert(r@.contains((x, w)));
                    } else {
                        assert(items@.take(i as int).contains(y));
                        let m = choose|m: int| 0 <= m < before.len() && (#[trigger] before[m]).0 == y;
                        assert(before.contains(before[m]));
                        assert(r@.contains(before[m]));
                    }
                }
            }
        } else {
            proof {
                assert forall|k: int| 0 <= k < r@.len() implies items@.take(i + 1).contains(
                    #[trigger] r@[k].0,
                ) by {
                    assert(items@.take(i as int).contains(r@[k].0));
                    let m = choose|m: int| 0 <= m < i && #[trigger] items@.take(i as int)[m] == r@[k].0;
                    assert(items@.take(i + 1)[m] == r@[k].0);
                }
                assert forall|y: char|
                    items@.take(i + 1).contains(y) && weighted_support(wv, seq![y]) >= min_support
                        implies exists|k: int| 0 <= k < r@.len() && (#[trigger] r@[k]).0 == y by {
                    let m = choose|m: int| 0 <= m < i + 1 && #[trigger] items@.take(i + 1)[m] == y;
                    if m < i {
                        assert(items@.take(i as int)[m] == y);
                        assert(items@.take(i as int).contains(y));
                    } else {
                        assert(y == x);
                    }
                }
            }
        }
        i = i + 1;
    }
    assert(items@.take(i as int) =~= items@);
    proof {
        assert forall|k: int| 0 <= k < r@.len() implies occurs(wv, #[trigger] r@[k].0) by {
            assert(items@.take(i as int).contains(r@[k].0));
        }
    }
    r
}

} // verus!
