//! The mathematical model: transactions, itemsets and their support.
use vstd::prelude::*;

verus! {

/// A transaction holds every item of `s`.
pub open spec fn holds_all(t: Seq<char>, s: Seq<char>) -> bool {
    forall|i: int| 0 <= i < s.len() ==> #[trigger] t.contains(s[i])
}

/// Number of transactions of `db` that hold every item of `s`.
pub open spec fn support(db: Seq<Seq<char>>, s: Seq<char>) -> nat
    decreases db.len(),
{
    if db.len() == 0 {
        0
    } else {
        support(db.drop_last(), s) + if holds_all(db.last(), s) { 1nat } else { 0nat }
    }
}

/// Summed weight of the weighted paths of `db` that hold every item of `s`.
pub open spec fn weighted_support(db: Seq<(Seq<char>, nat)>, s: Seq<char>) -> nat
    decreases db.len(),
{
    if db.len() == 0 {
        0
    } else {
        weighted_support(db.drop_last(), s) + if holds_all(db.last().0, s) {
            db.last().1
        } else {
            0nat
        }
    }
}

/// Summed weight of all the paths of `db`.
pub open spec fn total_weight(db: Seq<(Seq<char>, nat)>) -> nat
    decreases db.len(),
{
    if db.len() == 0 {
        0
    } else {
        total_weight(db.drop_last()) + db.last().1
    }
}

/// The model of a list of transactions.
pub open spec fn transactions_view(db: Seq<Vec<char>>) -> Seq<Seq<char>> {
    db.map_values(|t: Vec<char>| t@)
}

/// The model of a list of weighted paths.
pub open spec fn weighted_view(db: Seq<(Vec<char>, usize)>) -> Seq<(Seq<char>, nat)> {
    db.map_values(|e: (Vec<char>, usize)| (e.0@, e.1 as nat))
}

/// Each transaction taken once, with weight one.
pub open spec fn unit_weights(db: Seq<Seq<char>>) -> Seq<(Seq<char>, nat)> {
    db.map_values(|t: Seq<char>| (t, 1nat))
}

/// An item occurs in some path of `db`.
pub open spec fn occurs(db: Seq<(Seq<char>, nat)>, x: char) -> bool {
    exists|i: int| 0 <= i < db.len() && #[trigger] db[i].0.contains(x)
}

/// `s` lists its items in strictly increasing order (so each at most once).
pub open spec fn strictly_sorted(s: Seq<char>) -> bool {
    forall|i: int, j: int| 0 <= i < j < s.len() ==> s[i] < s[j]
}

/// Adding an item to an itemset never raises its support.
pub proof fn lemma_support_anti_monotone(db: Seq<Seq<char>>, s: Seq<char>, x: char)
    ensures
        support(db, s.push(x)) <= support(db, s),
    decreases db.len(),
{
    if db.len() > 0 {
        lemma_support_anti_monotone(db.drop_last(), s, x);
        if holds_all(db.last(), s.push(x)) {
            assert forall|i: int| 0 <= i < s.len() implies #[trigger] db.last().contains(s[i]) by {
                assert(s.push(x)[i] == s[i]);
            }
        }
    }
}

/// A superset (as sets of items) never has more support than its subset.
pub proof fn lemma_support_subset(db: Seq<Seq<char>>, s: Seq<char>, u: Seq<char>)
    requires
        forall|i: int| 0 <= i < s.len() ==> #[trigger] u.contains(s[i]),
    ensures
        support(db, u) <= support(db, s),
    decreases db.len(),
{
    if db.len() > 0 {
        lemma_support_subset(db.drop_last(), s, u);
        if holds_all(db.last(), u) {
            assert forall|i: int| 0 <= i < s.len() implies #[trigger] db.last().contains(s[i]) by {
                assert(u.contains(s[i]));
                let j = choose|j: int| 0 <= j < u.len() && u[j] == s[i];
                assert(db.last().contains(u[j]));
            }
        }
    }
}

/// Support counted over unit weights is the plain support.
pub proof fn lemma_unit_weights(db: Seq<Seq<char>>, s: Seq<char>)
    ensures
        weighted_support(unit_weights(db), s) == support(db, s),
        total_weight(unit_weights(db)) == db.len(),
    decreases db.len(),
{
    if db.len() > 0 {
        lemma_unit_weights(db.drop_last(), s);
        assert(unit_weights(db).drop_last() =~= unit_weights(db.drop_last()));
    }
}

/// The weighted support of any itemset is bounded by the total weight.
pub proof fn lemma_weighted_support_bound(db: Seq<(Seq<char>, nat)>, s: Seq<char>)
    ensures
        weighted_support(db, s) <= total_weight(db),
    decreases db.len(),
{
    if db.len() > 0 {
        lemma_weighted_support_bound(db.drop_last(), s);
    }
}

/// Weighted support depends only on which items an itemset holds.
pub proof fn lemma_weighted_support_same_items(db: Seq<(Seq<char>, nat)>, u1: Seq<char>, u2: Seq<char>)
    requires
        forall|y: char| u1.contains(y) <==> u2.contains(y),
    ensures
        weighted_support(db, u1) == weighted_support(db, u2),
    decreases db.len(),
{
    if db.len() > 0 {
        lemma_weighted_support_same_items(db.drop_last(), u1, u2);
        let t = db.last().0;
        if holds_all(t, u1) {
            assert forall|j: int| 0 <= j < u2.len() implies #[trigger] t.contains(u2[j]) by {
                assert(u2.contains(u2[j]));
                let q = choose|q: int| 0 <= q < u1.len() && u1[q] == u2[j];
                assert(t.contains(u1[q]));
            }
        }
        if holds_all(t, u2) {
            assert forall|j: int| 0 <= j < u1.len() implies #[trigger] t.contains(u1[j]) by {
                assert(u1.contains(u1[j]));
                let q = choose|q: int| 0 <= q < u2.len() && u2[q] == u1[j];
                assert(t.contains(u2[q]));
            }
        }
    }
}

/// A weighted superset (as sets of items) never has more weighted support.
pub proof fn lemma_weighted_support_subset(db: Seq<(Seq<char>, nat)>, s: Seq<char>, u: Seq<char>)
    requires
        forall|i: int| 0 <= i < s.len() ==> #[trigger] u.contains(s[i]),
    ensures
        weighted_support(db, u) <= weighted_support(db, s),
    decreases db.len(),
{
    if db.len() > 0 {
        lemma_weighted_support_subset(db.drop_last(), s, u);
        if holds_all(db.last().0, u) {
            assert forall|i: int| 0 <= i < s.len() implies #[trigger] db.last().0.contains(s[i]) by {
                assert(u.contains(s[i]));
                let j = choose|j: int| 0 <= j < u.len() && u[j] == s[i];
                assert(db.last().0.contains(u[j]));
            }
        }
    }
}

/// An item with positive weighted support occurs in some path.
pub proof fn lemma_positive_support_occurs(db: Seq<(Seq<char>, nat)>, x: char)
    requires
        weighted_support(db, seq![x]) > 0,
    ensures
        occurs(db, x),
    decreases db.len(),
{
    if weighted_support(db.drop_last(), seq![x]) > 0 {
        lemma_positive_support_occurs(db.drop_last(), x);
        let i = choose|i: int| 0 <= i < db.drop_last().len() && #[trigger] db.drop_last()[i].0.contains(x);
        assert(db[i].0.contains(x));
    } else {
        assert(holds_all(db.last().0, seq![x]));
        assert(seq![x][0] == x);
        assert(db[db.len() - 1].0.contains(x));
    }
}

} // verus!
