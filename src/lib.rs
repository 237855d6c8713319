//! Frequent-itemset mining with a prefix tree (FP-growth) and association rules.
use vstd::prelude::*;

pub mod itemset;
pub mod counter;
pub mod tree;
pub mod mining;
pub mod rules;
pub mod order;

use crate::itemset::{
    holds_all, lemma_unit_weights, occurs, strictly_sorted, support, transactions_view, unit_weights,
    weighted_support,
};
use crate::mining::{emitted_single, extends, lemma_ordered_support, minable};
use crate::rules::{Rule, generate_rules, rules_of};
use crate::tree::{FPTree, header_items, header_keys};

verus! {

/// Why a mining request was refused.
#[derive(Debug, Clone, Copy, PartialEq, Eq, Structural)]
pub enum MiningError {
    /// A fraction (minimum support or minimum confidence) outside `[0, 1]`,
    /// or with a zero denominator.
    InvalidParameter,
    /// A frequent itemset has 64 items or more: its subsets cannot be
    /// enumerated for rule generation.
    ItemsetTooLarge,
}

/// `a` and `b` hold the same items.
pub open spec fn same_item_set(a: Seq<char>, b: Seq<char>) -> bool {
    forall|y: char| a.contains(y) <==> b.contains(y)
}

/// Some transaction of `db` holds `x`.
pub open spec fn in_some_transaction(db: Seq<Seq<char>>, x: char) -> bool {
    exists|j: int| 0 <= j < db.len() && #[trigger] db[j].contains(x)
}

/// `x` occurs in `db` and at least `min_support` transactions hold it.
pub open spec fn frequent_item(db: Seq<Seq<char>>, x: char, min_support: usize) -> bool {
    in_some_transaction(db, x) && support(db, seq![x]) >= min_support
}

/// The absolute count for the minimum support `num / den` of `n`
/// transactions: `ceil(num * n / den)`.
pub fn min_support_count(num: usize, den: usize, n: usize) -> (r: Result<usize, MiningError>)
    ensures
        (den == 0 || num > den) <==> r == Err::<usize, MiningError>(MiningError::InvalidParameter),
        r matches Ok(c) ==> c as int == (num * n + den - 1) / (den as int),
        !(den == 0 || num > den) ==> r is Ok,
{
    if den == 0 || num > den {
        return Err(MiningError::InvalidParameter);
    }
    let a: u128 = num as u128;
    let b: u128 = n as u128;
    let d: u128 = den as u128;
    proof {
        assert(a * b <= u64::MAX as u128 * u64::MAX as u128) by (nonlinear_arith)
            requires a <= u64::MAX as u128, b <= u64::MAX as u128;
        assert(a * b <= d * b) by (nonlinear_arith)
            requires a <= d;
        assert(((a * b + d - 1) as int) / (d as int) <= b as int) by (nonlinear_arith)
            requires a * b <= d * b, d >= 1;
    }
    let c: u128 = (a * b + d - 1) / d;
    Ok(c as usize)
}

proof fn lemma_occurs_unit(tv: Seq<Seq<char>>, x: char)
    requires
        occurs(unit_weights(tv), x),
    ensures
        weighted_support(unit_weights(tv), seq![x]) >= 1,
    decreases tv.len(),
{
    let u = unit_weights(tv);
    assert(u.drop_last() =~= unit_weights(tv.drop_last()));
    let j = choose|j: int| 0 <= j < u.len() && #[trigger] u[j].0.contains(x);
    if j < tv.len() - 1 {
        assert(unit_weights(tv.drop_last())[j] == u[j]);
        lemma_occurs_unit(tv.drop_last(), x);
    } else {
        assert(holds_all(u.last().0, seq![x])) by {
            assert(seq![x][0] == x);
        }
    }
}

proof fn lemma_frequent_bridge(tv: Seq<Seq<char>>, x: char)
    ensures
        occurs(unit_weights(tv), x) <==> in_some_transaction(tv, x),
        weighted_support(unit_weights(tv), seq![x]) == support(tv, seq![x]),
{
    lemma_unit_weights(tv, seq![x]);
    if occurs(unit_weights(tv), x) {
        let j = choose|j: int| 0 <= j < unit_weights(tv).len() && #[trigger] unit_weights(tv)[j].0.contains(x);
        assert(tv[j].contains(x));
    }
    if in_some_transaction(tv, x) {
        let j = choose|j: int| 0 <= j < tv.len() && #[trigger] tv[j].contains(x);
        assert(unit_weights(tv)[j].0 == tv[j]);
    }
}

/// What the mined records of `db` at threshold `min_support` satisfy: each
/// is a strictly sorted, non-empty itemset of frequent items whose recorded
/// support is its support in `db`, positive and at least `min_support`; the
/// records come in increasing lexicographic order of their itemsets, so no
/// itemset comes twice; every frequent item stands
/// alone as a record with its exact support; an empty database gives no
/// record.
#[verifier::opaque]
pub open spec fn mined_records(db: Seq<Seq<char>>, min_support: usize, recs: Seq<(Vec<char>, usize)>) -> bool {
    &&& forall|k: int|
        0 <= k < recs.len() ==> {
            &&& strictly_sorted((#[trigger] recs[k]).0@)
            &&& recs[k].0@.len() >= 1
            &&& recs[k].1 >= min_support
            &&& recs[k].1 as nat == support(db, recs[k].0@)
            &&& recs[k].1 > 0
            &&& forall|j: int|
                0 <= j < recs[k].0@.len() ==> frequent_item(db, #[trigger] recs[k].0@[j], min_support)
        }
    &&& forall|k1: int, k2: int| 0 <= k1 < k2 < recs.len() ==> (#[trigger] recs[k1]).0@ != (#[trigger] recs[k2]).0@
    &&& crate::order::lex_sorted(recs)
    &&& forall|s: Seq<char>|
        s.len() > 0 && #[trigger] support(db, s) >= min_support && support(db, s) > 0 ==> exists|k: int|
            0 <= k < recs.len() && same_item_set((#[trigger] recs[k]).0@, s)
    &&& forall|x: char|
        frequent_item(db, x, min_support) ==> exists|k: int|
            0 <= k < recs.len() && (#[trigger] recs[k]).0@ == seq![x] && recs[k].1 == support(db, seq![x])
    &&& db.len() == 0 ==> recs.len() == 0
}

/// Builds the prefix tree of `transactions` and mines it at the absolute
/// threshold `min_support`.
pub fn mine_transactions(transactions: &Vec<Vec<char>>, min_support: usize) -> (r: Vec<(Vec<char>, usize)>)
    ensures
        mined_records(transactions_view(transactions@), min_support, r@),
{
    let ghost tv = transactions_view(transactions@);
    let mut tree = FPTree::new();
    tree.build(transactions, min_support);
    let ghost keys = header_items(tree.header_table@);
    proof {
        assert forall|h: int| 0 <= h < tree.header_table@.len() implies (#[trigger] tree.header_table@[h]).support
            >= min_support && tree.header_table@[h].support >= 1 by {
            let e = header_keys(tree.header_table@)[h];
            assert(e.0 == tree.header_table@[h].item);
            lemma_occurs_unit(tv, e.0);
        }
    }
    let records = tree.mine(min_support);
    proof {
        reveal(mined_records);
        let recs = records@;
        assert forall|j: int| 0 <= j < keys.len() implies frequent_item(tv, #[trigger] keys[j], min_support) by {
            let e = header_keys(tree.header_table@)[j];
            assert(e.0 == keys[j]);
            lemma_frequent_bridge(tv, keys[j]);
        }
        assert forall|k: int| 0 <= k < recs.len() implies {
            &&& strictly_sorted((#[trigger] recs[k]).0@)
            &&& recs[k].0@.len() >= 1
            &&& recs[k].1 >= min_support
            &&& recs[k].1 as nat == support(tv, recs[k].0@)
            &&& recs[k].1 > 0
            &&& forall|j: int|
                0 <= j < recs[k].0@.len() ==> frequent_item(tv, #[trigger] recs[k].0@[j], min_support)
        } by {
            assert(extends(recs[k].0@, recs[k].1, Seq::empty(), keys, min_support));
            assert forall|j: int| 0 <= j < recs[k].0@.len() implies keys.contains(#[trigger] recs[k].0@[j]) by {
                assert(Seq::<char>::empty().contains(recs[k].0@[j]) || keys.contains(recs[k].0@[j]));
            }
            lemma_ordered_support(keys, unit_weights(tv), recs[k].0@);
            lemma_unit_weights(tv, recs[k].0@);
            assert forall|j: int| 0 <= j < recs[k].0@.len() implies frequent_item(tv, #[trigger] recs[k].0@[j], min_support) by {
                assert(keys.contains(recs[k].0@[j]));
                let q = choose|q: int| 0 <= q < keys.len() && keys[q] == recs[k].0@[j];
                assert(frequent_item(tv, keys[q], min_support));
            }
        }
        assert forall|x: char| frequent_item(tv, x, min_support) implies exists|k: int|
            0 <= k < recs.len() && (#[trigger] recs[k]).0@ == seq![x] && recs[k].1 == support(tv, seq![x]) by {
            lemma_frequent_bridge(tv, x);
            let h = choose|h: int| 0 <= h < header_keys(tree.header_table@).len() && (#[trigger] header_keys(tree.header_table@)[h]).0 == x;
            let e = tree.header_table@[h];
            assert(header_keys(tree.header_table@)[h] == (e.item, e.support));
            assert(emitted_single(recs, e));
        }
        assert forall|s: Seq<char>|
            s.len() > 0 && #[trigger] support(tv, s) >= min_support && support(tv, s) > 0 implies exists|k: int|
                0 <= k < recs.len() && same_item_set((#[trigger] recs[k]).0@, s) by {
            assert forall|j: int| 0 <= j < s.len() implies keys.contains(#[trigger] s[j]) by {
                let y = s[j];
                assert forall|q: int| 0 <= q < seq![y].len() implies #[trigger] s.contains(seq![y][q]) by {
                    assert(seq![y][q] == y);
                }
                crate::itemset::lemma_support_subset(tv, seq![y], s);
                lemma_unit_weights(tv, seq![y]);
                crate::itemset::lemma_positive_support_occurs(unit_weights(tv), y);
                let h = choose|h: int| 0 <= h < header_keys(tree.header_table@).len() && (#[trigger] header_keys(tree.header_table@)[h]).0 == y;
                assert(keys[h] == y);
            }
            lemma_ordered_support(keys, unit_weights(tv), s);
            lemma_unit_weights(tv, s);
            assert(minable(tree.paths@, keys, s, min_support));
            let k = choose|k: int| 0 <= k < recs.len() && forall|y: char| (#[trigger] recs[k]).0@.contains(y) <==> s.contains(y);
            assert(same_item_set(recs[k].0@, s));
        }
        if tv.len() == 0 {
            if tree.header_table@.len() > 0 {
                let e = header_keys(tree.header_table@)[0];
                assert(occurs(unit_weights(tv), e.0));
            }
        }
    }
    records
}

/// Mines `transactions` at the absolute threshold `min_support`, then draws
/// the association rules whose confidence reaches `min_conf_num /
/// min_conf_den`. Returns the mined records (each a strictly sorted itemset
/// with its support) and the rules.
pub fn fp_growth(
    transactions: &Vec<Vec<char>>,
    min_support: usize,
    min_conf_num: usize,
    min_conf_den: usize,
) -> (r: Result<(Vec<(Vec<char>, usize)>, Vec<Rule>), MiningError>)
    ensures
        (min_conf_den == 0 || min_conf_num > min_conf_den) <==> r matches Err(
            MiningError::InvalidParameter,
        ),
        r matches Err(MiningError::ItemsetTooLarge) ==> !(min_conf_den == 0 || min_conf_num > min_conf_den)
            && exists|s: Seq<char>|
            s.len() >= 64 && s.no_duplicates() && #[trigger] support(transactions_view(transactions@), s)
                >= min_support && support(transactions_view(transactions@), s) > 0,
        (!(min_conf_den == 0 || min_conf_num > min_conf_den) && exists|s: Seq<char>|
            s.len() >= 64 && s.no_duplicates() && #[trigger] support(transactions_view(transactions@), s)
                >= min_support && support(transactions_view(transactions@), s) > 0) ==> r matches Err(
            MiningError::ItemsetTooLarge,
        ),
        r matches Ok(out) ==> {
            &&& mined_records(transactions_view(transactions@), min_support, out.0@)
            &&& rules_of(out.0@, min_conf_num, min_conf_den, out.1@)
            &&& forall|k: int| 0 <= k < out.1@.len() ==> (#[trigger] out.1@[k]).support <= out.1@[k].antecedent_support
            &&& forall|k: int|
                0 <= k < out.1@.len() ==> (#[trigger] out.1@[k]).antecedent_support == support(
                    transactions_view(transactions@),
                    out.1@[k].antecedent@,
                ) && out.1@[k].support == support(
                    transactions_view(transactions@),
                    out.1@[k].antecedent@ + out.1@[k].consequent@,
                )
            &&& transactions@.len() == 0 ==> out.1@.len() == 0
        },
{
    if min_conf_den == 0 || min_conf_num > min_conf_den {
        return Err(MiningError::InvalidParameter);
    }
    let ghost tv = transactions_view(transactions@);
    let records = mine_transactions(transactions, min_support);
    let mut i: usize = 0;
    while i < records.len()
        invariant
            0 <= i <= records@.len(),
            mined_records(tv, min_support, records@),
            forall|k: int| 0 <= k < i ==> (#[trigger] records@[k]).0@.len() < 64,
            tv == transactions_view(transactions@),
            !(min_conf_den == 0 || min_conf_num > min_conf_den),
        decreases records.len() - i,
    {
        if records[i].0.len() >= 64 {
            proof {
                reveal(mined_records);
                let s = records@[i as int].0@;
                assert(strictly_sorted(s));
                assert(s.no_duplicates()) by {
                    assert forall|a: int, b: int| 0 <= a < s.len() && 0 <= b < s.len() && a != b implies s[a] != s[b] by {
                        if a > b {
                            assert(s[b] < s[a]);
                        }
                    }
                }
                assert(support(tv, s) >= min_support && support(tv, s) > 0);
            }
            return Err(MiningError::ItemsetTooLarge);
        }
        i = i + 1;
    }
    proof {
        assert forall|s: Seq<char>|
            s.len() >= 64 && s.no_duplicates() && #[trigger] support(tv, s) >= min_support && support(tv, s) > 0
                implies false by {
            lemma_mined_complete(tv, min_support, records@, s);
            let k = choose|k: int| 0 <= k < records@.len() && same_item_set((#[trigger] records@[k]).0@, s);
            assert forall|j: int| 0 <= j < s.len() implies records@[k].0@.contains(#[trigger] s[j]) by {
                assert(s.contains(s[j]));
            }
            crate::mining::lemma_len_within(s, records@[k].0@);
            assert(records@[k].0@.len() < 64);
        }
    }
    let rules = generate_rules(&records, min_conf_num, min_conf_den);
    proof {
        reveal(mined_records);
        assert forall|j: int| 0 <= j < records@.len() implies (#[trigger] records@[j]).1 == support(tv, records@[j].0@) by {
            assert(records@[j].1 as nat == support(tv, records@[j].0@));
        }
        crate::rules::lemma_rules_confidence_bounded(tv, records@, min_conf_num, min_conf_den, rules@);
        crate::rules::lemma_rules_true_supports(tv, records@, min_conf_num, min_conf_den, rules@);
        if transactions@.len() == 0 {
            reveal(mined_records);
        }
    }
    Ok((records, rules))
}

/// Two strictly sorted itemsets with the same items are equal.
pub proof fn lemma_sorted_same_items(a: Seq<char>, b: Seq<char>)
    requires
        strictly_sorted(a),
        strictly_sorted(b),
        forall|y: char| a.contains(y) <==> b.contains(y),
    ensures
        a == b,
    decreases a.len(),
{
    if a.len() == 0 {
        if b.len() > 0 {
            assert(b.contains(b[0]));
        }
        assert(b.len() == 0);
        assert(a =~= b);
    } else {
        if b.len() == 0 {
            assert(a.contains(a[0]));
        }
        let ma = a.last();
        let mb = b.last();
        assert(a.contains(ma));
        assert(b.contains(mb));
        let ia = choose|k: int| 0 <= k < a.len() && a[k] == mb;
        let ib = choose|k: int| 0 <= k < b.len() && b[k] == ma;
        if ia < a.len() - 1 {
            assert(a[ia] < a[a.len() - 1]);
        }
        if ib < b.len() - 1 {
            assert(b[ib] < b[b.len() - 1]);
        }
        assert(ma == mb);
        let da = a.drop_last();
        let db = b.drop_last();
        assert forall|y: char| da.contains(y) <==> db.contains(y) by {
            if da.contains(y) {
                let k = choose|k: int| 0 <= k < da.len() && da[k] == y;
                assert(a[k] < a[a.len() - 1]);
                assert(b.contains(y));
                let q = choose|q: int| 0 <= q < b.len() && b[q] == y;
                assert(q != b.len() - 1);
                assert(db[q] == y);
            }
            if db.contains(y) {
                let k = choose|k: int| 0 <= k < db.len() && db[k] == y;
                assert(b[k] < b[b.len() - 1]);
                assert(a.contains(y));
                let q = choose|q: int| 0 <= q < a.len() && a[q] == y;
                assert(q != a.len() - 1);
                assert(da[q] == y);
            }
        }
        lemma_sorted_same_items(da, db);
        assert(a =~= da.push(ma));
        assert(b =~= db.push(mb));
    }
}

/// Some record of `rs` has the itemset and the support of `rec`.
pub open spec fn record_in(rec: (Vec<char>, usize), rs: Seq<(Vec<char>, usize)>) -> bool {
    exists|j: int| 0 <= j < rs.len() && (#[trigger] rs[j]).0@ == rec.0@ && rs[j].1 == rec.1
}

proof fn lemma_mined_record(db: Seq<Seq<char>>, min_support: usize, r: Seq<(Vec<char>, usize)>, k: int)
    requires
        mined_records(db, min_support, r),
        0 <= k < r.len(),
    ensures
        strictly_sorted(r[k].0@),
        r[k].0@.len() >= 1,
        r[k].1 >= min_support,
        r[k].1 as nat == support(db, r[k].0@),
        r[k].1 > 0,
{
    reveal(mined_records);
}

proof fn lemma_mined_complete(db: Seq<Seq<char>>, min_support: usize, r: Seq<(Vec<char>, usize)>, s: Seq<char>)
    requires
        mined_records(db, min_support, r),
        s.len() > 0,
        support(db, s) >= min_support,
        support(db, s) > 0,
    ensures
        exists|j: int| 0 <= j < r.len() && same_item_set((#[trigger] r[j]).0@, s),
{
    reveal(mined_records);
}

/// Mining is determined by its inputs: two record lists that both meet the
/// mining contract for the same transactions and threshold list the same
/// records (itemset and support) in the same order.
pub proof fn lemma_mining_determined(
    db: Seq<Seq<char>>,
    min_support: usize,
    r1: Seq<(Vec<char>, usize)>,
    r2: Seq<(Vec<char>, usize)>,
)
    requires
        mined_records(db, min_support, r1),
        mined_records(db, min_support, r2),
    ensures
        forall|k: int| 0 <= k < r1.len() ==> record_in(#[trigger] r1[k], r2),
        forall|k: int| 0 <= k < r2.len() ==> record_in(#[trigger] r2[k], r1),
        r1.len() == r2.len(),
        forall|k: int| 0 <= k < r1.len() ==> (#[trigger] r1[k]).0@ == r2[k].0@ && r1[k].1 == r2[k].1,
{
    lemma_records_covered(db, min_support, r1, r2);
    lemma_records_covered(db, min_support, r2, r1);
    lemma_mined_sorted(db, min_support, r1);
    lemma_mined_sorted(db, min_support, r2);
    lemma_sorted_records_equal(r1, r2);
}

proof fn lemma_records_covered(
    db: Seq<Seq<char>>,
    min_support: usize,
    r1: Seq<(Vec<char>, usize)>,
    r2: Seq<(Vec<char>, usize)>,
)
    requires
        mined_records(db, min_support, r1),
        mined_records(db, min_support, r2),
    ensures
        forall|k: int| 0 <= k < r1.len() ==> record_in(#[trigger] r1[k], r2),
{
    assert forall|k: int| 0 <= k < r1.len() implies record_in(#[trigger] r1[k], r2) by {
        let s = r1[k].0@;
        lemma_mined_record(db, min_support, r1, k);
        lemma_mined_complete(db, min_support, r2, s);
        let j = choose|j: int| 0 <= j < r2.len() && same_item_set((#[trigger] r2[j]).0@, s);
        lemma_mined_record(db, min_support, r2, j);
        lemma_sorted_same_items(r2[j].0@, s);
    }
}

#[verifier::rlimit(100)]
#[verifier::spinoff_prover]
proof fn lemma_sorted_records_equal(r1: Seq<(Vec<char>, usize)>, r2: Seq<(Vec<char>, usize)>)
    requires
        crate::order::lex_sorted(r1),
        crate::order::lex_sorted(r2),
        forall|k: int| 0 <= k < r1.len() ==> record_in(#[trigger] r1[k], r2),
        forall|k: int| 0 <= k < r2.len() ==> record_in(#[trigger] r2[k], r1),
    ensures
        r1.len() == r2.len(),
        forall|k: int| 0 <= k < r1.len() ==> (#[trigger] r1[k]).0@ == r2[k].0@ && r1[k].1 == r2[k].1,
    decreases r1.len() + r2.len(),
{
    if r1.len() == 0 {
        if r2.len() > 0 {
            assert(record_in(r2[0], r1));
        }
    } else if r2.len() == 0 {
        assert(record_in(r1[0], r2));
    } else {
        let n1 = r1.len() - 1;
        let n2 = r2.len() - 1;
        assert(record_in(r1[n1], r2));
        let j = choose|j: int| 0 <= j < r2.len() && (#[trigger] r2[j]).0@ == r1[n1].0@ && r2[j].1 == r1[n1].1;
        assert(record_in(r2[n2], r1));
        let i = choose|i: int| 0 <= i < r1.len() && (#[trigger] r1[i]).0@ == r2[n2].0@ && r1[i].1 == r2[n2].1;
        if j < n2 {
            assert(crate::order::lex_less(r2[j].0@, r2[n2].0@));
            if i < n1 {
                assert(crate::order::lex_less(r1[i].0@, r1[n1].0@));
                crate::order::lemma_lex_transitive(r1[n1].0@, r2[n2].0@, r1[n1].0@);
            }
            crate::order::lemma_lex_irreflexive(r1[n1].0@);
        }
        assert(r2[n2].0@ == r1[n1].0@ && r2[n2].1 == r1[n1].1) by {
            if j < n2 {
                crate::order::lemma_lex_irreflexive(r1[n1].0@);
            }
        }
        let d1 = r1.drop_last();
        let d2 = r2.drop_last();
        assert forall|k: int| 0 <= k < d1.len() implies record_in(#[trigger] d1[k], d2) by {
            assert(d1[k] == r1[k]);
            assert(record_in(r1[k], r2));
            let q = choose|q: int| 0 <= q < r2.len() && (#[trigger] r2[q]).0@ == r1[k].0@ && r2[q].1 == r1[k].1;
            assert(crate::order::lex_less(r1[k].0@, r1[n1].0@));
            crate::order::lemma_lex_irreflexive(r1[k].0@);
            assert(q != n2);
            assert(d2[q] == r2[q]);
        }
        assert forall|k: int| 0 <= k < d2.len() implies record_in(#[trigger] d2[k], d1) by {
            assert(d2[k] == r2[k]);
            assert(record_in(r2[k], r1));
            let q = choose|q: int| 0 <= q < r1.len() && (#[trigger] r1[q]).0@ == r2[k].0@ && r1[q].1 == r2[k].1;
            assert(crate::order::lex_less(r2[k].0@, r2[n2].0@));
            crate::order::lemma_lex_irreflexive(r2[k].0@);
            assert(q != n1);
            assert(d1[q] == r1[q]);
        }
        lemma_sorted_records_equal(d1, d2);
        assert forall|k: int| 0 <= k < r1.len() implies (#[trigger] r1[k]).0@ == r2[k].0@ && r1[k].1 == r2[k].1 by {
            if k < n1 {
                assert(d1[k] == r1[k] && d2[k] == r2[k]);
            }
        }
    }
}

proof fn lemma_mined_sorted(db: Seq<Seq<char>>, min_support: usize, r: Seq<(Vec<char>, usize)>)
    requires
        mined_records(db, min_support, r),
    ensures
        crate::order::lex_sorted(r),
{
    reveal(mined_records);
}

/// Re-mining is idempotent: two results that both meet the contract of
/// `fp_growth` for the same transactions and parameters list the same
/// records in the same order, and hold the same rules, equally many.
pub proof fn lemma_results_determined(
    db: Seq<Seq<char>>,
    min_support: usize,
    num: usize,
    den: usize,
    recs1: Seq<(Vec<char>, usize)>,
    rules1: Seq<Rule>,
    recs2: Seq<(Vec<char>, usize)>,
    rules2: Seq<Rule>,
)
    requires
        mined_records(db, min_support, recs1),
        mined_records(db, min_support, recs2),
        rules_of(recs1, num, den, rules1),
        rules_of(recs2, num, den, rules2),
    ensures
        crate::rules::same_records(recs1, recs2),
        forall|k: int| 0 <= k < rules1.len() ==> crate::rules::rule_in(#[trigger] rules1[k], rules2),
        forall|k: int| 0 <= k < rules2.len() ==> crate::rules::rule_in(#[trigger] rules2[k], rules1),
        rules1.len() == rules2.len(),
{
    lemma_mining_determined(db, min_support, recs1, recs2);
    crate::rules::lemma_rules_same_records(recs1, recs2, num, den, rules1, rules2);
}

} // verus!
