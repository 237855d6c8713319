//! Association rules drawn from mined itemsets and their supports.
use vstd::prelude::*;
use crate::itemset::{
    lemma_support_subset, lemma_unit_weights, lemma_weighted_support_same_items, support,
    unit_weights,
};
use crate::mining::copy_items;

verus! {

/// An association rule `antecedent => consequent`. Its confidence is the
/// fraction `support / antecedent_support`: the support of the whole itemset
/// over the support of the antecedent.
#[derive(Debug)]
pub struct Rule {
    pub antecedent: Vec<char>,
    pub consequent: Vec<char>,
    pub support: usize,
    pub antecedent_support: usize,
}

/// Bit `i` of `mask` is set.
pub open spec fn bit_set(mask: u64, i: u64) -> bool {
    (mask >> i) & 1u64 == 1u64
}

/// The items of `s` among its first `k` whose position has its bit set in
/// `mask`, in order.
pub open spec fn mask_subset(s: Seq<char>, mask: u64, k: int) -> Seq<char>
    decreases k,
{
    if k <= 0 || k > s.len() {
        Seq::empty()
    } else {
        let prev = mask_subset(s, mask, k - 1);
        if bit_set(mask, (k - 1) as u64) {
            prev.push(s[k - 1])
        } else {
            prev
        }
    }
}

/// The items of `s`, in order, that `a` does not hold.
pub open spec fn items_without(s: Seq<char>, a: Seq<char>) -> Seq<char>
    decreases s.len(),
{
    if s.len() == 0 {
        Seq::empty()
    } else {
        let prev = items_without(s.drop_last(), a);
        if a.contains(s.last()) {
            prev
        } else {
            prev.push(s.last())
        }
    }
}

/// The support recorded for itemset `a`: that of the first record from
/// index `i` on whose items are exactly `a`, or zero when there is none.
pub open spec fn recorded_support(recs: Seq<(Vec<char>, usize)>, a: Seq<char>, i: int) -> usize
    decreases recs.len() - i,
{
    if i < 0 || i >= recs.len() {
        0
    } else if recs[i].0@ == a {
        recs[i].1
    } else {
        recorded_support(recs, a, i + 1)
    }
}

/// The rule drawn from record `i` with antecedent mask `m`, when it is kept:
/// the itemset has two items or more, the antecedent is neither empty nor
/// the whole itemset, the consequent is not empty, the antecedent's recorded
/// support is positive, and the confidence reaches `num / den`.
pub open spec fn kept_rule(
    recs: Seq<(Vec<char>, usize)>,
    i: int,
    m: u64,
    num: usize,
    den: usize,
) -> bool {
    let s = recs[i].0@;
    let a = mask_subset(s, m, s.len() as int);
    let sa = recorded_support(recs, a, 0);
    &&& 0 <= i < recs.len()
    &&& s.len() >= 2
    &&& s.len() < 64
    &&& (m as int) < vstd::arithmetic::power2::pow2(s.len() as nat)
    &&& a.len() > 0
    &&& a.len() < s.len()
    &&& items_without(s, a).len() > 0
    &&& sa > 0
    &&& recs[i].1 * den >= num * sa
}

/// `r` is the rule drawn from record `i` with antecedent mask `m`.
pub open spec fn is_rule_of(r: Rule, recs: Seq<(Vec<char>, usize)>, i: int, m: u64) -> bool {
    let s = recs[i].0@;
    let a = mask_subset(s, m, s.len() as int);
    &&& r.antecedent@ == a
    &&& r.consequent@ == items_without(s, a)
    &&& r.support == recs[i].1
    &&& r.antecedent_support == recorded_support(recs, a, 0)
}

/// `r` is the rule drawn from some record and mask, and is kept.
pub open spec fn explained(r: Rule, recs: Seq<(Vec<char>, usize)>, num: usize, den: usize) -> bool {
    exists|i: int, m: u64| #[trigger] kept_rule(recs, i, m, num, den) && is_rule_of(r, recs, i, m)
}

/// `rules` are exactly the kept rules of `recs`, each listed once: each is
/// explained by a record and mask, each kept record and mask has its rule
/// among them, and no two of them state the same rule.
#[verifier::opaque]
pub open spec fn rules_of(recs: Seq<(Vec<char>, usize)>, num: usize, den: usize, rules: Seq<Rule>) -> bool {
    &&& forall|k: int| 0 <= k < rules.len() ==> explained(#[trigger] rules[k], recs, num, den)
    &&& forall|i: int, m: u64|
        #[trigger] kept_rule(recs, i, m, num, den) ==> exists|k: int|
            0 <= k < rules.len() && #[trigger] is_rule_of(rules[k], recs, i, m)
    &&& forall|k1: int, k2: int| 0 <= k1 < k2 < rules.len() ==> !same_rule(#[trigger] rules[k1], #[trigger] rules[k2])
}

/// `r` has antecedent `a`, consequent `c` and supports `s`, `sa`.
pub open spec fn rule_fields(r: Rule, a: Seq<char>, c: Seq<char>, s: usize, sa: usize) -> bool {
    r.antecedent@ == a && r.consequent@ == c && r.support == s && r.antecedent_support == sa
}

/// Whether `rules` already lists the rule with these parts.
pub fn rule_listed(rules: &Vec<Rule>, a: &Vec<char>, c: &Vec<char>, s: usize, sa: usize) -> (r: bool)
    ensures
        r == exists|k: int| 0 <= k < rules@.len() && rule_fields(#[trigger] rules@[k], a@, c@, s, sa),
{
    let mut k: usize = 0;
    while k < rules.len()
        invariant
            0 <= k <= rules@.len(),
            forall|j: int| 0 <= j < k ==> !rule_fields(#[trigger] rules@[j], a@, c@, s, sa),
        decreases rules.len() - k,
    {
        let rule = &rules[k];
        if rule.support == s && rule.antecedent_support == sa && same_items(&rule.antecedent, a) && same_items(
            &rule.consequent,
            c,
        ) {
            return true;
        }
        k = k + 1;
    }
    false
}

/// Whether `a` and `b` list the same items in the same order.
pub fn same_items(a: &Vec<char>, b: &Vec<char>) -> (r: bool)
    ensures
        r == (a@ == b@),
{
    if a.len() != b.len() {
        return false;
    }
    let mut i: usize = 0;
    while i < a.len()
        invariant
            a@.len() == b@.len(),
            0 <= i <= a@.len(),
            forall|j: int| 0 <= j < i ==> a@[j] == b@[j],
        decreases a.len() - i,
    {
        if a[i] != b[i] {
            return false;
        }
        i = i + 1;
    }
    assert(a@ =~= b@);
    true
}

/// The support recorded for `a` in `recs` (zero when absent).
pub fn lookup_support(recs: &Vec<(Vec<char>, usize)>, a: &Vec<char>) -> (r: usize)
    ensures
        r == recorded_support(recs@, a@, 0),
{
    let mut i: usize = 0;
    while i < recs.len()
        invariant
            0 <= i <= recs@.len(),
            recorded_support(recs@, a@, 0) == recorded_support(recs@, a@, i as int),
        decreases recs.len() - i,
    {
        if same_items(&recs[i].0, a) {
            return recs[i].1;
        }
        i = i + 1;
    }
    0
}

/// Every subset of `itemset`, one per mask below `2^n`: the subset for mask
/// `m` holds the items whose position has its bit set in `m`.
pub fn generate_all_subsets(itemset: &Vec<char>) -> (r: Vec<Vec<char>>)
    requires
        itemset@.len() < 64,
    ensures
        r@.len() == vstd::arithmetic::power2::pow2(itemset@.len() as nat),
        forall|m: int| 0 <= m < r@.len() ==> (#[trigger] r@[m])@ == mask_subset(itemset@, m as u64, itemset@.len() as int),
{
    let n = itemset.len();
    let total: u64 = 1u64 << (n as u64);
    proof {
        vstd::arithmetic::power2::lemma_pow2(n as nat);
        assert(total == vstd::arithmetic::power2::pow2(n as nat)) by {
            vstd::bits::lemma_u64_pow2_no_overflow(n as nat);
            vstd::bits::lemma_u64_shl_is_mul(1u64, n as u64);
        }
    }
    let mut result: Vec<Vec<char>> = Vec::new();
    let mut mask: u64 = 0;
    while mask < total
        invariant
            n == itemset@.len(),
            n < 64,
            total == vstd::arithmetic::power2::pow2(n as nat),
            mask <= total,
            result@.len() == mask,
            forall|m: int| 0 <= m < result@.len() ==> (#[trigger] result@[m])@ == mask_subset(itemset@, m as u64, n as int),
        decreases total - mask,
    {
        let mut subset: Vec<char> = Vec::new();
        let mut i: usize = 0;
        while i < n
            invariant
                n == itemset@.len(),
                n < 64,
                0 <= i <= n,
                subset@ == mask_subset(itemset@, mask, i as int),
            decreases n - i,
        {
            if (mask >> (i as u64)) & 1 == 1 {
                subset.push(itemset[i]);
            }
            i = i + 1;
        }
        result.push(subset);
        mask = mask + 1;
    }
    result
}

/// The items of `s`, in order, that `a` does not hold.
pub fn without_items(s: &Vec<char>, a: &Vec<char>) -> (r: Vec<char>)
    ensures
        r@ == items_without(s@, a@),
{
    let mut r: Vec<char> = Vec::new();
    let mut i: usize = 0;
    while i < s.len()
        invariant
            0 <= i <= s@.len(),
            r@ == items_without(s@.take(i as int), a@),
        decreases s.len() - i,
    {
        assert(s@.take(i + 1).drop_last() =~= s@.take(i as int));
        if !crate::counter::contains_item(a, s[i]) {
            r.push(s[i]);
        }
        i = i + 1;
    }
    assert(s@.take(i as int) =~= s@);
    r
}

/// The association rules of the mined records `frequent_itemsets`, for the
/// minimum confidence `min_conf_num / min_conf_den`. Every emitted rule is
/// the kept rule of some record and antecedent mask (see `kept_rule`), and
/// every kept rule is emitted.
pub fn generate_rules(
    frequent_itemsets: &Vec<(Vec<char>, usize)>,
    min_conf_num: usize,
    min_conf_den: usize,
) -> (r: Vec<Rule>)
    requires
        forall|i: int| 0 <= i < frequent_itemsets@.len() ==> (#[trigger] frequent_itemsets@[i]).0@.len() < 64,
    ensures
        forall|k: int| 0 <= k < r@.len() ==> explained(#[trigger] r@[k], frequent_itemsets@, min_conf_num, min_conf_den),
        forall|i: int, m: u64|
            #[trigger] kept_rule(frequent_itemsets@, i, m, min_conf_num, min_conf_den) ==> exists|k: int|
                0 <= k < r@.len() && #[trigger] is_rule_of(r@[k], frequent_itemsets@, i, m),
        rules_of(frequent_itemsets@, min_conf_num, min_conf_den, r@),
        frequent_itemsets@.len() == 0 ==> r@.len() == 0,
{
    let ghost recs = frequent_itemsets@;
    let mut rules: Vec<Rule> = Vec::new();
    let mut i: usize = 0;
    while i < frequent_itemsets.len()
        invariant
            recs == frequent_itemsets@,
            0 <= i <= recs.len(),
            forall|q: int| 0 <= q < recs.len() ==> (#[trigger] recs[q]).0@.len() < 64,
            forall|k: int| 0 <= k < rules@.len() ==> explained(#[trigger] rules@[k], recs, min_conf_num, min_conf_den),
            forall|i2: int, m: u64|
                #[trigger] kept_rule(recs, i2, m, min_conf_num, min_conf_den) && i2 < i ==> exists|k: int|
                    0 <= k < rules@.len() && #[trigger] is_rule_of(rules@[k], recs, i2, m),
            forall|k1: int, k2: int| 0 <= k1 < k2 < rules@.len() ==> !same_rule(#[trigger] rules@[k1], #[trigger] rules@[k2]),
        decreases recs.len() - i,
    {
        let itemset = &frequent_itemsets[i].0;
        let support = frequent_itemsets[i].1;
        let n = itemset.len();
        assert(recs[i as int].0@.len() < 64);
        if n >= 2 {
            let subsets = generate_all_subsets(itemset);
            let mut m: usize = 0;
            while m < subsets.len()
                invariant
                    recs == frequent_itemsets@,
                    0 <= i < recs.len(),
                    itemset@ == recs[i as int].0@,
                    support == recs[i as int].1,
                    n == itemset@.len(),
                    2 <= n < 64,
                    subsets@.len() == vstd::arithmetic::power2::pow2(n as nat),
                    forall|q: int| 0 <= q < subsets@.len() ==> (#[trigger] subsets@[q])@ == mask_subset(itemset@, q as u64, n as int),
                    0 <= m <= subsets@.len(),
                    forall|k: int| 0 <= k < rules@.len() ==> explained(#[trigger] rules@[k], recs, min_conf_num, min_conf_den),
                    forall|i2: int, m2: u64|
                        #[trigger] kept_rule(recs, i2, m2, min_conf_num, min_conf_den) && (i2 < i || (i2 == i && (m2 as int) < m)) ==> exists|k: int|
                            0 <= k < rules@.len() && #[trigger] is_rule_of(rules@[k], recs, i2, m2),
                    forall|k1: int, k2: int| 0 <= k1 < k2 < rules@.len() ==> !same_rule(#[trigger] rules@[k1], #[trigger] rules@[k2]),
                decreases subsets@.len() - m,
            {
                let antecedent = &subsets[m];
                let ghost mask = m as u64;
                assert(mask as int == m as int);
                assert(antecedent@ == mask_subset(itemset@, mask, n as int));
                let ghost before = rules@;
                let ghost mut wk: int = -1;
                if antecedent.len() > 0 && antecedent.len() < n {
                    let consequent = without_items(itemset, antecedent);
                    if consequent.len() > 0 {
                        let antecedent_support = lookup_support(frequent_itemsets, antecedent);
                        let a: u128 = support as u128;
                        let b: u128 = min_conf_den as u128;
                        let c: u128 = min_conf_num as u128;
                        let d: u128 = antecedent_support as u128;
                        proof {
                            assert(a * b <= u128::MAX) by (nonlinear_arith)
                                requires a <= u64::MAX as u128, b <= u64::MAX as u128;
                            assert(c * d <= u128::MAX) by (nonlinear_arith)
                                requires c <= u64::MAX as u128, d <= u64::MAX as u128;
                        }
                        if antecedent_support > 0 && a * b >= c * d {
                            let listed = rule_listed(&rules, antecedent, &consequent, support, antecedent_support);
                            if !listed {
                                let rule = Rule {
                                    antecedent: copy_items(antecedent),
                                    consequent,
                                    support,
                                    antecedent_support,
                                };
                                rules.push(rule);
                                proof {
                                    assert(kept_rule(recs, i as int, mask, min_conf_num, min_conf_den));
                                    assert(is_rule_of(rules@[before.len() as int], recs, i as int, mask));
                                    wk = before.len() as int;
                                    assert forall|k1: int, k2: int| 0 <= k1 < k2 < rules@.len() implies !same_rule(
                                        #[trigger] rules@[k1], #[trigger] rules@[k2]) by {
                                        assert(rules@[k1] == before[k1]);
                                        if k2 < before.len() {
                                            assert(rules@[k2] == before[k2]);
                                        } else if same_rule(rules@[k1], rules@[k2]) {
                                            assert(rule_fields(before[k1], antecedent@, consequent@, support, antecedent_support));
                                        }
                                    }
                                }
                            } else {
                                proof {
                                    let k = choose|k: int| 0 <= k < rules@.len() && rule_fields(#[trigger] rules@[k], antecedent@,
                                        consequent@, support, antecedent_support);
                                    assert(kept_rule(recs, i as int, mask, min_conf_num, min_conf_den));
                                    assert(is_rule_of(rules@[k], recs, i as int, mask));
                                    wk = k;
                                }
                            }
                        }
                    }
                }
                proof {
                    if kept_rule(recs, i as int, mask, min_conf_num, min_conf_den) {
                        assert(0 <= wk < rules@.len() && is_rule_of(rules@[wk], recs, i as int, mask));
                    }
                    assert forall|k: int| 0 <= k < rules@.len() implies explained(#[trigger] rules@[k], recs, min_conf_num, min_conf_den) by {
                        if k < before.len() {
                            assert(rules@[k] == before[k]);
                        } else {
                            assert(wk == k);
                            assert(kept_rule(recs, i as int, mask, min_conf_num, min_conf_den));
                            assert(is_rule_of(rules@[k], recs, i as int, mask));
                        }
                    }
                    assert forall|i2: int, m2: u64|
                        #[trigger] kept_rule(recs, i2, m2, min_conf_num, min_conf_den) && (i2 < i || (i2 == i && (m2 as int) < m + 1)) implies exists|k: int|
                            0 <= k < rules@.len() && #[trigger] is_rule_of(rules@[k], recs, i2, m2) by {
                        if i2 < i || (m2 as int) < m {
                            let k = choose|k: int| 0 <= k < before.len() && #[trigger] is_rule_of(before[k], recs, i2, m2);
                            assert(rules@[k] == before[k]);
                        } else {
                            assert(m2 == mask);
                            assert(is_rule_of(rules@[wk], recs, i as int, mask));
                        }
                    }
                }
                m = m + 1;
            }
            proof {
                assert forall|i2: int, m2: u64|
                    #[trigger] kept_rule(recs, i2, m2, min_conf_num, min_conf_den) && i2 < i + 1 implies exists|k: int|
                        0 <= k < rules@.len() && #[trigger] is_rule_of(rules@[k], recs, i2, m2) by {
                    if i2 == i {
                        assert((m2 as int) < m);
                    }
                }
            }
        }
        i = i + 1;
    }
    proof {
        reveal(rules_of);
        if recs.len() == 0 && rules@.len() > 0 {
            assert(explained(rules@[0], recs, min_conf_num, min_conf_den));
        }
    }
    rules
}

proof fn lemma_recorded_support_found(recs: Seq<(Vec<char>, usize)>, a: Seq<char>, i: int)
    requires
        0 <= i,
        recorded_support(recs, a, i) > 0,
    ensures
        exists|j: int| i <= j < recs.len() && recs[j].0@ == a && recs[j].1 == recorded_support(recs, a, i),
    decreases recs.len() - i,
{
    if i < recs.len() && recs[i].0@ != a {
        lemma_recorded_support_found(recs, a, i + 1);
    }
}

proof fn lemma_mask_subset_within(s: Seq<char>, mask: u64, k: int)
    requires
        0 <= k <= s.len(),
    ensures
        forall|j: int| 0 <= j < mask_subset(s, mask, k).len() ==> s.contains(#[trigger] mask_subset(s, mask, k)[j]),
    decreases k,
{
    if k > 0 {
        lemma_mask_subset_within(s, mask, k - 1);
        let prev = mask_subset(s, mask, k - 1);
        assert forall|j: int| 0 <= j < mask_subset(s, mask, k).len() implies s.contains(#[trigger] mask_subset(s, mask, k)[j]) by {
            if j < prev.len() {
                assert(mask_subset(s, mask, k)[j] == prev[j]);
            } else {
                assert(mask_subset(s, mask, k)[j] == s[k - 1]);
            }
        }
    }
}

/// When each record's support is the support of its itemset in `db`, a kept
/// rule's confidence is at most one: the itemset's support never exceeds the
/// antecedent's.
pub proof fn lemma_rule_confidence_at_most_one(
    db: Seq<Seq<char>>,
    recs: Seq<(Vec<char>, usize)>,
    i: int,
    m: u64,
    num: usize,
    den: usize,
)
    requires
        forall|j: int| 0 <= j < recs.len() ==> (#[trigger] recs[j]).1 == support(db, recs[j].0@),
        kept_rule(recs, i, m, num, den),
    ensures
        recs[i].1 <= recorded_support(recs, mask_subset(recs[i].0@, m, recs[i].0@.len() as int), 0),
{
    let s = recs[i].0@;
    let a = mask_subset(s, m, s.len() as int);
    lemma_recorded_support_found(recs, a, 0);
    let j = choose|j: int| 0 <= j < recs.len() && recs[j].0@ == a && recs[j].1 == recorded_support(recs, a, 0);
    assert(recs[j].1 == support(db, a));
    assert(recs[i].1 == support(db, s));
    lemma_mask_subset_within(s, m, s.len() as int);
    lemma_support_subset(db, a, s);
}

/// Two rules state the same thing: same antecedent, consequent and supports.
pub open spec fn same_rule(a: Rule, b: Rule) -> bool {
    &&& a.antecedent@ == b.antecedent@
    &&& a.consequent@ == b.consequent@
    &&& a.support == b.support
    &&& a.antecedent_support == b.antecedent_support
}

/// `r` states the same as some rule of `rs`.
pub open spec fn rule_in(r: Rule, rs: Seq<Rule>) -> bool {
    exists|j: int| 0 <= j < rs.len() && same_rule(r, #[trigger] rs[j])
}

proof fn lemma_rule_match(recs: Seq<(Vec<char>, usize)>, num: usize, den: usize, r: Rule, r2: Seq<Rule>)
    requires
        explained(r, recs, num, den),
        rules_of(recs, num, den, r2),
    ensures
        rule_in(r, r2),
{
    reveal(rules_of);
    let (i, m) = choose|i: int, m: u64| #[trigger] kept_rule(recs, i, m, num, den) && is_rule_of(r, recs, i, m);
    let j = choose|j: int| 0 <= j < r2.len() && #[trigger] is_rule_of(r2[j], recs, i, m);
    assert(same_rule(r, r2[j]));
}

proof fn lemma_rules_of_explained(recs: Seq<(Vec<char>, usize)>, num: usize, den: usize, r: Seq<Rule>, k: int)
    requires
        rules_of(recs, num, den, r),
        0 <= k < r.len(),
    ensures
        explained(r[k], recs, num, den),
{
    reveal(rules_of);
}

proof fn lemma_rules_covered(
    recs: Seq<(Vec<char>, usize)>,
    num: usize,
    den: usize,
    r1: Seq<Rule>,
    r2: Seq<Rule>,
)
    requires
        rules_of(recs, num, den, r1),
        rules_of(recs, num, den, r2),
    ensures
        forall|k: int| 0 <= k < r1.len() ==> rule_in(#[trigger] r1[k], r2),
{
    assert forall|k: int| 0 <= k < r1.len() implies rule_in(#[trigger] r1[k], r2) by {
        lemma_rules_of_explained(recs, num, den, r1, k);
        lemma_rule_match(recs, num, den, r1[k], r2);
    }
}

/// The rules drawn from a list of records are determined by it: two rule
/// lists that both are the kept rules of the same records, at the same
/// minimum confidence, hold the same rules (possibly in another order).
pub proof fn lemma_rules_determined(
    recs: Seq<(Vec<char>, usize)>,
    num: usize,
    den: usize,
    r1: Seq<Rule>,
    r2: Seq<Rule>,
)
    requires
        rules_of(recs, num, den, r1),
        rules_of(recs, num, den, r2),
    ensures
        forall|k: int| 0 <= k < r1.len() ==> rule_in(#[trigger] r1[k], r2),
        forall|j: int| 0 <= j < r2.len() ==> rule_in(#[trigger] r2[j], r1),
{
    lemma_rules_covered(recs, num, den, r1, r2);
    lemma_rules_covered(recs, num, den, r2, r1);
}

pub proof fn lemma_items_without(s: Seq<char>, a: Seq<char>, y: char)
    ensures
        items_without(s, a).contains(y) <==> s.contains(y) && !a.contains(y),
    decreases s.len(),
{
    if s.len() > 0 {
        lemma_items_without(s.drop_last(), a, y);
        let prev = items_without(s.drop_last(), a);
        if !a.contains(s.last()) {
            let q = prev.push(s.last());
            if q.contains(y) {
                let k = choose|k: int| 0 <= k < q.len() && q[k] == y;
                if k < prev.len() {
                    assert(prev[k] == y);
                }
            }
            if prev.contains(y) {
                let k = choose|k: int| 0 <= k < prev.len() && prev[k] == y;
                assert(q[k] == y);
            }
            if y == s.last() {
                assert(q[prev.len() as int] == y);
            }
        }
        if s.contains(y) {
            let k = choose|k: int| 0 <= k < s.len() && s[k] == y;
            if k < s.len() - 1 {
                assert(s.drop_last()[k] == y);
            }
        }
        if s.drop_last().contains(y) {
            let k = choose|k: int| 0 <= k < s.len() - 1 && s.drop_last()[k] == y;
            assert(s[k] == y);
        }
    }
}

/// When each record's support is the support of its itemset in `db`, every
/// rule of a kept-rule list has confidence at most one.
pub proof fn lemma_rules_confidence_bounded(
    db: Seq<Seq<char>>,
    recs: Seq<(Vec<char>, usize)>,
    num: usize,
    den: usize,
    rules: Seq<Rule>,
)
    requires
        forall|j: int| 0 <= j < recs.len() ==> (#[trigger] recs[j]).1 == support(db, recs[j].0@),
        rules_of(recs, num, den, rules),
    ensures
        forall|k: int| 0 <= k < rules.len() ==> (#[trigger] rules[k]).support <= rules[k].antecedent_support,
{
    assert forall|k: int| 0 <= k < rules.len() implies (#[trigger] rules[k]).support <= rules[k].antecedent_support by {
        lemma_rules_of_explained(recs, num, den, rules, k);
        let (i, m) = choose|i: int, m: u64| #[trigger] kept_rule(recs, i, m, num, den) && is_rule_of(rules[k], recs, i, m);
        lemma_rule_confidence_at_most_one(db, recs, i, m, num, den);
    }
}

/// When each record's support is the support of its itemset in `db`, every
/// rule of a kept-rule list carries the support in `db` of its antecedent and
/// of its whole itemset (antecedent and consequent together).
pub proof fn lemma_rules_true_supports(
    db: Seq<Seq<char>>,
    recs: Seq<(Vec<char>, usize)>,
    num: usize,
    den: usize,
    rules: Seq<Rule>,
)
    requires
        forall|j: int| 0 <= j < recs.len() ==> (#[trigger] recs[j]).1 == support(db, recs[j].0@),
        rules_of(recs, num, den, rules),
    ensures
        forall|k: int|
            0 <= k < rules.len() ==> (#[trigger] rules[k]).antecedent_support == support(db, rules[k].antecedent@)
                && rules[k].support == support(db, rules[k].antecedent@ + rules[k].consequent@),
{
    assert forall|k: int| 0 <= k < rules.len() implies (#[trigger] rules[k]).antecedent_support == support(
        db,
        rules[k].antecedent@,
    ) && rules[k].support == support(db, rules[k].antecedent@ + rules[k].consequent@) by {
        lemma_rules_of_explained(recs, num, den, rules, k);
        let (i, m) = choose|i: int, m: u64| #[trigger] kept_rule(recs, i, m, num, den) && is_rule_of(rules[k], recs, i, m);
        let s = recs[i].0@;
        let a = mask_subset(s, m, s.len() as int);
        let c = items_without(s, a);
        lemma_recorded_support_found(recs, a, 0);
        let j = choose|j: int| 0 <= j < recs.len() && recs[j].0@ == a && recs[j].1 == recorded_support(recs, a, 0);
        assert(recs[j].1 == support(db, recs[j].0@));
        lemma_mask_subset_within(s, m, s.len() as int);
        assert forall|y: char| (a + c).contains(y) <==> s.contains(y) by {
            lemma_items_without(s, a, y);
            if (a + c).contains(y) {
                let q = choose|q: int| 0 <= q < (a + c).len() && (a + c)[q] == y;
                if q < a.len() {
                    assert(a[q] == y);
                    assert(s.contains(a[q]));
                } else {
                    assert(c[q - a.len()] == y);
                }
            }
            if s.contains(y) {
                if a.contains(y) {
                    let q = choose|q: int| 0 <= q < a.len() && a[q] == y;
                    assert((a + c)[q] == y);
                } else {
                    let q = choose|q: int| 0 <= q < c.len() && c[q] == y;
                    assert((a + c)[a.len() + q] == y);
                }
            }
        }
        lemma_unit_weights(db, a + c);
        lemma_unit_weights(db, s);
        lemma_weighted_support_same_items(unit_weights(db), a + c, s);
        assert(recs[i].1 == support(db, s));
    }
}

/// Two record lists that agree on every itemset and support.
pub open spec fn same_records(r1: Seq<(Vec<char>, usize)>, r2: Seq<(Vec<char>, usize)>) -> bool {
    r1.len() == r2.len() && forall|k: int| 0 <= k < r1.len() ==> (#[trigger] r1[k]).0@ == r2[k].0@ && r1[k].1 == r2[k].1
}

proof fn lemma_recorded_support_same(r1: Seq<(Vec<char>, usize)>, r2: Seq<(Vec<char>, usize)>, a: Seq<char>, i: int)
    requires
        same_records(r1, r2),
        0 <= i,
    ensures
        recorded_support(r1, a, i) == recorded_support(r2, a, i),
    decreases r1.len() - i,
{
    if i < r1.len() {
        assert(r1[i].0@ == r2[i].0@ && r1[i].1 == r2[i].1);
        lemma_recorded_support_same(r1, r2, a, i + 1);
    }
}

/// The kept rules of two record lists that agree on every itemset and
/// support are the same.
pub proof fn lemma_rules_of_same_records(
    r1: Seq<(Vec<char>, usize)>,
    r2: Seq<(Vec<char>, usize)>,
    num: usize,
    den: usize,
    rules: Seq<Rule>,
)
    requires
        same_records(r1, r2),
        rules_of(r1, num, den, rules),
    ensures
        rules_of(r2, num, den, rules),
{
    reveal(rules_of);
    assert forall|i: int, m: u64| 0 <= i < r1.len() implies (kept_rule(r1, i, m, num, den) <==> kept_rule(r2, i, m, num, den))
        && forall|r: Rule| is_rule_of(r, r1, i, m) <==> is_rule_of(r, r2, i, m) by {
        assert(r1[i].0@ == r2[i].0@ && r1[i].1 == r2[i].1);
        let s = r1[i].0@;
        lemma_recorded_support_same(r1, r2, mask_subset(s, m, s.len() as int), 0);
    }
    assert forall|k: int| 0 <= k < rules.len() implies explained(#[trigger] rules[k], r2, num, den) by {
        assert(explained(rules[k], r1, num, den));
        let (i, m) = choose|i: int, m: u64| #[trigger] kept_rule(r1, i, m, num, den) && is_rule_of(rules[k], r1, i, m);
        assert(kept_rule(r2, i, m, num, den) && is_rule_of(rules[k], r2, i, m));
    }
    assert forall|i: int, m: u64| #[trigger] kept_rule(r2, i, m, num, den) implies exists|k: int|
        0 <= k < rules.len() && #[trigger] is_rule_of(rules[k], r2, i, m) by {
        assert(kept_rule(r1, i, m, num, den));
        let k = choose|k: int| 0 <= k < rules.len() && #[trigger] is_rule_of(rules[k], r1, i, m);
        assert(is_rule_of(rules[k], r2, i, m));
    }
}

proof fn lemma_rules_of_unique(recs: Seq<(Vec<char>, usize)>, num: usize, den: usize, rules: Seq<Rule>)
    requires
        rules_of(recs, num, den, rules),
    ensures
        forall|k1: int, k2: int| 0 <= k1 < k2 < rules.len() ==> !same_rule(#[trigger] rules[k1], #[trigger] rules[k2]),
{
    reveal(rules_of);
}

/// A list of pairwise different rules, each stated by some rule of `r2`, is
/// no longer than `r2`.
pub proof fn lemma_rules_len(r1: Seq<Rule>, r2: Seq<Rule>)
    requires
        forall|k: int| 0 <= k < r1.len() ==> rule_in(#[trigger] r1[k], r2),
        forall|k1: int, k2: int| 0 <= k1 < k2 < r1.len() ==> !same_rule(#[trigger] r1[k1], #[trigger] r1[k2]),
    ensures
        r1.len() <= r2.len(),
    decreases r1.len(),
{
    if r1.len() > 0 {
        let n = r1.len() - 1;
        assert(rule_in(r1[n], r2));
        let j = choose|j: int| 0 <= j < r2.len() && same_rule(r1[n], #[trigger] r2[j]);
        let r2b = r2.remove(j);
        let d = r1.drop_last();
        assert forall|k: int| 0 <= k < d.len() implies rule_in(#[trigger] d[k], r2b) by {
            assert(d[k] == r1[k]);
            assert(rule_in(r1[k], r2));
            let q = choose|q: int| 0 <= q < r2.len() && same_rule(r1[k], #[trigger] r2[q]);
            if q == j {
                assert(same_rule(r1[k], r1[n]));
            } else if q < j {
                assert(r2b[q] == r2[q]);
            } else {
                assert(r2b[q - 1] == r2[q]);
            }
        }
        assert forall|k1: int, k2: int| 0 <= k1 < k2 < d.len() implies !same_rule(#[trigger] d[k1], #[trigger] d[k2]) by {
            assert(d[k1] == r1[k1] && d[k2] == r1[k2]);
        }
        lemma_rules_len(d, r2b);
    }
}

/// Two rule lists that are the kept rules of record lists agreeing on every
/// itemset and support, at the same minimum confidence, hold the same rules
/// and are equally long.
pub proof fn lemma_rules_same_records(
    recs1: Seq<(Vec<char>, usize)>,
    recs2: Seq<(Vec<char>, usize)>,
    num: usize,
    den: usize,
    rules1: Seq<Rule>,
    rules2: Seq<Rule>,
)
    requires
        same_records(recs1, recs2),
        rules_of(recs1, num, den, rules1),
        rules_of(recs2, num, den, rules2),
    ensures
        forall|k: int| 0 <= k < rules1.len() ==> rule_in(#[trigger] rules1[k], rules2),
        forall|k: int| 0 <= k < rules2.len() ==> rule_in(#[trigger] rules2[k], rules1),
        rules1.len() == rules2.len(),
{
    lemma_rules_of_same_records(recs1, recs2, num, den, rules1);
    lemma_rules_determined(recs2, num, den, rules1, rules2);
    lemma_rules_of_unique(recs2, num, den, rules1);
    lemma_rules_of_unique(recs2, num, den, rules2);
    lemma_rules_len(rules1, rules2);
    lemma_rules_len(rules2, rules1);
}

} // verus!
