use fpgrowth::counter::count_items;
use fpgrowth::mining::{insert_sorted, order_items};
use fpgrowth::rules::{generate_all_subsets, generate_rules, lookup_support, without_items, Rule};
use fpgrowth::tree::{FPNode, FPTree, HeaderTableEntry};
use fpgrowth::{fp_growth, min_support_count, mine_transactions, MiningError};

fn reference_transactions() -> Vec<Vec<char>> {
    vec![
        vec!['a', 'b', 'c', 'd'],
        vec!['b', 'c', 'd'],
        vec!['a', 'e', 'f', 'g', 'h'],
        vec!['b', 'c', 'd', 'e', 'g', 'j'],
        vec!['b', 'c', 'd', 'e', 'f'],
        vec!['a', 'f', 'g'],
        vec!['a', 'i', 'j'],
        vec!['a', 'b', 'e', 'h'],
        vec!['f', 'g', 'h', 'i', 'j'],
        vec!['e', 'f', 'h'],
    ]
}

fn support_of(records: &[(Vec<char>, usize)], items: &[char]) -> Option<usize> {
    records.iter().find(|(s, _)| s.as_slice() == items).map(|(_, c)| *c)
}

fn brute_force(transactions: &[Vec<char>], min_support: usize) -> Vec<(Vec<char>, usize)> {
    let mut alphabet: Vec<char> = transactions.iter().flatten().cloned().collect();
    alphabet.sort();
    alphabet.dedup();
    let n = alphabet.len();
    let mut out = Vec::new();
    for mask in 1u32..(1u32 << n) {
        let set: Vec<char> = (0..n).filter(|i| (mask >> i) & 1 == 1).map(|i| alphabet[i]).collect();
        let count = transactions
            .iter()
            .filter(|t| set.iter().all(|x| t.contains(x)))
            .count();
        if count >= min_support {
            out.push((set, count));
        }
    }
    out.sort();
    out
}

fn pseudo_random_transactions(seed: u64, count: usize, alphabet: usize) -> Vec<Vec<char>> {
    let mut state = seed;
    let mut next = || {
        state = state.wrapping_mul(6364136223846793005).wrapping_add(1442695040888963407);
        (state >> 33) as u32
    };
    (0..count)
        .map(|_| {
            (0..alphabet)
                .filter(|_| next() % 100 < 45)
                .map(|i| (b'a' + i as u8) as char)
                .collect()
        })
        .collect()
}

fn sorted_records(mut r: Vec<(Vec<char>, usize)>) -> Vec<(Vec<char>, usize)> {
    r.sort();
    r
}

fn rule_key(r: &Rule) -> (Vec<char>, Vec<char>, usize, usize) {
    (r.antecedent.clone(), r.consequent.clone(), r.support, r.antecedent_support)
}

#[test]
fn worked_scenario_supports_and_rule() {
    let t = reference_transactions();
    let min_count = min_support_count(4, 10, t.len()).unwrap();
    assert_eq!(min_count, 4);
    let (records, rules) = fp_growth(&t, min_count, 3, 4).unwrap();
    assert_eq!(support_of(&records, &['b', 'c', 'd']), Some(4));
    assert_eq!(support_of(&records, &['f']), Some(5));
    let rule = rules
        .iter()
        .find(|r| r.antecedent == vec!['b', 'c'] && r.consequent == vec!['d'])
        .expect("rule {b,c} => {d}");
    assert_eq!(rule.support, 4);
    assert_eq!(rule.antecedent_support, 4);
}

#[test]
fn worked_scenario_matches_brute_force() {
    let t = reference_transactions();
    let records = mine_transactions(&t, 4);
    assert_eq!(sorted_records(records), brute_force(&t, 4));
}

#[test]
fn empty_input_gives_nothing() {
    let t: Vec<Vec<char>> = Vec::new();
    let (records, rules) = fp_growth(&t, 1, 1, 2).unwrap();
    assert!(records.is_empty());
    assert!(rules.is_empty());
    let (records, rules) = fp_growth(&t, 0, 0, 1).unwrap();
    assert!(records.is_empty());
    assert!(rules.is_empty());
}

#[test]
fn invalid_confidence_is_rejected() {
    let t = reference_transactions();
    assert_eq!(fp_growth(&t, 4, 1, 0).unwrap_err(), MiningError::InvalidParameter);
    assert_eq!(fp_growth(&t, 4, 5, 4).unwrap_err(), MiningError::InvalidParameter);
    assert!(fp_growth(&t, 4, 4, 4).is_ok());
}

#[test]
fn support_fraction_to_count() {
    assert_eq!(min_support_count(2, 5, 10), Ok(4));
    assert_eq!(min_support_count(1, 3, 10), Ok(4));
    assert_eq!(min_support_count(0, 1, 10), Ok(0));
    assert_eq!(min_support_count(1, 1, 7), Ok(7));
    assert_eq!(min_support_count(1, 0, 10), Err(MiningError::InvalidParameter));
    assert_eq!(min_support_count(6, 5, 10), Err(MiningError::InvalidParameter));
}

#[test]
fn exhaustive_against_brute_force_on_random_sets() {
    for seed in 1..25u64 {
        let t = pseudo_random_transactions(seed, 12, 7);
        for min_support in 1..5usize {
            let records = mine_transactions(&t, min_support);
            assert_eq!(sorted_records(records), brute_force(&t, min_support), "seed {seed} min {min_support}");
        }
    }
}

#[test]
fn supports_are_anti_monotone() {
    for seed in 30..40u64 {
        let t = pseudo_random_transactions(seed, 15, 6);
        let records = mine_transactions(&t, 1);
        for (s, sup) in &records {
            for (u, usup) in &records {
                if u.len() == s.len() + 1 && s.iter().all(|x| u.contains(x)) {
                    assert!(usup <= sup);
                }
            }
        }
    }
}

#[test]
fn rule_confidences_are_exact_and_bounded() {
    let t = reference_transactions();
    let (records, rules) = fp_growth(&t, 2, 1, 2).unwrap();
    assert!(!rules.is_empty());
    for r in &rules {
        let mut whole: Vec<char> = r.antecedent.iter().chain(r.consequent.iter()).cloned().collect();
        whole.sort();
        assert_eq!(support_of(&records, &whole), Some(r.support));
        assert_eq!(support_of(&records, &r.antecedent), Some(r.antecedent_support));
        assert!(r.support <= r.antecedent_support);
        assert!(r.support * 2 >= r.antecedent_support);
        let confidence = r.support as f64 / r.antecedent_support as f64;
        assert!((0.0..=1.0).contains(&confidence));
    }
}

#[test]
fn re_mining_gives_the_same_sets() {
    let t = reference_transactions();
    let (r1, rules1) = fp_growth(&t, 3, 1, 2).unwrap();
    let (r2, rules2) = fp_growth(&t, 3, 1, 2).unwrap();
    assert_eq!(sorted_records(r1), sorted_records(r2));
    let mut k1: Vec<_> = rules1.iter().map(rule_key).collect();
    let mut k2: Vec<_> = rules2.iter().map(rule_key).collect();
    k1.sort();
    k2.sort();
    assert_eq!(k1, k2);
}

#[test]
fn threshold_above_everything_gives_nothing() {
    let t = reference_transactions();
    let (records, rules) = fp_growth(&t, 11, 0, 1).unwrap();
    assert!(records.is_empty());
    assert!(rules.is_empty());
}

#[test]
fn zero_threshold_keeps_every_occurring_itemset() {
    let t = vec![vec!['x', 'y'], vec!['y']];
    let records = sorted_records(mine_transactions(&t, 0));
    assert_eq!(records, vec![(vec!['x'], 1), (vec!['x', 'y'], 1), (vec!['y'], 2)]);
}

#[test]
fn counter_orders_by_support_then_item() {
    let db = vec![
        (vec!['b', 'a'], 2usize),
        (vec!['c', 'a'], 1usize),
        (vec!['c'], 2usize),
        (vec!['d'], 1usize),
    ];
    let r = count_items(&db, 2);
    assert_eq!(r, vec![('a', 3), ('c', 3), ('b', 2)]);
}

#[test]
fn tree_build_links_occurrences() {
    let t = vec![vec!['a', 'b'], vec!['b', 'c'], vec!['b', 'a'], vec!['d']];
    let mut tree = FPTree::new();
    tree.build(&t, 2);
    let header: Vec<(char, usize)> = tree.header_table.iter().map(|e| (e.item, e.support)).collect();
    assert_eq!(header, vec![('b', 3), ('a', 2)]);
    assert_eq!(tree.total, 3);
    // root, b:3, a:2 under b
    assert_eq!(tree.nodes.len(), 3);
    let b = tree.header_table[0].head.unwrap();
    assert_eq!(tree.nodes[b].count, 3);
    assert_eq!(tree.nodes[b].node_link, None);
    let a = tree.header_table[1].head.unwrap();
    assert_eq!(tree.nodes[a].count, 2);
    assert_eq!(tree.nodes[a].parent, Some(b));
    assert_eq!(tree.path_of(a), vec!['b', 'a']);
    assert_eq!(tree.conditional_base(1), vec![(vec!['b'], 2)]);
    assert!(tree.conditional_base(0).is_empty());
}

#[test]
fn add_transaction_shares_prefixes_and_chains() {
    let mut tree = FPTree::with_header(&vec![('x', 3), ('y', 2), ('z', 2)]);
    tree.add_transaction(vec!['x', 'y'], 1);
    tree.add_transaction(vec!['x', 'z'], 2);
    tree.add_transaction(vec!['y', 'z'], 1);
    assert_eq!(tree.nodes.len(), 6);
    assert_eq!(tree.total, 4);
    let x = tree.header_table[0].head.unwrap();
    assert_eq!(tree.nodes[x].count, 3);
    let y1 = tree.header_table[1].head.unwrap();
    let y2 = tree.nodes[y1].node_link.unwrap();
    assert_eq!(tree.header_table[1].tail, Some(y2));
    assert_eq!(tree.path_of(y2), vec!['y']);
    let z1 = tree.header_table[2].head.unwrap();
    let z2 = tree.nodes[z1].node_link.unwrap();
    assert_eq!(tree.nodes[z1].count, 2);
    assert_eq!(tree.nodes[z2].count, 1);
    assert_eq!(tree.conditional_base(2), vec![(vec!['x'], 2), (vec!['y'], 1)]);
}

#[test]
fn node_and_entry_constructors() {
    let mut n = FPNode::new(Some('q'), Some(0));
    assert_eq!(n.count, 0);
    n.increment(3);
    n.increment(2);
    assert_eq!(n.count, 5);
    assert_eq!(n.item, Some('q'));
    let e = HeaderTableEntry::new('q', 7);
    assert_eq!((e.item, e.support, e.head, e.tail), ('q', 7, None, None));
}

#[test]
fn subsets_follow_masks() {
    let s = generate_all_subsets(&vec!['a', 'b', 'c']);
    assert_eq!(s.len(), 8);
    assert_eq!(s[0], Vec::<char>::new());
    assert_eq!(s[5], vec!['a', 'c']);
    assert_eq!(s[7], vec!['a', 'b', 'c']);
    assert_eq!(generate_all_subsets(&Vec::new()).len(), 1);
}

#[test]
fn helpers_order_and_filter() {
    let header = FPTree::with_header(&vec![('c', 5), ('a', 4), ('b', 1)]).header_table;
    assert_eq!(order_items(&header, &vec!['b', 'z', 'c']), vec!['c', 'b']);
    assert_eq!(insert_sorted(&vec!['a', 'c'], 'b'), vec!['a', 'b', 'c']);
    assert_eq!(insert_sorted(&vec![], 'b'), vec!['b']);
    assert_eq!(without_items(&vec!['a', 'b', 'c'], &vec!['b']), vec!['a', 'c']);
    let recs = vec![(vec!['a'], 3), (vec!['a', 'b'], 2)];
    assert_eq!(lookup_support(&recs, &vec!['a', 'b']), 2);
    assert_eq!(lookup_support(&recs, &vec!['b', 'a']), 0);
}

#[test]
fn rules_keep_only_confident_ones() {
    let recs = vec![(vec!['a'], 4), (vec!['b'], 2), (vec!['a', 'b'], 2)];
    let rules = generate_rules(&recs, 3, 4);
    let keys: Vec<_> = rules.iter().map(rule_key).collect();
    assert_eq!(keys, vec![(vec!['b'], vec!['a'], 2, 2)]);
    let rules = generate_rules(&recs, 1, 2);
    let keys: Vec<_> = rules.iter().map(rule_key).collect();
    assert_eq!(keys, vec![(vec!['a'], vec!['b'], 2, 4), (vec!['b'], vec!['a'], 2, 2)]);
}

#[test]
fn records_come_in_lexicographic_order() {
    let t = reference_transactions();
    let records = mine_transactions(&t, 2);
    let mut sorted = records.clone();
    sorted.sort();
    assert_eq!(records, sorted);
    for w in records.windows(2) {
        assert!(w[0].0 < w[1].0);
    }
}

#[test]
fn reference_dataset_gives_twelve_rules() {
    let t = reference_transactions();
    let (_, rules) = fp_growth(&t, 4, 3, 4).unwrap();
    assert_eq!(rules.len(), 12);
    let mut keys: Vec<_> = rules.iter().map(rule_key).collect();
    keys.sort();
    keys.dedup();
    assert_eq!(keys.len(), 12);
    assert!(keys.contains(&(vec!['b'], vec!['c'], 4, 5)));
    assert!(keys.contains(&(vec!['c', 'd'], vec!['b'], 4, 4)));
}

#[test]
fn repeated_records_give_each_rule_once() {
    let recs = vec![(vec!['b'], 5), (vec!['c'], 4), (vec!['b', 'c'], 4), (vec!['b', 'c'], 4)];
    let rules = generate_rules(&recs, 3, 4);
    let keys: Vec<_> = rules.iter().map(rule_key).collect();
    assert_eq!(keys, vec![(vec!['b'], vec!['c'], 4, 5), (vec!['c'], vec!['b'], 4, 4)]);
}

#[test]
fn empty_path_changes_no_node() {
    let mut tree = FPTree::with_header(&vec![('x', 1)]);
    tree.add_transaction(vec!['x'], 1);
    let before: Vec<usize> = tree.nodes.iter().map(|n| n.count).collect();
    tree.add_transaction(Vec::new(), 3);
    let after: Vec<usize> = tree.nodes.iter().map(|n| n.count).collect();
    assert_eq!(before, after);
    assert_eq!(tree.nodes.len(), 2);
}

#[test]
fn build_counts_are_positive_and_root_childless_without_frequent_items() {
    let t = reference_transactions();
    let mut tree = FPTree::new();
    tree.build(&t, 4);
    assert!(tree.nodes.iter().skip(1).all(|n| n.count >= 1));
    for (i, n) in tree.nodes.iter().enumerate().skip(1) {
        let child_sum: usize = n.children.iter().map(|c| tree.nodes[*c].count).sum();
        assert!(n.count >= child_sum, "node {i}");
    }
    let mut empty = FPTree::new();
    empty.build(&t, 11);
    assert_eq!(empty.nodes.len(), 1);
    assert!(empty.nodes[0].children.is_empty());
}
