//! Lexicographic order on itemsets, used to list mined records in a fixed order.
use vstd::prelude::*;

verus! {

/// `a` comes strictly before `b` in lexicographic order (a proper prefix
/// comes first).
pub open spec fn lex_less(a: Seq<char>, b: Seq<char>) -> bool
    decreases a.len(),
{
    if b.len() == 0 {
        false
    } else if a.len() == 0 {
        true
    } else if a[0] != b[0] {
        a[0] < b[0]
    } else {
        lex_less(a.drop_first(), b.drop_first())
    }
}

/// Records listed in strictly increasing lexicographic order of their itemsets.
pub open spec fn lex_sorted(r: Seq<(Vec<char>, usize)>) -> bool {
    forall|i: int, j: int| 0 <= i < j < r.len() ==> lex_less((#[trigger] r[i]).0@, (#[trigger] r[j]).0@)
}

pub proof fn lemma_lex_irreflexive(a: Seq<char>)
    ensures
        !lex_less(a, a),
    decreases a.len(),
{
    if a.len() > 0 {
        lemma_lex_irreflexive(a.drop_first());
    }
}

pub proof fn lemma_lex_transitive(a: Seq<char>, b: Seq<char>, c: Seq<char>)
    requires
        lex_less(a, b),
        lex_less(b, c),
    ensures
        lex_less(a, c),
    decreases a.len(),
{
    if a.len() > 0 && b.len() > 0 && c.len() > 0 && a[0] == b[0] && b[0] == c[0] {
        lemma_lex_transitive(a.drop_first(), b.drop_first(), c.drop_first());
    }
}

pub proof fn lemma_lex_total(a: Seq<char>, b: Seq<char>)
    requires
        a != b,
    ensures
        lex_less(a, b) || lex_less(b, a),
    decreases a.len(),
{
    if a.len() > 0 && b.len() > 0 && a[0] == b[0] {
        if a.drop_first() == b.drop_first() {
            assert(a =~= seq![a[0]] + a.drop_first());
            assert(b =~= seq![b[0]] + b.drop_first());
        }
        lemma_lex_total(a.drop_first(), b.drop_first());
    } else if a.len() == 0 && b.len() == 0 {
        assert(a =~= b);
    }
}

/// Whether `a` comes strictly before `b` in lexicographic order.
pub fn lex_before(a: &Vec<char>, b: &Vec<char>) -> (r: bool)
    ensures
        r == lex_less(a@, b@),
{
    let mut i: usize = 0;
    assert(a@.skip(0) =~= a@);
    assert(b@.skip(0) =~= b@);
    while i < a.len() && i < b.len() && a[i] == b[i]
        invariant
            0 <= i <= a@.len(),
            i <= b@.len(),
            lex_less(a@, b@) == lex_less(a@.skip(i as int), b@.skip(i as int)),
        decreases a.len() - i,
    {
        assert(a@.skip(i as int).drop_first() =~= a@.skip(i + 1));
        assert(b@.skip(i as int).drop_first() =~= b@.skip(i + 1));
        i = i + 1;
    }
    if i == b.len() {
        false
    } else if i == a.len() {
        true
    } else {
        assert(a@.skip(i as int)[0] == a@[i as int]);
        assert(b@.skip(i as int)[0] == b@[i as int]);
        a[i] < b[i]
    }
}

/// Inserts `e` into `out` at the place that keeps lexicographic order.
fn insert_lex(out: &mut Vec<(Vec<char>, usize)>, e: (Vec<char>, usize))
    requires
        lex_sorted(old(out)@),
        forall|k: int| 0 <= k < old(out)@.len() ==> (#[trigger] old(out)@[k]).0@ != e.0@,
    ensures
        lex_sorted(final(out)@),
        final(out)@.len() == old(out)@.len() + 1,
        forall|y: (Vec<char>, usize)| final(out)@.contains(y) <==> old(out)@.contains(y) || y == e,
{
    let mut pos: usize = 0;
    while pos < out.len() && lex_before(&out[pos].0, &e.0)
        invariant
            0 <= pos <= out@.len(),
            out@ == old(out)@,
            forall|k: int| 0 <= k < pos ==> lex_less((#[trigger] out@[k]).0@, e.0@),
        decreases out@.len() - pos,
    {
        pos = pos + 1;
    }
    let ghost before = out@;
    proof {
        if pos < before.len() {
            lemma_lex_total(before[pos as int].0@, e.0@);
            assert forall|k: int| pos <= k < before.len() implies lex_less(e.0@, (#[trigger] before[k]).0@) by {
                if k > pos {
                    lemma_lex_transitive(e.0@, before[pos as int].0@, before[k].0@);
                }
            }
        }
    }
    out.insert(pos, e);
    proof {
        assert(out@ =~= before.insert(pos as int, e));
        assert forall|p: int, q: int| 0 <= p < q < out@.len() implies lex_less((#[trigger] out@[p]).0@, (#[trigger] out@[q]).0@) by {
            if q < pos {
                assert(out@[p] == before[p] && out@[q] == before[q]);
            } else if q == pos {
                assert(out@[p] == before[p]);
            } else if p == pos {
                assert(out@[q] == before[q - 1]);
            } else if p < pos {
                assert(out@[p] == before[p] && out@[q] == before[q - 1]);
                lemma_lex_transitive(before[p].0@, e.0@, before[q - 1].0@);
            } else {
                assert(out@[p] == before[p - 1] && out@[q] == before[q - 1]);
            }
        }
        assert forall|y: (Vec<char>, usize)| out@.contains(y) <==> before.contains(y) || y == e by {
            if out@.contains(y) {
                let k = choose|k: int| 0 <= k < out@.len() && out@[k] == y;
                if k < pos {
                    assert(before[k] == y);
                } else if k > pos {
                    assert(before[k - 1] == y);
                }
            }
            if before.contains(y) {
                let k = choose|k: int| 0 <= k < before.len() && before[k] == y;
                if k < pos {
                    assert(out@[k] == y);
                } else {
                    assert(out@[k + 1] == y);
                }
            }
            if y == e {
                assert(out@[pos as int] == e);
            }
        }
    }
}

/// The records of `r`, whose itemsets are pairwise distinct, in increasing
/// lexicographic order of their itemsets.
pub fn sort_records(r: Vec<(Vec<char>, usize)>) -> (out: Vec<(Vec<char>, usize)>)
    requires
        forall|k1: int, k2: int| 0 <= k1 < k2 < r@.len() ==> (#[trigger] r@[k1]).0@ != (#[trigger] r@[k2]).0@,
    ensures
        lex_sorted(out@),
        forall|y: (Vec<char>, usize)| out@.contains(y) <==> r@.contains(y),
        out@.len() == r@.len(),
{
    let ghost orig = r@;
    let mut rest = r;
    let mut out: Vec<(Vec<char>, usize)> = Vec::new();
    while rest.len() > 0
        invariant
            lex_sorted(out@),
            orig.len() == out@.len() + rest@.len(),
            rest@ == orig.take(rest@.len() as int),
            forall|y: (Vec<char>, usize)| out@.contains(y) <==> orig.skip(rest@.len() as int).contains(y),
            forall|k1: int, k2: int| 0 <= k1 < k2 < orig.len() ==> (#[trigger] orig[k1]).0@ != (#[trigger] orig[k2]).0@,
        decreases rest@.len(),
    {
        let ghost n = rest@.len() as int;
        let e = rest.pop().unwrap();
        proof {
            assert(e == orig[n - 1]);
            assert(rest@ =~= orig.take(n - 1));
            assert forall|k: int| 0 <= k < out@.len() implies (#[trigger] out@[k]).0@ != e.0@ by {
                assert(out@.contains(out@[k]));
                let q = choose|q: int| 0 <= q < orig.skip(n).len() && #[trigger] orig.skip(n)[q] == out@[k];
                assert(orig[n + q] == out@[k]);
            }
        }
        let ghost before = out@;
        insert_lex(&mut out, e);
        proof {
            assert forall|y: (Vec<char>, usize)| out@.contains(y) <==> orig.skip(n - 1).contains(y) by {
                if orig.skip(n - 1).contains(y) {
                    let q = choose|q: int| 0 <= q < orig.skip(n - 1).len() && #[trigger] orig.skip(n - 1)[q] == y;
                    if q > 0 {
                        assert(orig.skip(n)[q - 1] == y);
                    }
                }
                if orig.skip(n).contains(y) {
                    let q = choose|q: int| 0 <= q < orig.skip(n).len() && #[trigger] orig.skip(n)[q] == y;
                    assert(orig.skip(n - 1)[q + 1] == y);
                }
                if y == e {
                    assert(orig.skip(n - 1)[0] == e);
                }
            }
        }
    }
    assert(orig.skip(0) =~= orig);
    out
}

} // verus!
