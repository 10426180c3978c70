//! Grading: the permutation that sorts a vector or a list, ascending or
//! descending, keeping equal elements in the order they came in.

use vstd::prelude::*;
use crate::k::{K, KData, KV, kview, kwf, views, all_wf};

verus! {

/// Three-way comparison of two integers: -1, 0 or 1.
pub open spec fn three_way(x: int, y: int) -> int {
    if x < y {
        -1
    } else if x > y {
        1
    } else {
        0
    }
}

/// Lexicographic comparison of two integer sequences; a proper prefix comes
/// first.
pub open spec fn lex_ints(a: Seq<i64>, b: Seq<i64>) -> int {
    if exists|k: int| 0 <= k < a.len() && k < b.len() && a[k] != b[k] {
        let k = choose|k: int|
            0 <= k < a.len() && k < b.len() && a[k] != b[k] && (forall|j: int| 0 <= j < k ==> a[j] == b[j]);
        three_way(a[k] as int, b[k] as int)
    } else {
        three_way(a.len() as int, b.len() as int)
    }
}

/// The order in which grading compares two values: integers
/// lexicographically, lists lexicographically by their items, and an
/// integer value against a list by type code (atom, then list, then vector).
pub open spec fn korder(a: KV, b: KV) -> int
    decreases a, b,
{
    match a {
        KV::List(la) => match b {
            KV::List(lb) => if exists|k: int|
                0 <= k < la.len() && k < lb.len() && korder(la[k], lb[k]) != 0 {
                let k = choose|k: int|
                    0 <= k < la.len() && k < lb.len() && korder(la[k], lb[k]) != 0 && (forall|j: int|
                        0 <= j < k ==> korder(la[j], lb[j]) == 0);
                if 0 <= k < la.len() && k < lb.len() {
                    korder(la[k], lb[k])
                } else {
                    0
                }
            } else {
                three_way(la.len() as int, lb.len() as int)
            },
            _ => three_way(a.tcode(), b.tcode()),
        },
        _ => match b {
            KV::List(_) => three_way(a.tcode(), b.tcode()),
            _ => lex_ints(a.ints(), b.ints()),
        },
    }
}

/// The order on positions that grading produces: by key, and by position
/// among equal keys. Descending grading reverses the key order only.
pub open spec fn ord_before(keys: Seq<KV>, desc: bool, p: int, q: int) -> bool {
    let c = pos_order(keys, desc, p, q);
    c < 0 || (c == 0 && p < q)
}

/// The comparison is a total preorder on the keys: it is antisymmetric and
/// its "not after" relation is transitive.
pub open spec fn korder_total(keys: Seq<KV>) -> bool {
    &&& forall|p: int, q: int|
        0 <= p < keys.len() && 0 <= q < keys.len() ==> #[trigger] korder(keys[p], keys[q]) == -korder(
            keys[q],
            keys[p],
        )
    &&& forall|p: int, q: int, s: int|
        0 <= p < keys.len() && 0 <= q < keys.len() && 0 <= s < keys.len() && #[trigger] korder(
            keys[p],
            keys[q],
        ) <= 0 && #[trigger] korder(keys[q], keys[s]) <= 0 ==> korder(keys[p], keys[s]) <= 0
}

/// `r` lists every position below `n` exactly once.
pub open spec fn is_index_permutation(r: Seq<i64>, n: int) -> bool {
    &&& r.len() == n
    &&& forall|k: int| 0 <= k < r.len() ==> 0 <= #[trigger] r[k] < n
    &&& forall|k: int, l: int| 0 <= k < l < r.len() ==> r[k] != r[l]
}

/// `r` is in grading order.
pub open spec fn grade_sorted(keys: Seq<KV>, desc: bool, r: Seq<i64>) -> bool {
    forall|k: int, l: int|
        0 <= k < l < r.len() ==> ord_before(keys, desc, #[trigger] r[k] as int, #[trigger] r[l] as int)
}

/// The keys that grading orders: the elements of a vector as atoms, or the
/// items of a list.
pub open spec fn grade_keys(x: KV) -> Seq<KV> {
    match x {
        KV::List(l) => l,
        _ => x.ints().map_values(|v: i64| KV::Atom(v)),
    }
}

/// What grading returns: a permutation of the positions, in grading order
/// whenever the keys are totally preordered (always for integers).
pub open spec fn graded(x: KV, desc: bool, r: KV) -> bool {
    &&& r is Vector
    &&& is_index_permutation(r.ints(), grade_keys(x).len() as int)
    &&& korder_total(grade_keys(x)) ==> grade_sorted(grade_keys(x), desc, r.ints())
}

/// Lexicographic comparison of two integer sequences, element by element
/// from the front.
pub open spec fn lex_rec(a: Seq<i64>, b: Seq<i64>) -> int
    decreases a.len(),
{
    if a.len() == 0 || b.len() == 0 {
        three_way(a.len() as int, b.len() as int)
    } else if a[0] != b[0] {
        three_way(a[0] as int, b[0] as int)
    } else {
        lex_rec(a.drop_first(), b.drop_first())
    }
}

/// `k` is the first position where `a` and `b` differ.
pub open spec fn first_diff(a: Seq<i64>, b: Seq<i64>, k: int) -> bool {
    0 <= k < a.len() && k < b.len() && a[k] != b[k] && (forall|j: int| 0 <= j < k ==> a[j] == b[j])
}

proof fn lemma_first_diff_exists(a: Seq<i64>, b: Seq<i64>, k0: int)
    requires
        0 <= k0 < a.len() && k0 < b.len() && a[k0] != b[k0],
    ensures
        exists|k: int| first_diff(a, b, k),
    decreases k0,
{
    if exists|j: int| 0 <= j < k0 && a[j] != b[j] {
        let j = choose|j: int| 0 <= j < k0 && a[j] != b[j];
        lemma_first_diff_exists(a, b, j);
    } else {
        assert(first_diff(a, b, k0));
    }
}

proof fn lemma_first_diff_unique(a: Seq<i64>, b: Seq<i64>, k1: int, k2: int)
    requires
        first_diff(a, b, k1),
        first_diff(a, b, k2),
    ensures
        k1 == k2,
{
}

proof fn lemma_lex_rec(a: Seq<i64>, b: Seq<i64>)
    ensures
        lex_ints(a, b) == lex_rec(a, b),
    decreases a.len(),
{
    if a.len() == 0 || b.len() == 0 {
    } else if a[0] != b[0] {
        lemma_first_diff_exists(a, b, 0);
        let k = choose|k: int|
            0 <= k < a.len() && k < b.len() && a[k] != b[k] && (forall|j: int| 0 <= j < k ==> a[j] == b[j]);
        assert(first_diff(a, b, k));
        assert(first_diff(a, b, 0));
        lemma_first_diff_unique(a, b, k, 0);
    } else {
        let ta = a.drop_first();
        let tb = b.drop_first();
        lemma_lex_rec(ta, tb);
        if exists|k: int| 0 <= k < a.len() && k < b.len() && a[k] != b[k] {
            let k0 = choose|k: int| 0 <= k < a.len() && k < b.len() && a[k] != b[k];
            lemma_first_diff_exists(a, b, k0);
            let k = choose|k: int|
                0 <= k < a.len() && k < b.len() && a[k] != b[k] && (forall|j: int| 0 <= j < k ==> a[j] == b[j]);
            assert(first_diff(a, b, k));
            assert(k >= 1);
            assert(first_diff(ta, tb, k - 1)) by {
                assert forall|j: int| 0 <= j < k - 1 implies ta[j] == tb[j] by {
                    assert(a[j + 1] == b[j + 1]);
                }
            }
            let kt = choose|k: int|
                0 <= k < ta.len() && k < tb.len() && ta[k] != tb[k] && (forall|j: int| 0 <= j < k ==> ta[j]
                    == tb[j]);
            assert(first_diff(ta, tb, kt));
            lemma_first_diff_unique(ta, tb, kt, k - 1);
        } else {
            assert forall|k: int| 0 <= k < ta.len() && k < tb.len() implies ta[k] == tb[k] by {
                assert(a[k + 1] == b[k + 1]);
            }
        }
    }
}

proof fn lemma_lex_rec_antisymmetric(a: Seq<i64>, b: Seq<i64>)
    ensures
        lex_rec(a, b) == -lex_rec(b, a),
    decreases a.len(),
{
    if a.len() > 0 && b.len() > 0 && a[0] == b[0] {
        lemma_lex_rec_antisymmetric(a.drop_first(), b.drop_first());
    }
}

proof fn lemma_lex_rec_transitive(a: Seq<i64>, b: Seq<i64>, c: Seq<i64>)
    requires
        lex_rec(a, b) <= 0,
        lex_rec(b, c) <= 0,
    ensures
        lex_rec(a, c) <= 0,
    decreases a.len(),
{
    if a.len() > 0 && b.len() > 0 && c.len() > 0 && a[0] == b[0] && b[0] == c[0] {
        lemma_lex_rec_transitive(a.drop_first(), b.drop_first(), c.drop_first());
    }
}

/// Lists whose items are all integer atoms or vectors are totally
/// preordered by the grading comparison (lexicographic order), so grading
/// such a list sorts it.
pub proof fn lemma_numeric_items_preorder(keys: Seq<KV>)
    requires
        forall|i: int| 0 <= i < keys.len() ==> (#[trigger] keys[i]).is_num(),
    ensures
        korder_total(keys),
{
    assert forall|p: int, q: int| 0 <= p < keys.len() && 0 <= q < keys.len() implies #[trigger] korder(
        keys[p],
        keys[q],
    ) == -korder(keys[q], keys[p]) by {
        assert(keys[p].is_num() && keys[q].is_num());
        lemma_lex_rec(keys[p].ints(), keys[q].ints());
        lemma_lex_rec(keys[q].ints(), keys[p].ints());
        lemma_lex_rec_antisymmetric(keys[p].ints(), keys[q].ints());
    }
    assert forall|p: int, q: int, s: int|
        0 <= p < keys.len() && 0 <= q < keys.len() && 0 <= s < keys.len() && #[trigger] korder(keys[p], keys[q])
            <= 0 && #[trigger] korder(keys[q], keys[s]) <= 0 implies korder(keys[p], keys[s]) <= 0 by {
        assert(keys[p].is_num() && keys[q].is_num() && keys[s].is_num());
        lemma_lex_rec(keys[p].ints(), keys[q].ints());
        lemma_lex_rec(keys[q].ints(), keys[s].ints());
        lemma_lex_rec(keys[p].ints(), keys[s].ints());
        lemma_lex_rec_transitive(keys[p].ints(), keys[q].ints(), keys[s].ints());
    }
}

/// Integer keys are totally preordered.
pub proof fn lemma_ints_preorder(s: Seq<i64>)
    ensures
        korder_total(s.map_values(|v: i64| KV::Atom(v))),
{
    let keys = s.map_values(|v: i64| KV::Atom(v));
    assert forall|p: int, q: int| 0 <= p < keys.len() && 0 <= q < keys.len() implies korder(keys[p], keys[q])
        == three_way(s[p] as int, s[q] as int) by {
        lemma_atom_order(s[p], s[q]);
    }
}

/// Two atoms compare as their integers.
pub proof fn lemma_atom_order(x: i64, y: i64)
    ensures
        korder(KV::Atom(x), KV::Atom(y)) == three_way(x as int, y as int),
{
    let a = KV::Atom(x).ints();
    let b = KV::Atom(y).ints();
    if x != y {
        assert(a[0] != b[0]);
        let k = choose|k: int|
            0 <= k < a.len() && k < b.len() && a[k] != b[k] && (forall|j: int| 0 <= j < k ==> a[j] == b[j]);
        assert(k == 0);
    }
}

/// Integer values (atoms and vectors) are compared lexicographically: at
/// the first position where their integers differ, the value with the
/// smaller integer comes first, whatever their lengths.
pub proof fn lemma_compare_first_difference(a: KV, b: KV, k: int)
    requires
        a.is_num(),
        b.is_num(),
        0 <= k < a.ints().len(),
        k < b.ints().len(),
        a.ints()[k] != b.ints()[k],
        forall|j: int| 0 <= j < k ==> a.ints()[j] == b.ints()[j],
    ensures
        korder(a, b) == (if a.ints()[k] < b.ints()[k] {
            -1int
        } else {
            1int
        }),
{
    let x = a.ints();
    let y = b.ints();
    assert(first_diff(x, y, k));
    let k2 = choose|k: int|
        0 <= k < x.len() && k < y.len() && x[k] != y[k] && (forall|j: int| 0 <= j < k ==> x[j] == y[j]);
    assert(first_diff(x, y, k2));
    lemma_first_diff_unique(x, y, k, k2);
}

/// When the integers of one value are a prefix of those of the other, the
/// shorter value comes first; values with equal integers compare equal.
pub proof fn lemma_compare_prefix(a: KV, b: KV)
    requires
        a.is_num(),
        b.is_num(),
        forall|j: int| 0 <= j < a.ints().len() && j < b.ints().len() ==> a.ints()[j] == b.ints()[j],
    ensures
        korder(a, b) == (if a.ints().len() < b.ints().len() {
            -1int
        } else if a.ints().len() > b.ints().len() {
            1int
        } else {
            0int
        }),
{
}

/// Lists are compared item by item: at the first pair of items that do
/// not compare equal, that pair decides.
pub proof fn lemma_compare_lists_first_difference(la: Seq<KV>, lb: Seq<KV>, k: int)
    requires
        0 <= k < la.len(),
        k < lb.len(),
        korder(la[k], lb[k]) != 0,
        forall|j: int| 0 <= j < k ==> korder(la[j], lb[j]) == 0,
    ensures
        korder(KV::List(la), KV::List(lb)) == korder(la[k], lb[k]),
{
    let k2 = choose|k: int|
        0 <= k < la.len() && k < lb.len() && korder(la[k], lb[k]) != 0 && (forall|j: int|
            0 <= j < k ==> korder(la[j], lb[j]) == 0);
    assert(0 <= k2 < la.len() && k2 < lb.len() && korder(la[k2], lb[k2]) != 0);
    if k2 < k {
        assert(korder(la[k2], lb[k2]) == 0);
    } else if k2 > k {
        assert(korder(la[k], lb[k]) == 0);
    }
}

/// When every item of the shorter list compares equal to the item at the
/// same position of the other, the shorter list comes first.
pub proof fn lemma_compare_lists_prefix(la: Seq<KV>, lb: Seq<KV>)
    requires
        forall|j: int| 0 <= j < la.len() && j < lb.len() ==> korder(#[trigger] la[j], lb[j]) == 0,
    ensures
        korder(KV::List(la), KV::List(lb)) == (if la.len() < lb.len() {
            -1int
        } else if la.len() > lb.len() {
            1int
        } else {
            0int
        }),
{
}

/// Between an integer value and a list, an atom comes before a list and a
/// list before a vector.
pub proof fn lemma_compare_kinds(x: i64, v: Seq<i64>, l: Seq<KV>)
    ensures
        korder(KV::Atom(x), KV::List(l)) == -1,
        korder(KV::List(l), KV::Atom(x)) == 1,
        korder(KV::List(l), KV::Vector(v)) == -1,
        korder(KV::Vector(v), KV::List(l)) == 1,
{
}

/// Three-way comparison of two values in grading order.
pub fn compare_k(a: &K, b: &K) -> (r: i8)
    requires
        a.wf(),
        b.wf(),
    ensures
        r == korder(a@, b@),
    decreases a, b,
{
    proof {
        a.lemma_fields();
        b.lemma_fields();
    }
    match &a.data {
        KData::Ints(av) => match &b.data {
            KData::Ints(bv) => {
                let mut k: usize = 0;
                while k < av.len() && k < bv.len()
                    invariant
                        k <= av@.len(),
                        k <= bv@.len(),
                        av@ == a@.ints(),
                        bv@ == b@.ints(),
                        forall|j: int| 0 <= j < k ==> av@[j] == bv@[j],
                    decreases av@.len() - k,
                {
                    if av[k] != bv[k] {
                        proof {
                            let w = choose|w: int|
                                0 <= w < av@.len() && w < bv@.len() && av@[w] != bv@[w] && (forall|j: int|
                                    0 <= j < w ==> av@[j] == bv@[j]);
                            assert(w == k);
                        }
                        return if av[k] < bv[k] {
                            -1
                        } else {
                            1
                        };
                    }
                    k += 1;
                }
                if av.len() < bv.len() {
                    -1
                } else if av.len() > bv.len() {
                    1
                } else {
                    0
                }
            },
            KData::List(_) => {
                if a.t < b.t {
                    -1
                } else if a.t > b.t {
                    1
                } else {
                    0
                }
            },
        },
        KData::List(la) => match &b.data {
            KData::Ints(_) => {
                if a.t < b.t {
                    -1
                } else if a.t > b.t {
                    1
                } else {
                    0
                }
            },
            KData::List(lb) => {
                let ghost sa = views(la@);
                let ghost sb = views(lb@);
                let mut k: usize = 0;
                assert(decreases_to!(*a => *la));
                while k < la.len() && k < lb.len()
                    invariant
                        decreases_to!(*a => *la),
                        k <= la@.len(),
                        k <= lb@.len(),
                        all_wf(la@),
                        all_wf(lb@),
                        sa == views(la@),
                        sb == views(lb@),
                        a@ == KV::List(sa),
                        b@ == KV::List(sb),
                        forall|j: int| 0 <= j < k ==> korder(#[trigger] sa[j], sb[j]) == 0,
                    decreases la@.len() - k,
                {
                    proof {
                        vstd::std_specs::vec::axiom_vec_index_decreases(*la, k as int);
                        assert(kwf(la@[k as int]));
                        assert(kwf(lb@[k as int]));
                    }
                    let c = compare_k(&la[k], &lb[k]);
                    if c != 0 {
                        proof {
                            assert(korder(sa[k as int], sb[k as int]) != 0);
                            let w = choose|w: int|
                                0 <= w < sa.len() && w < sb.len() && korder(sa[w], sb[w]) != 0 && (forall|j: int|
                                    0 <= j < w ==> korder(sa[j], sb[j]) == 0);
                            assert(w == k);
                        }
                        return c;
                    }
                    k += 1;
                }
                proof {
                    assert forall|j: int| 0 <= j < sa.len() && j < sb.len() implies korder(sa[j], sb[j])
                        == 0 by {}
                }
                if la.len() < lb.len() {
                    -1
                } else if la.len() > lb.len() {
                    1
                } else {
                    0
                }
            },
        },
    }
}

/// Three-way comparison in descending grading order: `compare_k` with the
/// operands exchanged.
pub fn compare_k_descending(a: &K, b: &K) -> (r: i8)
    requires
        a.wf(),
        b.wf(),
    ensures
        r == korder(b@, a@),
{
    compare_k(b, a)
}

/// The comparison that grading applies to positions `p` and `q`.
#[verifier::opaque]
pub open spec fn pos_order(keys: Seq<KV>, desc: bool, p: int, q: int) -> int {
    if desc {
        korder(keys[q], keys[p])
    } else {
        korder(keys[p], keys[q])
    }
}

proof fn lemma_pos_order_total(keys: Seq<KV>, desc: bool)
    requires
        korder_total(keys),
    ensures
        forall|p: int, q: int|
            0 <= p < keys.len() && 0 <= q < keys.len() ==> #[trigger] pos_order(keys, desc, p, q)
                == -pos_order(keys, desc, q, p),
        forall|p: int, q: int, s: int|
            0 <= p < keys.len() && 0 <= q < keys.len() && 0 <= s < keys.len() && #[trigger] pos_order(
                keys,
                desc,
                p,
                q,
            ) <= 0 && #[trigger] pos_order(keys, desc, q, s) <= 0 ==> pos_order(keys, desc, p, s) <= 0,
{
    reveal(pos_order);
    assert forall|p: int, q: int|
        0 <= p < keys.len() && 0 <= q < keys.len() implies #[trigger] pos_order(keys, desc, p, q)
        == -pos_order(keys, desc, q, p) by {
        assert(korder(keys[p], keys[q]) == -korder(keys[q], keys[p]));
    }
    assert forall|p: int, q: int, s: int|
        0 <= p < keys.len() && 0 <= q < keys.len() && 0 <= s < keys.len() && #[trigger] pos_order(
            keys,
            desc,
            p,
            q,
        ) <= 0 && #[trigger] pos_order(keys, desc, q, s) <= 0 implies pos_order(keys, desc, p, s)
        <= 0 by {
        if desc {
            assert(korder(keys[s], keys[q]) <= 0 && korder(keys[q], keys[p]) <= 0);
        } else {
            assert(korder(keys[p], keys[q]) <= 0 && korder(keys[q], keys[s]) <= 0);
        }
    }
}

/// Inserting the new largest position `i` at `p` keeps a permutation.
proof fn lemma_insert_perm(r: Seq<i64>, i: int, p: int)
    requires
        0 <= i < i64::MAX,
        0 <= p <= r.len(),
        is_index_permutation(r, i),
    ensures
        is_index_permutation(r.insert(p, i as i64), i + 1),
        forall|k: int| 0 <= k < r.len() + 1 ==> #[trigger] r.insert(p, i as i64)[k] == (if k < p {
            r[k]
        } else if k == p {
            i as i64
        } else {
            r[k - 1]
        }),
{
    let r2 = r.insert(p, i as i64);
    assert(r2.len() == r.len() + 1);
    assert forall|k: int| 0 <= k < r2.len() implies r2[k] == (if k < p {
        r[k]
    } else if k == p {
        i as i64
    } else {
        r[k - 1]
    }) by {}
    assert forall|k: int| 0 <= k < r2.len() implies 0 <= #[trigger] r2[k] < i + 1 by {
        if k < p {
            assert(0 <= r[k] < i);
        } else if k > p {
            assert(0 <= r[k - 1] < i);
        }
    }
    assert forall|k: int, l: int| 0 <= k < l < r2.len() implies r2[k] != r2[l] by {
        if k < p {
            assert(0 <= r[k] < i);
            if l > p {
                assert(r[k] != r[l - 1]);
            }
        } else if k == p {
            assert(0 <= r[l - 1] < i);
        } else {
            assert(r[k - 1] != r[l - 1]);
        }
    }
}

/// The new position goes after every listed position that does not follow it.
proof fn lemma_new_after(keys: Seq<KV>, desc: bool, i: int, a: int)
    requires
        0 <= a < i < keys.len(),
        pos_order(keys, desc, i, a) >= 0,
        pos_order(keys, desc, a, i) == -pos_order(keys, desc, i, a),
    ensures
        ord_before(keys, desc, a, i),
{
}

/// The new position goes before every listed position from `p` on.
proof fn lemma_new_before(keys: Seq<KV>, desc: bool, i: int, b: int, c: int)
    requires
        0 <= b < i < keys.len(),
        0 <= c < i,
        pos_order(keys, desc, i, c) < 0,
        b == c || pos_order(keys, desc, c, b) <= 0,
        korder_total(keys),
    ensures
        ord_before(keys, desc, i, b),
{
    lemma_pos_order_total(keys, desc);
    if pos_order(keys, desc, i, b) >= 0 {
        assert(pos_order(keys, desc, b, i) == -pos_order(keys, desc, i, b));
        assert(pos_order(keys, desc, c, i) == -pos_order(keys, desc, i, c));
        if b != c {
            assert(pos_order(keys, desc, c, i) <= 0);
        }
        assert(false);
    }
}

/// Inserting position `i` before the first listed position that it
/// precedes keeps the listing a sorted permutation.
#[verifier::rlimit(30)]
proof fn lemma_insert_sorted(keys: Seq<KV>, desc: bool, r: Seq<i64>, i: int, p: int)
    requires
        0 <= i < keys.len(),
        keys.len() <= i64::MAX,
        0 <= p <= r.len(),
        is_index_permutation(r, i),
        korder_total(keys) ==> grade_sorted(keys, desc, r),
        forall|k: int| 0 <= k < p ==> pos_order(keys, desc, i, #[trigger] r[k] as int) >= 0,
        p < r.len() ==> pos_order(keys, desc, i, r[p] as int) < 0,
    ensures
        is_index_permutation(r.insert(p, i as i64), i + 1),
        korder_total(keys) ==> grade_sorted(keys, desc, r.insert(p, i as i64)),
{
    lemma_insert_perm(r, i, p);
    let r2 = r.insert(p, i as i64);
    if korder_total(keys) {
        lemma_pos_order_total(keys, desc);
        assert forall|k: int, l: int| 0 <= k < l < r2.len() implies ord_before(
            keys,
            desc,
            #[trigger] r2[k] as int,
            #[trigger] r2[l] as int,
        ) by {
            if l < p {
                assert(ord_before(keys, desc, r[k] as int, r[l] as int));
            } else if l == p {
                assert(0 <= r[k] < i);
                lemma_new_after(keys, desc, i, r[k] as int);
            } else if k < p {
                assert(ord_before(keys, desc, r[k] as int, r[l - 1] as int));
            } else if k == p {
                assert(0 <= r[l - 1] < i);
                assert(0 <= r[p] < i);
                if l - 1 > p {
                    assert(ord_before(keys, desc, r[p] as int, r[l - 1] as int));
                }
                lemma_new_before(keys, desc, i, r[l - 1] as int, r[p] as int);
            } else {
                assert(ord_before(keys, desc, r[k - 1] as int, r[l - 1] as int));
            }
        }
    }
}

/// Grade a vector of integers.
fn grade_ints(v: &[i64], desc: bool) -> (r: Vec<i64>)
    requires
        v@.len() <= i64::MAX,
    ensures
        is_index_permutation(r@, v@.len() as int),
        grade_sorted(v@.map_values(|x: i64| KV::Atom(x)), desc, r@),
{
    let ghost keys = v@.map_values(|x: i64| KV::Atom(x));
    proof {
        lemma_ints_preorder(v@);
    }
    let n = v.len();
    let mut r: Vec<i64> = Vec::new();
    let mut i: usize = 0;
    while i < n
        invariant
            n == v@.len(),
            n <= i64::MAX,
            keys == v@.map_values(|x: i64| KV::Atom(x)),
            korder_total(keys),
            i <= n,
            is_index_permutation(r@, i as int),
            grade_sorted(keys, desc, r@),
        decreases n - i,
    {
        let mut p: usize = 0;
        let mut stop = false;
        while p < r.len() && !stop
            invariant
                p <= r@.len(),
                i < n,
                n == v@.len(),
                keys == v@.map_values(|x: i64| KV::Atom(x)),
                is_index_permutation(r@, i as int),
                forall|k: int| 0 <= k < p ==> pos_order(keys, desc, i as int, #[trigger] r@[k] as int) >= 0,
                stop ==> p < r@.len() && pos_order(keys, desc, i as int, r@[p as int] as int) < 0,
            decreases r@.len() - p, if stop { 0int } else { 1int },
        {
            let q = r[p] as usize;
            assert(0 <= r@[p as int] < i);
            proof {
                lemma_atom_order(v@[i as int], v@[q as int]);
                lemma_atom_order(v@[q as int], v@[i as int]);
                reveal(pos_order);
            }
            let before = if desc {
                v[q] < v[i]
            } else {
                v[i] < v[q]
            };
            if before {
                stop = true;
            } else {
                p += 1;
            }
        }
        proof {
            lemma_insert_sorted(keys, desc, r@, i as int, p as int);
        }
        r.insert(p, i as i64);
        i += 1;
    }
    r
}

/// Grade the items of a list.
fn grade_items(v: &[K], desc: bool) -> (r: Vec<i64>)
    requires
        v@.len() <= i64::MAX,
        all_wf(v@),
    ensures
        is_index_permutation(r@, v@.len() as int),
        korder_total(views(v@)) ==> grade_sorted(views(v@), desc, r@),
{
    let ghost keys = views(v@);
    let n = v.len();
    let mut r: Vec<i64> = Vec::new();
    let mut i: usize = 0;
    while i < n
        invariant
            n == v@.len(),
            n <= i64::MAX,
            all_wf(v@),
            keys == views(v@),
            i <= n,
            is_index_permutation(r@, i as int),
            korder_total(keys) ==> grade_sorted(keys, desc, r@),
        decreases n - i,
    {
        let mut p: usize = 0;
        let mut stop = false;
        while p < r.len() && !stop
            invariant
                p <= r@.len(),
                i < n,
                n == v@.len(),
                all_wf(v@),
                keys == views(v@),
                is_index_permutation(r@, i as int),
                forall|k: int| 0 <= k < p ==> pos_order(keys, desc, i as int, #[trigger] r@[k] as int) >= 0,
                stop ==> p < r@.len() && pos_order(keys, desc, i as int, r@[p as int] as int) < 0,
            decreases r@.len() - p, if stop { 0int } else { 1int },
        {
            let q = r[p] as usize;
            assert(0 <= r@[p as int] < i);
            proof {
                assert(kwf(v@[i as int]));
                assert(kwf(v@[q as int]));
                reveal(pos_order);
            }
            let c = if desc {
                compare_k_descending(&v[i], &v[q])
            } else {
                compare_k(&v[i], &v[q])
            };
            if c < 0 {
                stop = true;
            } else {
                p += 1;
            }
        }
        proof {
            lemma_insert_sorted(keys, desc, r@, i as int, p as int);
        }
        r.insert(p, i as i64);
        i += 1;
    }
    r
}

/// Grade up (`<x`): the positions of `x` in ascending order of their
/// elements, equal elements keeping their order.
pub fn grade_up(x: &K) -> (r: K)
    requires
        x.wf(),
    ensures
        r.wf(),
        graded(x@, false, r@),
{
    proof {
        x.lemma_fields();
    }
    match &x.data {
        KData::Ints(v) => {
            let idx = grade_ints(v.as_slice(), false);
            proof {
                lemma_ints_preorder(v@);
            }
            K::from_ints(idx)
        },
        KData::List(v) => {
            let idx = grade_items(v.as_slice(), false);
            K::from_ints(idx)
        },
    }
}

/// Grade down (`>x`): the positions of `x` in descending order of their
/// elements, equal elements keeping their order.
pub fn grade_down(x: &K) -> (r: K)
    requires
        x.wf(),
    ensures
        r.wf(),
        graded(x@, true, r@),
{
    proof {
        x.lemma_fields();
    }
    match &x.data {
        KData::Ints(v) => {
            let idx = grade_ints(v.as_slice(), true);
            proof {
                lemma_ints_preorder(v@);
            }
            K::from_ints(idx)
        },
        KData::List(v) => {
            let idx = grade_items(v.as_slice(), true);
            K::from_ints(idx)
        },
    }
}

} // verus!
