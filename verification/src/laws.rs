//! Laws of the verbs: properties that relate several calls or hold of
//! every input.

use vstd::prelude::*;
use crate::k::KV;
use crate::va::{ScalarOp, op_value, op_defined, bcast, zip_len, zip_ok, zip_defined, zip_with, shapes_ok, dyad_ok, dyad, num_result, kmatch};
use crate::rounding::{nearest_double, dropped_bits, round_to_multiple};
use crate::shape::{reversed, reverse_of, transpose_ok, transpose_of, take_of, take_ok, take_index, first_of, gather_of};
use crate::search::{dedup_ints, dedup_items, unique_of, where_of};
use vstd::arithmetic::power2::pow2;
use crate::k::K;
use crate::adverb::{fold_result, scan_result, fold_ok, over_ok, over_result, walk_items, each_ok, scan_outcome, simplified};
use crate::va::{plus, times, negate};
use crate::grade::{grade_sorted, is_index_permutation, lemma_atom_order, ord_before, pos_order};
use crate::ffi::int_sum;
use crate::va::{dot_sum, dot_defined};
use crate::swarm::{sum_all, sum_all_ok};
use crate::torrent::{peers_having, availability_of};

verus! {

/// Exchanging the operands of `op1` gives `op2`, element by element.
pub open spec fn swaps_to(op1: ScalarOp, op2: ScalarOp) -> bool {
    forall|x: int, y: int| #[trigger] op_value(op1, x, y) == op_value(op2, y, x)
}

proof fn lemma_zip_swap(op1: ScalarOp, op2: ScalarOp, a: Seq<i64>, b: Seq<i64>)
    requires
        swaps_to(op1, op2),
        zip_defined(op1, a, b),
    ensures
        zip_defined(op2, b, a),
        zip_with(op1, a, b) == zip_with(op2, b, a),
{
    assert forall|i: int| #![trigger bcast(b, i)] 0 <= i < zip_len(b, a) implies op_defined(
        op2,
        bcast(b, i) as int,
        bcast(a, i) as int,
    ) by {
        assert(op_defined(op1, bcast(a, i) as int, bcast(b, i) as int));
        assert(op_value(op1, bcast(a, i) as int, bcast(b, i) as int) == op_value(
            op2,
            bcast(b, i) as int,
            bcast(a, i) as int,
        ));
    }
    assert forall|i: int| 0 <= i < zip_len(a, b) implies #[trigger] zip_with(op1, a, b)[i] == zip_with(
        op2,
        b,
        a,
    )[i] by {
        assert(op_value(op1, bcast(a, i) as int, bcast(b, i) as int) == op_value(
            op2,
            bcast(b, i) as int,
            bcast(a, i) as int,
        ));
    }
    assert(zip_with(op1, a, b) =~= zip_with(op2, b, a));
}

/// Exchanging the operands of a dyadic scalar verb: when `op1` with its
/// operands exchanged is `op2` element by element, `a op1 b` is `b op2 a`
/// at every level, and one is defined exactly when the other is.
pub proof fn lemma_dyad_swap(op1: ScalarOp, op2: ScalarOp, a: KV, b: KV)
    requires
        swaps_to(op1, op2),
        dyad_ok(op1, a, b),
    ensures
        dyad_ok(op2, b, a),
        dyad(op1, a, b) == dyad(op2, b, a),
    decreases a, b,
{
    match a {
        KV::List(la) => match b {
            KV::List(lb) => {
                assert forall|i: int| 0 <= i < lb.len() implies dyad_ok(op2, #[trigger] lb[i], la[i])
                    && dyad(op1, la[i], lb[i]) == dyad(op2, lb[i], la[i]) by {
                    lemma_dyad_swap(op1, op2, la[i], lb[i]);
                }
                assert(dyad(op1, a, b).items() =~= dyad(op2, b, a).items());
            },
            _ => {
                assert forall|i: int| 0 <= i < la.len() implies dyad_ok(op2, b, #[trigger] la[i])
                    && dyad(op1, la[i], b) == dyad(op2, b, la[i]) by {
                    lemma_dyad_swap(op1, op2, la[i], b);
                }
                assert(dyad(op1, a, b).items() =~= dyad(op2, b, a).items());
            },
        },
        _ => match b {
            KV::List(lb) => {
                assert forall|i: int| 0 <= i < lb.len() implies dyad_ok(op2, #[trigger] lb[i], a)
                    && dyad(op1, a, lb[i]) == dyad(op2, lb[i], a) by {
                    lemma_dyad_swap(op1, op2, a, lb[i]);
                }
                assert(dyad(op1, a, b).items() =~= dyad(op2, b, a).items());
            },
            _ => {
                lemma_zip_swap(op1, op2, a.ints(), b.ints());
            },
        },
    }
}

/// Addition is commutative: `a + b` is `b + a`, and one is defined exactly
/// when the other is.
pub proof fn lemma_plus_commutes(a: KV, b: KV)
    requires
        dyad_ok(ScalarOp::Plus, a, b),
    ensures
        dyad_ok(ScalarOp::Plus, b, a),
        dyad(ScalarOp::Plus, a, b) == dyad(ScalarOp::Plus, b, a),
{
    assert forall|x: int, y: int| #[trigger] op_value(ScalarOp::Plus, x, y) == op_value(ScalarOp::Plus, y, x) by {}
    lemma_dyad_swap(ScalarOp::Plus, ScalarOp::Plus, a, b);
}

/// Multiplication is commutative: `a * b` is `b * a`, and one is defined
/// exactly when the other is.
pub proof fn lemma_times_commutes(a: KV, b: KV)
    requires
        dyad_ok(ScalarOp::Times, a, b),
    ensures
        dyad_ok(ScalarOp::Times, b, a),
        dyad(ScalarOp::Times, a, b) == dyad(ScalarOp::Times, b, a),
{
    assert forall|x: int, y: int| #[trigger] op_value(ScalarOp::Times, x, y) == op_value(
        ScalarOp::Times,
        y,
        x,
    ) by {
        assert(x * y == y * x) by (nonlinear_arith);
    }
    lemma_dyad_swap(ScalarOp::Times, ScalarOp::Times, a, b);
}

/// Equality is symmetric: `a = b` is `b = a`.
pub proof fn lemma_equals_symmetric(a: KV, b: KV)
    requires
        dyad_ok(ScalarOp::Equal, a, b),
    ensures
        dyad_ok(ScalarOp::Equal, b, a),
        dyad(ScalarOp::Equal, a, b) == dyad(ScalarOp::Equal, b, a),
{
    assert forall|x: int, y: int| #[trigger] op_value(ScalarOp::Equal, x, y) == op_value(
        ScalarOp::Equal,
        y,
        x,
    ) by {}
    lemma_dyad_swap(ScalarOp::Equal, ScalarOp::Equal, a, b);
}

/// `a < b` is `b > a`.
pub proof fn lemma_less_is_flipped_more(a: KV, b: KV)
    requires
        dyad_ok(ScalarOp::Less, a, b),
    ensures
        dyad_ok(ScalarOp::More, b, a),
        dyad(ScalarOp::Less, a, b) == dyad(ScalarOp::More, b, a),
{
    assert forall|x: int, y: int| #[trigger] op_value(ScalarOp::Less, x, y) == op_value(
        ScalarOp::More,
        y,
        x,
    ) by {}
    lemma_dyad_swap(ScalarOp::Less, ScalarOp::More, a, b);
}

/// Addition: on integer sides the result is an atom for two atoms and a
/// vector otherwise, as long as the longer side; element `i` combines the
/// elements at `i`, and a side with one integer combines it with every
/// element of the other side.
pub proof fn lemma_plus_elements(a: KV, b: KV)
    requires
        a.is_num(),
        b.is_num(),
        dyad_ok(ScalarOp::Plus, a, b),
    ensures
        a is Atom && b is Atom ==> dyad(ScalarOp::Plus, a, b) == KV::Atom((a.ints()[0] + b.ints()[0]) as i64),
        !(a is Atom && b is Atom) ==> dyad(ScalarOp::Plus, a, b) is Vector,
        dyad(ScalarOp::Plus, a, b).ints().len() == (if a.ints().len() >= b.ints().len() {
            a.ints().len()
        } else {
            b.ints().len()
        }),
        a.ints().len() == b.ints().len() ==> forall|i: int|
            0 <= i < a.ints().len() ==> #[trigger] dyad(ScalarOp::Plus, a, b).ints()[i] == a.ints()[i] + b.ints()[i],
        a.ints().len() == 1 ==> forall|i: int|
            0 <= i < b.ints().len() ==> #[trigger] dyad(ScalarOp::Plus, a, b).ints()[i] == a.ints()[0] + b.ints()[i],
        b.ints().len() == 1 ==> forall|i: int|
            0 <= i < a.ints().len() ==> #[trigger] dyad(ScalarOp::Plus, a, b).ints()[i] == a.ints()[i] + b.ints()[0],
{
    let x = a.ints();
    let y = b.ints();
    let z = zip_with(ScalarOp::Plus, x, y);
    assert forall|i: int| #![trigger z[i]] 0 <= i < zip_len(x, y) implies z[i] == bcast(x, i) + bcast(y, i) by {
        assert(op_defined(ScalarOp::Plus, bcast(x, i) as int, bcast(y, i) as int));
    }
}

/// Subtraction: on integer sides the result is an atom for two atoms and a
/// vector otherwise, as long as the longer side; element `i` combines the
/// elements at `i`, and a side with one integer combines it with every
/// element of the other side.
pub proof fn lemma_minus_elements(a: KV, b: KV)
    requires
        a.is_num(),
        b.is_num(),
        dyad_ok(ScalarOp::Minus, a, b),
    ensures
        a is Atom && b is Atom ==> dyad(ScalarOp::Minus, a, b) == KV::Atom((a.ints()[0] - b.ints()[0]) as i64),
        !(a is Atom && b is Atom) ==> dyad(ScalarOp::Minus, a, b) is Vector,
        dyad(ScalarOp::Minus, a, b).ints().len() == (if a.ints().len() >= b.ints().len() {
            a.ints().len()
        } else {
            b.ints().len()
        }),
        a.ints().len() == b.ints().len() ==> forall|i: int|
            0 <= i < a.ints().len() ==> #[trigger] dyad(ScalarOp::Minus, a, b).ints()[i] == a.ints()[i] - b.ints()[i],
        a.ints().len() == 1 ==> forall|i: int|
            0 <= i < b.ints().len() ==> #[trigger] dyad(ScalarOp::Minus, a, b).ints()[i] == a.ints()[0] - b.ints()[i],
        b.ints().len() == 1 ==> forall|i: int|
            0 <= i < a.ints().len() ==> #[trigger] dyad(ScalarOp::Minus, a, b).ints()[i] == a.ints()[i] - b.ints()[0],
{
    let x = a.ints();
    let y = b.ints();
    let z = zip_with(ScalarOp::Minus, x, y);
    assert forall|i: int| #![trigger z[i]] 0 <= i < zip_len(x, y) implies z[i] == bcast(x, i) - bcast(y, i) by {
        assert(op_defined(ScalarOp::Minus, bcast(x, i) as int, bcast(y, i) as int));
    }
}

/// Multiplication: on integer sides the result is an atom for two atoms and a
/// vector otherwise, as long as the longer side; element `i` combines the
/// elements at `i`, and a side with one integer combines it with every
/// element of the other side.
pub proof fn lemma_times_elements(a: KV, b: KV)
    requires
        a.is_num(),
        b.is_num(),
        dyad_ok(ScalarOp::Times, a, b),
    ensures
        a is Atom && b is Atom ==> dyad(ScalarOp::Times, a, b) == KV::Atom((a.ints()[0] * b.ints()[0]) as i64),
        !(a is Atom && b is Atom) ==> dyad(ScalarOp::Times, a, b) is Vector,
        dyad(ScalarOp::Times, a, b).ints().len() == (if a.ints().len() >= b.ints().len() {
            a.ints().len()
        } else {
            b.ints().len()
        }),
        a.ints().len() == b.ints().len() ==> forall|i: int|
            0 <= i < a.ints().len() ==> #[trigger] dyad(ScalarOp::Times, a, b).ints()[i] == a.ints()[i] * b.ints()[i],
        a.ints().len() == 1 ==> forall|i: int|
            0 <= i < b.ints().len() ==> #[trigger] dyad(ScalarOp::Times, a, b).ints()[i] == a.ints()[0] * b.ints()[i],
        b.ints().len() == 1 ==> forall|i: int|
            0 <= i < a.ints().len() ==> #[trigger] dyad(ScalarOp::Times, a, b).ints()[i] == a.ints()[i] * b.ints()[0],
{
    let x = a.ints();
    let y = b.ints();
    let z = zip_with(ScalarOp::Times, x, y);
    assert forall|i: int| #![trigger z[i]] 0 <= i < zip_len(x, y) implies z[i] == bcast(x, i) * bcast(y, i) by {
        assert(op_defined(ScalarOp::Times, bcast(x, i) as int, bcast(y, i) as int));
    }
}

/// Two integer sides of equal length can be added, subtracted or
/// multiplied exactly when no element of the result leaves the range of
/// `i64`.
pub proof fn lemma_arith_defined(a: Seq<i64>, b: Seq<i64>)
    requires
        a.len() == b.len(),
    ensures
        dyad_ok(ScalarOp::Plus, KV::Vector(a), KV::Vector(b)) <==> forall|i: int|
            0 <= i < a.len() ==> i64::MIN <= #[trigger] a[i] + b[i] <= i64::MAX,
        dyad_ok(ScalarOp::Minus, KV::Vector(a), KV::Vector(b)) <==> forall|i: int|
            0 <= i < a.len() ==> i64::MIN <= #[trigger] a[i] - b[i] <= i64::MAX,
        dyad_ok(ScalarOp::Times, KV::Vector(a), KV::Vector(b)) <==> forall|i: int|
            0 <= i < a.len() ==> i64::MIN <= #[trigger] (a[i] * b[i]) <= i64::MAX,
{
    assert forall|i: int| 0 <= i < a.len() implies bcast(a, i) == a[i] && bcast(b, i) == b[i] by {}
    if forall|i: int| 0 <= i < a.len() ==> i64::MIN <= #[trigger] a[i] + b[i] <= i64::MAX {
        assert forall|i: int| #![trigger bcast(a, i)] 0 <= i < zip_len(a, b) implies op_defined(
            ScalarOp::Plus,
            bcast(a, i) as int,
            bcast(b, i) as int,
        ) by {
            assert(i64::MIN <= a[i] + b[i] <= i64::MAX);
        }
    }
    if dyad_ok(ScalarOp::Plus, KV::Vector(a), KV::Vector(b)) {
        assert forall|i: int| 0 <= i < a.len() implies i64::MIN <= #[trigger] a[i] + b[i] <= i64::MAX by {
            assert(op_defined(ScalarOp::Plus, bcast(a, i) as int, bcast(b, i) as int));
        }
    }
    if forall|i: int| 0 <= i < a.len() ==> i64::MIN <= #[trigger] a[i] - b[i] <= i64::MAX {
        assert forall|i: int| #![trigger bcast(a, i)] 0 <= i < zip_len(a, b) implies op_defined(
            ScalarOp::Minus,
            bcast(a, i) as int,
            bcast(b, i) as int,
        ) by {
            assert(i64::MIN <= a[i] - b[i] <= i64::MAX);
        }
    }
    if dyad_ok(ScalarOp::Minus, KV::Vector(a), KV::Vector(b)) {
        assert forall|i: int| 0 <= i < a.len() implies i64::MIN <= #[trigger] a[i] - b[i] <= i64::MAX by {
            assert(op_defined(ScalarOp::Minus, bcast(a, i) as int, bcast(b, i) as int));
        }
    }
    if forall|i: int| 0 <= i < a.len() ==> i64::MIN <= #[trigger] (a[i] * b[i]) <= i64::MAX {
        assert forall|i: int| #![trigger bcast(a, i)] 0 <= i < zip_len(a, b) implies op_defined(
            ScalarOp::Times,
            bcast(a, i) as int,
            bcast(b, i) as int,
        ) by {
            assert(i64::MIN <= a[i] * b[i] <= i64::MAX);
        }
    }
    if dyad_ok(ScalarOp::Times, KV::Vector(a), KV::Vector(b)) {
        assert forall|i: int| 0 <= i < a.len() implies i64::MIN <= #[trigger] (a[i] * b[i]) <= i64::MAX by {
            assert(op_defined(ScalarOp::Times, bcast(a, i) as int, bcast(b, i) as int));
        }
    }
}

/// The comparison verbs on two integer vectors of equal length whose
/// elements are below `2^53` in magnitude give 1 where the comparison
/// holds and 0 where it does not, element by element.
pub proof fn lemma_compare_elements(a: Seq<i64>, b: Seq<i64>)
    requires
        a.len() == b.len(),
        forall|i: int| 0 <= i < a.len() ==> -pow2(53) < #[trigger] a[i] < pow2(53),
        forall|i: int| 0 <= i < b.len() ==> -pow2(53) < #[trigger] b[i] < pow2(53),
    ensures
        dyad_ok(ScalarOp::Less, KV::Vector(a), KV::Vector(b)),
        dyad_ok(ScalarOp::Equal, KV::Vector(a), KV::Vector(b)),
        dyad_ok(ScalarOp::More, KV::Vector(a), KV::Vector(b)),
        dyad(ScalarOp::Less, KV::Vector(a), KV::Vector(b)) == KV::Vector(
            Seq::new(a.len(), |i: int| if a[i] < b[i] { 1i64 } else { 0i64 }),
        ),
        dyad(ScalarOp::Equal, KV::Vector(a), KV::Vector(b)) == KV::Vector(
            Seq::new(a.len(), |i: int| if a[i] == b[i] { 1i64 } else { 0i64 }),
        ),
        dyad(ScalarOp::More, KV::Vector(a), KV::Vector(b)) == KV::Vector(
            Seq::new(a.len(), |i: int| if a[i] > b[i] { 1i64 } else { 0i64 }),
        ),
{
    assert forall|i: int| 0 <= i < a.len() implies {
        &&& op_value(ScalarOp::Less, a[i] as int, b[i] as int) == (if a[i] < b[i] { 1int } else { 0 })
        &&& op_value(ScalarOp::Equal, a[i] as int, b[i] as int) == (if a[i] == b[i] { 1int } else { 0 })
        &&& op_value(ScalarOp::More, a[i] as int, b[i] as int) == (if a[i] > b[i] { 1int } else { 0 })
    } by {
        lemma_small_compare_exact(a[i] as int, b[i] as int);
    }
    assert forall|i: int| 0 <= i < a.len() implies bcast(a, i) == a[i] && bcast(b, i) == b[i] by {}
    assert(dyad(ScalarOp::Less, KV::Vector(a), KV::Vector(b)).ints() =~= Seq::new(
        a.len(),
        |i: int| if a[i] < b[i] { 1i64 } else { 0i64 },
    ));
    assert(dyad(ScalarOp::Equal, KV::Vector(a), KV::Vector(b)).ints() =~= Seq::new(
        a.len(),
        |i: int| if a[i] == b[i] { 1i64 } else { 0i64 },
    ));
    assert(dyad(ScalarOp::More, KV::Vector(a), KV::Vector(b)).ints() =~= Seq::new(
        a.len(),
        |i: int| if a[i] > b[i] { 1i64 } else { 0i64 },
    ));
}

/// Every pair of integers is exactly one of less, equal and more.
pub proof fn lemma_trichotomy(x: int, y: int)
    ensures
        op_value(ScalarOp::Less, x, y) + op_value(ScalarOp::Equal, x, y) + op_value(ScalarOp::More, x, y)
            == 1,
{
}

/// Integers of magnitude below `2^53` are doubles: the conversion keeps
/// them.
pub proof fn lemma_small_ints_exact(x: int)
    requires
        -pow2(53) < x < pow2(53),
    ensures
        nearest_double(x) == x,
{
}

/// Below `2^53` in magnitude, the comparison verbs compare the integers
/// themselves.
pub proof fn lemma_small_compare_exact(x: int, y: int)
    requires
        -pow2(53) < x < pow2(53),
        -pow2(53) < y < pow2(53),
    ensures
        op_value(ScalarOp::Less, x, y) == (if x < y { 1int } else { 0 }),
        op_value(ScalarOp::Equal, x, y) == (if x == y { 1int } else { 0 }),
        op_value(ScalarOp::More, x, y) == (if x > y { 1int } else { 0 }),
{
    lemma_small_ints_exact(x);
    lemma_small_ints_exact(y);
}

/// Negation undoes itself: `-(-x)` is `x`, wherever `-x` is defined.
pub proof fn lemma_negate_involution(x: KV)
    requires
        dyad_ok(ScalarOp::Minus, KV::Atom(0), x),
    ensures
        dyad_ok(ScalarOp::Minus, KV::Atom(0), dyad(ScalarOp::Minus, KV::Atom(0), x)),
        dyad(ScalarOp::Minus, KV::Atom(0), dyad(ScalarOp::Minus, KV::Atom(0), x)) == x,
    decreases x,
{
    let z = KV::Atom(0);
    match x {
        KV::List(l) => {
            let y = dyad(ScalarOp::Minus, z, x);
            assert forall|i: int| 0 <= i < l.len() implies dyad_ok(
                ScalarOp::Minus,
                z,
                #[trigger] y.items()[i],
            ) && dyad(ScalarOp::Minus, z, y.items()[i]) == l[i] by {
                lemma_negate_involution(l[i]);
            }
            assert(dyad(ScalarOp::Minus, z, y).items() =~= l);
        },
        _ => {
            let s = x.ints();
            let y = dyad(ScalarOp::Minus, z, x);
            let ys = zip_with(ScalarOp::Minus, z.ints(), s);
            assert(ys.len() == s.len());
            assert forall|i: int| 0 <= i < ys.len() implies #[trigger] ys[i] == -s[i] by {
                assert(op_defined(ScalarOp::Minus, bcast(z.ints(), i) as int, bcast(s, i) as int));
            }
            assert(y.ints() =~= ys);
            assert forall|i: int| #![trigger bcast(z.ints(), i)] 0 <= i < zip_len(z.ints(), y.ints()) implies op_defined(
                ScalarOp::Minus,
                bcast(z.ints(), i) as int,
                bcast(y.ints(), i) as int,
            ) by {
                assert(ys[i] == -s[i]);
            }
            assert(zip_with(ScalarOp::Minus, z.ints(), y.ints()) =~= s);
            if x is Atom {
                assert(dyad(ScalarOp::Minus, z, y) == x);
            } else {
                assert(dyad(ScalarOp::Minus, z, y) =~= x);
            }
        },
    }
}

/// Reverse undoes itself.
pub proof fn lemma_reverse_involution(x: KV)
    ensures
        reverse_of(reverse_of(x)) == x,
{
    match x {
        KV::Vector(s) => {
            assert(reversed(reversed(s)) =~= s);
        },
        KV::List(l) => {
            assert(reversed(reversed(l)) =~= l);
        },
        _ => {},
    }
}

/// Matching is reflexive: every value matches itself.
pub proof fn lemma_match_reflexive(x: KV)
    ensures
        kmatch(x, x),
    decreases x,
{
    match x {
        KV::List(l) => {
            assert forall|i: int| 0 <= i < l.len() implies kmatch(#[trigger] l[i], l[i]) by {
                lemma_match_reflexive(l[i]);
            }
        },
        _ => {},
    }
}

/// Transposing twice gives back a matrix with at least one row and one
/// column whose rows are vectors or lists.
pub proof fn lemma_transpose_involution(x: KV)
    requires
        transpose_ok(x),
        x.items().len() > 0,
        x.items()[0].len() > 0,
        forall|i: int| 0 <= i < x.items().len() ==> !(#[trigger] x.items()[i] is Atom),
    ensures
        transpose_ok(transpose_of(x)),
        transpose_of(transpose_of(x)) == x,
{
    let rows = x.items();
    let m = rows.len();
    let n = rows[0].len();
    let t = transpose_of(x);
    let trows = t.items();
    assert(trows.len() == n);
    if rows[0].is_num() {
        assert forall|j: int| 0 <= j < n implies (#[trigger] trows[j]).is_num() && trows[j].len() == m by {}
        let tt = transpose_of(t);
        assert forall|i: int| 0 <= i < m implies #[trigger] tt.items()[i] == rows[i] by {
            assert(rows[i].is_num() && rows[i].len() == n);
            assert(rows[i] is Vector);
            assert(tt.items()[i].ints() =~= rows[i].ints());
        }
        assert(tt.items() =~= rows);
    } else {
        assert forall|j: int| 0 <= j < n implies (#[trigger] trows[j]).is_list() && trows[j].len() == m by {}
        let tt = transpose_of(t);
        assert forall|i: int| 0 <= i < m implies #[trigger] tt.items()[i] == rows[i] by {
            assert(rows[i].is_list() && rows[i].len() == n);
            assert(tt.items()[i].items() =~= rows[i].items());
        }
        assert(tt.items() =~= rows);
    }
}

/// Taking as many elements as a nonempty vector holds, from the front or
/// from the back, gives the vector back.
pub proof fn lemma_take_all(s: Seq<i64>, n: i64)
    requires
        0 < s.len() <= i64::MAX,
        n == s.len() || n == -s.len(),
    ensures
        take_ok(KV::Atom(n), KV::Vector(s)),
        take_of(KV::Atom(n), KV::Vector(s)) == KV::Vector(s),
{
    let len = s.len() as int;
    let r = take_of(KV::Atom(n), KV::Vector(s));
    assert forall|i: int| 0 <= i < len implies #[trigger] r.ints()[i] == s[i] by {
        if n >= 0 {
            vstd::arithmetic::div_mod::lemma_small_mod(i as nat, len as nat);
        } else {
            assert((i - len) % len == i) by {
                vstd::arithmetic::div_mod::lemma_fundamental_div_mod_converse_mod(i - len, len, -1, i);
            }
        }
    }
    assert(r.ints() =~= s);
}

proof fn lemma_take_index_front(n: int, y: int, i: int)
    requires
        n >= 0,
        0 <= i < y,
    ensures
        take_index(n, n, y, i) == i,
{
    vstd::arithmetic::div_mod::lemma_small_mod(i as nat, y as nat);
}

proof fn lemma_take_index_front_cycle(n: int, y: int, i: int)
    requires
        n >= 0,
        0 < y <= i,
    ensures
        take_index(n, n, y, i) == take_index(n, n, y, i - y),
{
    vstd::arithmetic::div_mod::lemma_mod_sub_multiples_vanish(i, y);
}

proof fn lemma_take_index_back(n: int, y: int, i: int)
    requires
        n < 0,
        0 <= i < -n,
        -n - y <= i,
        y > 0,
    ensures
        take_index(n, -n, y, i) == y + n + i,
{
    vstd::arithmetic::div_mod::lemma_fundamental_div_mod_converse_mod(i + n, y, -1, y + n + i);
}

proof fn lemma_take_index_back_cycle(n: int, y: int, i: int)
    requires
        n < 0,
        0 <= i,
        i + y < -n,
        y > 0,
    ensures
        take_index(n, -n, y, i) == take_index(n, -n, y, i + y),
{
    vstd::arithmetic::div_mod::lemma_mod_add_multiples_vanish(i + n, y);
}

/// Take on a list: `n # l` has `|n|` items. For `n >= 0` it starts with
/// the first items of `l` and repeats every `|l|` items; for `n < 0` it
/// ends with the last items of `l`, in their order, and repeats every
/// `|l|` items going backwards.
pub proof fn lemma_take_list(n: i64, l: Seq<KV>)
    requires
        l.len() > 0 || n == 0,
    ensures
        take_of(KV::Atom(n), KV::List(l)) is List,
        take_of(KV::Atom(n), KV::List(l)).items().len() == (if n >= 0 {
            n as int
        } else {
            -n
        }),
        n >= 0 ==> forall|i: int|
            0 <= i < n && i < l.len() ==> #[trigger] take_of(KV::Atom(n), KV::List(l)).items()[i] == l[i],
        n >= 0 ==> forall|i: int|
            l.len() <= i < n ==> #[trigger] take_of(KV::Atom(n), KV::List(l)).items()[i] == take_of(
                KV::Atom(n),
                KV::List(l),
            ).items()[i - l.len()],
        n < 0 ==> forall|i: int|
            0 <= i < -n && -n - l.len() <= i ==> #[trigger] take_of(KV::Atom(n), KV::List(l)).items()[i]
                == l[l.len() + n + i],
        n < 0 ==> forall|i: int|
            0 <= i && i + l.len() < -n ==> #[trigger] take_of(KV::Atom(n), KV::List(l)).items()[i]
                == take_of(KV::Atom(n), KV::List(l)).items()[i + l.len()],
{
    let y = l.len() as int;
    let r = take_of(KV::Atom(n), KV::List(l)).items();
    if n >= 0 {
        assert forall|i: int| 0 <= i < n && i < y implies #[trigger] r[i] == l[i] by {
            lemma_take_index_front(n as int, y, i);
        }
        assert forall|i: int| y <= i < n implies #[trigger] r[i] == r[i - y] by {
            lemma_take_index_front_cycle(n as int, y, i);
        }
    } else {
        assert forall|i: int| 0 <= i < -n && -n - y <= i implies #[trigger] r[i] == l[y + n + i] by {
            lemma_take_index_back(n as int, y, i);
        }
        assert forall|i: int| 0 <= i && i + y < -n implies #[trigger] r[i] == r[i + y] by {
            lemma_take_index_back_cycle(n as int, y, i);
        }
    }
}

/// Take on integers (an atom counts as a vector of one): `n # y` is a
/// vector of `|n|` integers. For `n >= 0` it starts with the first
/// integers of `y` and repeats every `|y|`; for `n < 0` it ends with the
/// last integers of `y`, in their order, and repeats every `|y|` going
/// backwards.
pub proof fn lemma_take_ints(n: i64, y: KV)
    requires
        y.is_num(),
        y.ints().len() > 0 || n == 0,
    ensures
        take_of(KV::Atom(n), y) is Vector,
        take_of(KV::Atom(n), y).ints().len() == (if n >= 0 {
            n as int
        } else {
            -n
        }),
        n >= 0 ==> forall|i: int|
            0 <= i < n && i < y.ints().len() ==> #[trigger] take_of(KV::Atom(n), y).ints()[i] == y.ints()[i],
        n >= 0 ==> forall|i: int|
            y.ints().len() <= i < n ==> #[trigger] take_of(KV::Atom(n), y).ints()[i] == take_of(
                KV::Atom(n),
                y,
            ).ints()[i - y.ints().len()],
        n < 0 ==> forall|i: int|
            0 <= i < -n && -n - y.ints().len() <= i ==> #[trigger] take_of(KV::Atom(n), y).ints()[i]
                == y.ints()[y.ints().len() + n + i],
        n < 0 ==> forall|i: int|
            0 <= i && i + y.ints().len() < -n ==> #[trigger] take_of(KV::Atom(n), y).ints()[i] == take_of(
                KV::Atom(n),
                y,
            ).ints()[i + y.ints().len()],
{
    let s = y.ints();
    let m = s.len() as int;
    let r = take_of(KV::Atom(n), y).ints();
    if n >= 0 {
        assert forall|i: int| 0 <= i < n && i < m implies #[trigger] r[i] == s[i] by {
            lemma_take_index_front(n as int, m, i);
        }
        assert forall|i: int| m <= i < n implies #[trigger] r[i] == r[i - m] by {
            lemma_take_index_front_cycle(n as int, m, i);
        }
    } else {
        assert forall|i: int| 0 <= i < -n && -n - m <= i implies #[trigger] r[i] == s[m + n + i] by {
            lemma_take_index_back(n as int, m, i);
        }
        assert forall|i: int| 0 <= i && i + m < -n implies #[trigger] r[i] == r[i + m] by {
            lemma_take_index_back_cycle(n as int, m, i);
        }
    }
}

/// A negative count takes the last `|n|` items of a list, in order, when
/// the list has that many; a count `0 <= n <= |l|` takes the first `n`.
pub proof fn lemma_take_list_ends(n: i64, l: Seq<KV>)
    requires
        -l.len() <= n <= l.len(),
    ensures
        n >= 0 ==> take_of(KV::Atom(n), KV::List(l)) == KV::List(l.take(n as int)),
        n < 0 ==> take_of(KV::Atom(n), KV::List(l)) == KV::List(l.subrange(l.len() + n, l.len() as int)),
{
    lemma_take_list(n, l);
    let r = take_of(KV::Atom(n), KV::List(l)).items();
    if n >= 0 {
        assert(r =~= l.take(n as int));
    } else {
        assert forall|i: int| 0 <= i < -n implies r[i] == l.subrange(l.len() + n, l.len() as int)[i] by {
            assert(r[i] == l[l.len() + n + i]);
        }
        assert(r =~= l.subrange(l.len() + n, l.len() as int));
    }
}

/// A negative count takes the last `|n|` integers of a vector, in order,
/// when the vector has that many; a count `0 <= n <= |s|` takes the first
/// `n`.
pub proof fn lemma_take_vector_ends(n: i64, s: Seq<i64>)
    requires
        -s.len() <= n <= s.len(),
    ensures
        n >= 0 ==> take_of(KV::Atom(n), KV::Vector(s)) == KV::Vector(s.take(n as int)),
        n < 0 ==> take_of(KV::Atom(n), KV::Vector(s)) == KV::Vector(s.subrange(s.len() + n, s.len() as int)),
{
    lemma_take_ints(n, KV::Vector(s));
    let r = take_of(KV::Atom(n), KV::Vector(s)).ints();
    if n >= 0 {
        assert(r =~= s.take(n as int));
    } else {
        assert forall|i: int| 0 <= i < -n implies r[i] == s.subrange(s.len() + n, s.len() as int)[i] by {
            assert(r[i] == s[s.len() + n + i]);
        }
        assert(r =~= s.subrange(s.len() + n, s.len() as int));
    }
}

/// Two integer values (atoms and vectors) match exactly when their
/// integers are equal one by one; an integer value never matches a list;
/// two lists match when they have the same length and their items match
/// pairwise.
pub proof fn lemma_match_is_equality(a: KV, b: KV)
    ensures
        a.is_num() && b.is_num() ==> (kmatch(a, b) <==> (a.ints().len() == b.ints().len() && forall|i: int|
            0 <= i < a.ints().len() ==> a.ints()[i] == b.ints()[i])),
        a.is_num() != b.is_num() ==> !kmatch(a, b),
        a.is_list() && b.is_list() ==> (kmatch(a, b) <==> (a.items().len() == b.items().len() && forall|i: int|
            0 <= i < a.items().len() ==> kmatch(#[trigger] a.items()[i], b.items()[i]))),
{
    if a.is_num() && b.is_num() {
        if a.ints().len() == b.ints().len() && forall|i: int|
            0 <= i < a.ints().len() ==> a.ints()[i] == b.ints()[i] {
            assert(a.ints() =~= b.ints());
        }
    }
}

/// Reverse puts the last element first: element `i` of `|x` is element
/// `n - 1 - i` of `x`, for vectors and lists alike.
pub proof fn lemma_reverse_elements(x: KV)
    ensures
        x is Vector ==> reverse_of(x) is Vector && reverse_of(x).ints().len() == x.ints().len() && forall|i: int|
            0 <= i < x.ints().len() ==> #[trigger] reverse_of(x).ints()[i] == x.ints()[x.ints().len() - 1 - i],
        x is List ==> reverse_of(x) is List && reverse_of(x).items().len() == x.items().len() && forall|i: int|
            0 <= i < x.items().len() ==> #[trigger] reverse_of(x).items()[i] == x.items()[x.items().len() - 1
                - i],
        x is Atom ==> reverse_of(x) == x,
{
}

/// First gives the element at position 0 of a nonempty vector (as an
/// atom) or list; the first of an atom is the atom.
pub proof fn lemma_first_element(x: KV)
    ensures
        x is Vector && x.ints().len() > 0 ==> first_of(x) == KV::Atom(x.ints()[0]),
        x is List && x.items().len() > 0 ==> first_of(x) == x.items()[0],
        x is Atom ==> first_of(x) == x,
{
}

/// Transposing integer rows: column `j` of the result holds element `j`
/// of every row, so element `i` of result row `j` is element `j` of row
/// `i`.
pub proof fn lemma_transpose_elements(x: KV)
    requires
        transpose_ok(x),
        x.items().len() > 0,
        x.items()[0].is_num(),
    ensures
        transpose_of(x).items().len() == x.items()[0].len(),
        forall|j: int|
            0 <= j < x.items()[0].len() ==> #[trigger] transpose_of(x).items()[j].ints().len() == x.items().len(),
        forall|i: int, j: int|
            0 <= i < x.items().len() && 0 <= j < x.items()[0].len() ==> #[trigger] transpose_of(x).items()[j].ints()[i]
                == x.items()[i].ints()[j],
{
}

/// Transposing rows that are lists: item `i` of result row `j` is item `j`
/// of row `i`.
pub proof fn lemma_transpose_list_rows(x: KV)
    requires
        transpose_ok(x),
        x.items().len() > 0,
        x.items()[0].is_list(),
    ensures
        transpose_of(x).items().len() == x.items()[0].len(),
        forall|j: int|
            0 <= j < x.items()[0].len() ==> #[trigger] transpose_of(x).items()[j].items().len() == x.items().len(),
        forall|i: int, j: int|
            0 <= i < x.items().len() && 0 <= j < x.items()[0].len() ==> #[trigger] transpose_of(x).items()[j].items()[i]
                == x.items()[i].items()[j],
{
}

/// Gathering with an index vector picks, for every index, the row of the
/// table it names, in the order of the indices.
pub proof fn lemma_gather_rows(idx: Seq<i64>, table: Seq<KV>)
    ensures
        gather_of(KV::Vector(idx), table).items().len() == idx.len(),
        forall|k: int| 0 <= k < idx.len() ==> #[trigger] gather_of(KV::Vector(idx), table).items()[k] == table[idx[k] as int],
{
}

/// A sequence in which no element occurs twice.
pub open spec fn distinct_ints(s: Seq<i64>) -> bool {
    forall|i: int, j: int| 0 <= i < j < s.len() ==> s[i] != s[j]
}

proof fn lemma_dedup_ints_contains(s: Seq<i64>, v: i64)
    ensures
        dedup_ints(s).contains(v) <==> s.contains(v),
    decreases s.len(),
{
    if s.len() > 0 {
        let p = s.drop_last();
        let d = dedup_ints(p);
        lemma_dedup_ints_contains(p, v);
        assert(s =~= p.push(s.last()));
        assert(p.push(s.last()).contains(v) <==> (p.contains(v) || v == s.last())) by {
            if p.push(s.last()).contains(v) {
                let k = choose|k: int| 0 <= k < s.len() && s[k] == v;
                if k < p.len() {
                    assert(p[k] == v);
                }
            }
            if p.contains(v) {
                let k = choose|k: int| 0 <= k < p.len() && p[k] == v;
                assert(p.push(s.last())[k] == v);
            }
            if v == s.last() {
                assert(p.push(s.last())[p.len() as int] == v);
            }
        }
        if !d.contains(s.last()) {
            assert(d.push(s.last()).contains(v) <==> (d.contains(v) || v == s.last())) by {
                if d.push(s.last()).contains(v) {
                    let k = choose|k: int| 0 <= k < d.len() + 1 && d.push(s.last())[k] == v;
                    if k < d.len() {
                        assert(d[k] == v);
                    }
                }
                if d.contains(v) {
                    let k = choose|k: int| 0 <= k < d.len() && d[k] == v;
                    assert(d.push(s.last())[k] == v);
                }
                if v == s.last() {
                    assert(d.push(s.last())[d.len() as int] == v);
                }
            }
        }
    }
}

proof fn lemma_dedup_ints_distinct(s: Seq<i64>)
    ensures
        distinct_ints(dedup_ints(s)),
    decreases s.len(),
{
    if s.len() > 0 {
        lemma_dedup_ints_distinct(s.drop_last());
        let d = dedup_ints(s.drop_last());
        if !d.contains(s.last()) {
            let d2 = d.push(s.last());
            assert forall|i: int, j: int| 0 <= i < j < d2.len() implies d2[i] != d2[j] by {
                if j == d.len() {
                    assert(d[i] == d2[i]);
                    if d2[i] == d2[j] {
                        assert(d.contains(s.last()));
                    }
                }
            }
        }
    }
}

proof fn lemma_dedup_ints_fixed(s: Seq<i64>)
    requires
        distinct_ints(s),
    ensures
        dedup_ints(s) == s,
    decreases s.len(),
{
    if s.len() > 0 {
        let p = s.drop_last();
        assert(distinct_ints(p));
        lemma_dedup_ints_fixed(p);
        if p.contains(s.last()) {
            let k = choose|k: int| 0 <= k < p.len() && p[k] == s.last();
            assert(s[k] == s[s.len() - 1]);
        }
        assert(p.push(s.last()) =~= s);
    }
}

/// Items of which no later one matches an earlier one.
pub open spec fn distinct_items(s: Seq<KV>) -> bool {
    forall|i: int, j: int| 0 <= i < j < s.len() ==> !kmatch(s[j], s[i])
}

proof fn lemma_dedup_items_distinct(s: Seq<KV>)
    ensures
        distinct_items(dedup_items(s)),
    decreases s.len(),
{
    if s.len() > 0 {
        lemma_dedup_items_distinct(s.drop_last());
        let d = dedup_items(s.drop_last());
        if !(exists|i: int| 0 <= i < d.len() && kmatch(s.last(), d[i])) {
            let d2 = d.push(s.last());
            assert forall|i: int, j: int| 0 <= i < j < d2.len() implies !kmatch(d2[j], d2[i]) by {
                if j == d.len() {
                    assert(d[i] == d2[i]);
                }
            }
        }
    }
}

proof fn lemma_dedup_items_fixed(s: Seq<KV>)
    requires
        distinct_items(s),
    ensures
        dedup_items(s) == s,
    decreases s.len(),
{
    if s.len() > 0 {
        let p = s.drop_last();
        assert(distinct_items(p));
        lemma_dedup_items_fixed(p);
        if exists|i: int| 0 <= i < p.len() && kmatch(s.last(), p[i]) {
            let k = choose|k: int| 0 <= k < p.len() && kmatch(s.last(), p[k]);
            assert(p[k] == s[k]);
            assert(!kmatch(s[s.len() - 1], s[k]));
        }
        assert(p.push(s.last()) =~= s);
    }
}

/// In `s`, `x` occurs before every occurrence of `y`.
pub open spec fn occurs_before(s: Seq<i64>, x: i64, y: i64) -> bool {
    forall|p: int| 0 <= p < s.len() && s[p] == y ==> exists|q: int| 0 <= q < p && s[q] == x
}

/// Unique lists the integers of a vector in order of first appearance:
/// of two elements of the result, the earlier one occurs in the vector
/// before every occurrence of the later one.
pub proof fn lemma_unique_first_appearance(s: Seq<i64>)
    ensures
        forall|k: int, l: int|
            0 <= k < l < dedup_ints(s).len() ==> #[trigger] occurs_before(s, dedup_ints(s)[k], dedup_ints(s)[l]),
    decreases s.len(),
{
    if s.len() > 0 {
        let p = s.drop_last();
        let d = dedup_ints(p);
        let e = dedup_ints(s);
        lemma_unique_first_appearance(p);
        assert forall|k: int, l: int| 0 <= k < l < e.len() implies #[trigger] occurs_before(s, e[k], e[l]) by {
            assert(e[k] == d[k]);
            assert(d.contains(d[k]));
            lemma_dedup_ints_contains(p, d[k]);
            if l < d.len() {
                assert(e[l] == d[l]);
                assert(occurs_before(p, d[k], d[l]));
                assert forall|pp: int| 0 <= pp < s.len() && s[pp] == e[l] implies exists|q: int|
                    0 <= q < pp && s[q] == e[k] by {
                    if pp < p.len() {
                        assert(p[pp] == d[l]);
                        let q = choose|q: int| 0 <= q < pp && p[q] == d[k];
                        assert(s[q] == e[k]);
                    } else {
                        assert(d.contains(d[l]));
                        lemma_dedup_ints_contains(p, d[l]);
                        let p0 = choose|i: int| 0 <= i < p.len() && p[i] == d[l];
                        assert(p[p0] == d[l]);
                        let q = choose|q: int| 0 <= q < p0 && p[q] == d[k];
                        assert(s[q] == e[k]);
                    }
                }
            } else {
                assert(!d.contains(s.last()));
                assert(e[l] == s.last());
                lemma_dedup_ints_contains(p, s.last());
                let q = choose|i: int| 0 <= i < p.len() && p[i] == d[k];
                assert forall|pp: int| 0 <= pp < s.len() && s[pp] == e[l] implies exists|q2: int|
                    0 <= q2 < pp && s[q2] == e[k] by {
                    if pp < p.len() {
                        assert(p[pp] == s.last());
                        assert(p.contains(s.last()));
                    }
                    assert(s[q] == e[k]);
                }
            }
        }
    }
}

/// Unique is idempotent: applying it twice is applying it once.
pub proof fn lemma_unique_idempotent(x: KV)
    ensures
        unique_of(unique_of(x)) == unique_of(x),
{
    match x {
        KV::Vector(s) => {
            lemma_dedup_ints_distinct(s);
            lemma_dedup_ints_fixed(dedup_ints(s));
        },
        KV::List(l) => {
            lemma_dedup_items_distinct(l);
            lemma_dedup_items_fixed(dedup_items(l));
        },
        _ => {},
    }
}

/// Unique keeps exactly the integers of a vector: each once, none added.
pub proof fn lemma_unique_keeps_elements(s: Seq<i64>, v: i64)
    ensures
        dedup_ints(s).contains(v) <==> s.contains(v),
        distinct_ints(dedup_ints(s)),
{
    lemma_dedup_ints_contains(s, v);
    lemma_dedup_ints_distinct(s);
}

/// Unique on a list keeps items of the list only, one for each group of
/// matching items: every item of the list matches an item of the result,
/// and no two items of the result match.
pub proof fn lemma_unique_list_items(s: Seq<KV>)
    ensures
        forall|k: int| 0 <= k < dedup_items(s).len() ==> s.contains(#[trigger] dedup_items(s)[k]),
        forall|i: int|
            0 <= i < s.len() ==> exists|k: int| 0 <= k < dedup_items(s).len() && kmatch(#[trigger] s[i], dedup_items(s)[k]),
        distinct_items(dedup_items(s)),
    decreases s.len(),
{
    lemma_dedup_items_distinct(s);
    if s.len() > 0 {
        let p = s.drop_last();
        let d = dedup_items(p);
        let e = dedup_items(s);
        lemma_unique_list_items(p);
        assert forall|k: int| 0 <= k < e.len() implies s.contains(#[trigger] e[k]) by {
            if k < d.len() {
                assert(e[k] == d[k]);
                assert(p.contains(d[k]));
                let j = choose|j: int| 0 <= j < p.len() && p[j] == d[k];
                assert(s[j] == p[j]);
            } else {
                assert(e[k] == s.last());
                assert(s[s.len() - 1] == s.last());
            }
        }
        assert forall|i: int| 0 <= i < s.len() implies exists|k: int|
            0 <= k < e.len() && kmatch(#[trigger] s[i], e[k]) by {
            if i < p.len() {
                assert(s[i] == p[i]);
                let k = choose|k: int| 0 <= k < d.len() && kmatch(p[i], d[k]);
                assert(e[k] == d[k]);
            } else if exists|j: int| 0 <= j < d.len() && kmatch(s.last(), d[j]) {
                let k = choose|j: int| 0 <= j < d.len() && kmatch(s.last(), d[j]);
                assert(e[k] == d[k]);
            } else {
                lemma_match_reflexive(s.last());
                assert(e[d.len() as int] == s.last());
            }
        }
    }
}

/// The last running result of a scan is the result of the fold: for every
/// possible sequence of running results of folding `f` from `acc` over a
/// nonempty `items`, its last element is a possible result of the fold.
pub proof fn lemma_scan_last_is_over<F: Fn(&K, &K) -> K>(f: F, acc: KV, items: Seq<KV>, outs: Seq<KV>)
    requires
        items.len() > 0,
        scan_result(f, acc, items, outs),
    ensures
        outs.len() == items.len(),
        fold_result(f, acc, items, outs.last()),
    decreases items.len(),
{
    let (a, y, m) = choose|a: K, y: K, m: K|
        #![trigger call_ensures(f, (&a, &y), m)]
        crate::k::kview(a) == acc && crate::k::kview(y) == items[0] && call_ensures(f, (&a, &y), m)
            && crate::k::kview(m) == outs[0] && scan_result(
            f,
            crate::k::kview(m),
            items.drop_first(),
            outs.drop_first(),
        );
    if items.len() == 1 {
        assert(outs.drop_first().len() == 0);
        assert(fold_result(f, crate::k::kview(m), items.drop_first(), outs.last()));
    } else {
        lemma_scan_last_is_over(f, crate::k::kview(m), items.drop_first(), outs.drop_first());
        assert(outs.drop_first().last() == outs.last());
    }
}

/// `f` adds: every result it can give is the sum of its operands.
pub open spec fn adds<F: Fn(&K, &K) -> K>(f: F) -> bool {
    forall|a: K, y: K, m: K|
        #![trigger call_ensures(f, (&a, &y), m)]
        call_ensures(f, (&a, &y), m) ==> crate::k::kview(m) == dyad(
            ScalarOp::Plus,
            crate::k::kview(a),
            crate::k::kview(y),
        )
}

/// The verb `plus` adds.
pub proof fn lemma_plus_adds()
    ensures
        adds(plus),
{
}

/// Over with an adding function sums integers: folding it from the atom
/// `acc` over atoms gives the atom of `acc` plus their sum, when no
/// running sum overflows.
pub proof fn lemma_over_plus_sums<F: Fn(&K, &K) -> K>(f: F, acc: i64, s: Seq<i64>, r: KV)
    requires
        adds(f),
        fold_result(f, KV::Atom(acc), s.map_values(|v: i64| KV::Atom(v)), r),
        forall|k: int| 0 <= k <= s.len() ==> i64::MIN <= acc + #[trigger] int_sum(s, k) <= i64::MAX,
    ensures
        r == KV::Atom((acc + int_sum(s, s.len() as int)) as i64),
    decreases s.len(),
{
    let items = s.map_values(|v: i64| KV::Atom(v));
    if s.len() > 0 {
        let (a, y, m) = choose|a: K, y: K, m: K|
            #![trigger call_ensures(f, (&a, &y), m)]
            crate::k::kview(a) == KV::Atom(acc) && crate::k::kview(y) == items[0] && call_ensures(
                f,
                (&a, &y),
                m,
            ) && fold_result(f, crate::k::kview(m), items.drop_first(), r);
        assert(crate::k::kview(m) == dyad(ScalarOp::Plus, crate::k::kview(a), crate::k::kview(y)));
        assert(int_sum(s, 1) == s[0]) by {
            assert(int_sum(s, 0) == 0);
        }
        assert(i64::MIN <= acc + int_sum(s, 1) <= i64::MAX);
        let z = zip_with(ScalarOp::Plus, seq![acc], seq![s[0]]);
        let acc2 = (acc + s[0]) as i64;
        assert(z[0] == acc2);
        assert(crate::k::kview(m) == KV::Atom(acc2));
        let rest = s.drop_first();
        assert(items.drop_first() =~= rest.map_values(|v: i64| KV::Atom(v)));
        assert forall|k: int| 0 <= k <= rest.len() implies i64::MIN <= acc2 + #[trigger] int_sum(rest, k)
            <= i64::MAX by {
            lemma_sum_shift(s, k);
            assert(i64::MIN <= acc + int_sum(s, k + 1) <= i64::MAX);
        }
        lemma_over_plus_sums(f, acc2, rest, r);
        lemma_sum_shift(s, rest.len() as int);
    }
}

proof fn lemma_sum_shift(s: Seq<i64>, k: int)
    requires
        s.len() > 0,
        0 <= k <= s.len() - 1,
    ensures
        int_sum(s, k + 1) == s[0] + int_sum(s.drop_first(), k),
    decreases k,
{
    assert(int_sum(s.drop_first(), 0) == 0);
    assert(int_sum(s, 0) == 0);
    if k == 0 {
        assert(int_sum(s, 1) == int_sum(s, 0) + s[0]);
    }
    if k > 0 {
        lemma_sum_shift(s, k - 1);
        assert(s.drop_first()[k - 1] == s[k]);
        assert(int_sum(s, k + 1) == int_sum(s, k) + s[k]);
        assert(int_sum(s.drop_first(), k) == int_sum(s.drop_first(), k - 1) + s.drop_first()[k - 1]);
    }
}

/// Grade up sorts a vector: the elements at the graded positions are in
/// ascending order (descending for grade down).
pub proof fn lemma_grade_sorts(s: Seq<i64>, desc: bool, r: Seq<i64>)
    requires
        is_index_permutation(r, s.len() as int),
        grade_sorted(s.map_values(|v: i64| KV::Atom(v)), desc, r),
    ensures
        forall|k: int, l: int|
            0 <= k < l < r.len() ==> if desc {
                s[#[trigger] r[k] as int] >= s[#[trigger] r[l] as int]
            } else {
                s[r[k] as int] <= s[r[l] as int]
            },
{
    let keys = s.map_values(|v: i64| KV::Atom(v));
    assert forall|k: int, l: int| 0 <= k < l < r.len() implies if desc {
        s[#[trigger] r[k] as int] >= s[#[trigger] r[l] as int]
    } else {
        s[r[k] as int] <= s[r[l] as int]
    } by {
        let p = r[k] as int;
        let q = r[l] as int;
        assert(ord_before(keys, desc, p, q));
        reveal(pos_order);
        lemma_atom_order(s[p], s[q]);
        lemma_atom_order(s[q], s[p]);
    }
}

/// Grading is stable: equal elements keep the order of their positions,
/// ascending or descending alike.
pub proof fn lemma_grade_stable(s: Seq<i64>, desc: bool, r: Seq<i64>)
    requires
        is_index_permutation(r, s.len() as int),
        grade_sorted(s.map_values(|v: i64| KV::Atom(v)), desc, r),
    ensures
        forall|k: int, l: int|
            0 <= k < l < r.len() && s[#[trigger] r[k] as int] == s[#[trigger] r[l] as int] ==> r[k] < r[l],
{
    let keys = s.map_values(|v: i64| KV::Atom(v));
    assert forall|k: int, l: int|
        0 <= k < l < r.len() && s[#[trigger] r[k] as int] == s[#[trigger] r[l] as int] implies r[k] < r[l] by {
        let p = r[k] as int;
        let q = r[l] as int;
        assert(ord_before(keys, desc, p, q));
        reveal(pos_order);
        lemma_atom_order(s[p], s[q]);
        lemma_atom_order(s[q], s[p]);
    }
}


/// The bitfields of ones and zeros, all of length `m`.
pub open spec fn bitfields(ks: Seq<KV>, m: int) -> bool {
    forall|j: int|
        0 <= j < ks.len() ==> {
            &&& (#[trigger] ks[j]) is Vector
            &&& ks[j].ints().len() == m
            &&& forall|i: int| 0 <= i < m ==> ks[j].ints()[i] == 0 || ks[j].ints()[i] == 1
        }
}

proof fn lemma_gather_counts(ks: Seq<KV>, m: int)
    requires
        0 <= m,
        bitfields(ks, m),
        ks.len() <= i64::MAX,
    ensures
        sum_all_ok(ks),
        ks.len() > 0 ==> sum_all(ks) == KV::Vector(Seq::new(m as nat, |i: int| peers_having(ks, i) as i64)),
        forall|i: int| 0 <= i < m ==> 0 <= #[trigger] peers_having(ks, i) <= ks.len(),
    decreases ks.len(),
{
    if ks.len() == 0 {
        return;
    }
    let init = ks.drop_last();
    assert(bitfields(init, m)) by {
        assert forall|j: int| 0 <= j < init.len() implies {
            &&& (#[trigger] init[j]) is Vector
            &&& init[j].ints().len() == m
            &&& forall|i: int| 0 <= i < m ==> init[j].ints()[i] == 0 || init[j].ints()[i] == 1
        } by {
            assert(init[j] == ks[j]);
        }
    }
    lemma_gather_counts(init, m);
    let b = ks.last();
    assert(b == ks[ks.len() - 1]);
    let counts = Seq::new(m as nat, |i: int| peers_having(ks, i) as i64);
    assert forall|i: int| 0 <= i < m implies 0 <= #[trigger] peers_having(ks, i) <= ks.len() by {
        assert(peers_having(ks, i) == peers_having(init, i) + if i < b.ints().len() && b.ints()[i] > 0 {
            1int
        } else {
            0int
        });
        assert(0 <= peers_having(init, i) <= init.len());
    }
    if ks.len() == 1 {
        assert(init.len() == 0);
        assert forall|i: int| 0 <= i < m implies #[trigger] counts[i] == b.ints()[i] by {
            assert(peers_having(init, i) == 0);
        }
        assert(b.ints() =~= counts);
        assert(sum_all(ks) == ks[0]);
    } else {
        let c = Seq::new(m as nat, |i: int| peers_having(init, i) as i64);
        assert(sum_all(init) == KV::Vector(c));
        assert(b is Vector);
        let bv = b.ints();
        assert forall|i: int| #![trigger bcast(c, i)] 0 <= i < zip_len(c, bv) implies op_defined(
            ScalarOp::Plus,
            bcast(c, i) as int,
            bcast(bv, i) as int,
        ) by {
            assert(bcast(c, i) == c[i]);
            assert(bcast(bv, i) == bv[i]);
            assert(0 <= peers_having(init, i) <= init.len());
        }
        assert(zip_defined(ScalarOp::Plus, c, bv));
        assert(dyad_ok(ScalarOp::Plus, KV::Vector(c), b));
        assert(sum_all_ok(ks));
        assert forall|i: int| 0 <= i < m implies #[trigger] zip_with(ScalarOp::Plus, c, bv)[i] == counts[i] by {
            assert(bcast(c, i) == c[i]);
            assert(bcast(bv, i) == bv[i]);
            assert(0 <= peers_having(init, i) <= init.len());
            assert(peers_having(ks, i) == peers_having(init, i) + if i < bv.len() && bv[i] > 0 {
                1int
            } else {
                0int
            });
        }
        assert(zip_with(ScalarOp::Plus, c, bv) =~= counts);
        assert(dyad(ScalarOp::Plus, KV::Vector(c), b) == num_result(KV::Vector(c), b, zip_with(ScalarOp::Plus, c, bv)));
    }
}

/// Adding up the seeders' bitfields of ones and zeros, all of one length
/// `m`, is defined, and gives for every piece the number of seeders that
/// have it: the same availability that piece selection computes from the
/// list of bitfields.
pub proof fn lemma_gather_sum_is_availability(ks: Seq<KV>, m: int)
    requires
        0 <= m,
        bitfields(ks, m),
        ks.len() <= i64::MAX,
    ensures
        sum_all_ok(ks),
        availability_of(sum_all(ks), m) == availability_of(KV::List(ks), m),
{
    lemma_gather_counts(ks, m);
    if ks.len() > 0 {
        assert(availability_of(sum_all(ks), m) =~= availability_of(KV::List(ks), m));
    } else {
        assert forall|i: int| 0 <= i < m implies #[trigger] peers_having(ks, i) == 0 by {}
        assert(availability_of(sum_all(ks), m) =~= availability_of(KV::List(ks), m));
    }
}

/// How many times `v` occurs in `s`.
pub open spec fn count_of(s: Seq<i64>, v: i64) -> nat
    decreases s.len(),
{
    if s.len() == 0 {
        0
    } else {
        count_of(s.drop_last(), v) + if s.last() == v {
            1nat
        } else {
            0nat
        }
    }
}

proof fn lemma_count_concat(a: Seq<i64>, b: Seq<i64>, v: i64)
    ensures
        count_of(a + b, v) == count_of(a, v) + count_of(b, v),
    decreases b.len(),
{
    if b.len() == 0 {
        assert(a + b =~= a);
    } else {
        lemma_count_concat(a, b.drop_last(), v);
        assert((a + b).drop_last() =~= a + b.drop_last());
        assert((a + b).last() == b.last());
    }
}

proof fn lemma_count_repeat(n: nat, x: i64, v: i64)
    ensures
        count_of(Seq::new(n, |j: int| x), v) == if x == v {
            n
        } else {
            0
        },
    decreases n,
{
    if n > 0 {
        lemma_count_repeat((n - 1) as nat, x, v);
        assert(Seq::new(n, |j: int| x).drop_last() =~= Seq::new((n - 1) as nat, |j: int| x));
    }
}

proof fn lemma_where_range(s: Seq<i64>)
    requires
        s.len() <= i64::MAX,
    ensures
        forall|k: int| 0 <= k < where_of(s).len() ==> 0 <= #[trigger] where_of(s)[k] < s.len(),
        forall|k: int, l: int|
            0 <= k < l < where_of(s).len() ==> #[trigger] where_of(s)[k] <= #[trigger] where_of(s)[l],
    decreases s.len(),
{
    if s.len() > 0 {
        let init = s.drop_last();
        lemma_where_range(init);
        let w = where_of(init);
        let c = s.last();
        let rep = Seq::new(if c > 0 { c as nat } else { 0 }, |j: int| (s.len() - 1) as i64);
        assert(where_of(s) == w + rep);
        assert forall|k: int| 0 <= k < where_of(s).len() implies 0 <= #[trigger] where_of(s)[k] < s.len() by {
            if k < w.len() {
                assert(where_of(s)[k] == w[k]);
            } else {
                assert(where_of(s)[k] == rep[k - w.len()]);
            }
        }
        assert forall|k: int, l: int| 0 <= k < l < where_of(s).len() implies #[trigger] where_of(s)[k]
            <= #[trigger] where_of(s)[l] by {
            if l < w.len() {
                assert(where_of(s)[k] == w[k] && where_of(s)[l] == w[l]);
            } else if k < w.len() {
                assert(where_of(s)[k] == w[k]);
                assert(where_of(s)[l] == rep[l - w.len()]);
            } else {
                assert(where_of(s)[k] == rep[k - w.len()]);
                assert(where_of(s)[l] == rep[l - w.len()]);
            }
        }
    }
}

/// Where: `where x` lists each position `i` of `x` exactly `x[i]` times
/// (no times for a count that is not positive), no other value, and in
/// ascending order.
pub proof fn lemma_where_counts(s: Seq<i64>, v: i64)
    requires
        s.len() <= i64::MAX,
    ensures
        count_of(where_of(s), v) == if 0 <= v < s.len() && s[v as int] > 0 {
            s[v as int] as nat
        } else {
            0
        },
        forall|k: int, l: int|
            0 <= k < l < where_of(s).len() ==> #[trigger] where_of(s)[k] <= #[trigger] where_of(s)[l],
    decreases s.len(),
{
    lemma_where_range(s);
    if s.len() > 0 {
        let init = s.drop_last();
        lemma_where_counts(init, v);
        let c = s.last();
        let n: nat = if c > 0 { c as nat } else { 0 };
        let rep = Seq::new(n, |j: int| (s.len() - 1) as i64);
        assert(where_of(s) == where_of(init) + rep);
        lemma_count_concat(where_of(init), rep, v);
        lemma_count_repeat(n, (s.len() - 1) as i64, v);
        if 0 <= v < init.len() {
            assert(init[v as int] == s[v as int]);
        }
    }
}

proof fn lemma_dot_prefix(a: Seq<i64>, b: Seq<i64>, k: int)
    requires
        dot_defined(a, b),
        0 <= k <= zip_len(a, b),
    ensures
        dot_sum(a, b, k) == int_sum(zip_with(ScalarOp::Times, a, b), k),
    decreases k,
{
    if k > 0 {
        lemma_dot_prefix(a, b, k - 1);
        assert(i64::MIN <= bcast(a, k - 1) * bcast(b, k - 1) <= i64::MAX);
        assert(zip_with(ScalarOp::Times, a, b)[k - 1] == bcast(a, k - 1) * bcast(b, k - 1));
    }
}

/// The dot product is the sum of the element-wise product: where the dot
/// product of two integer sides is defined, so is their product, and the
/// dot product equals the sum of the product's elements.
pub proof fn lemma_dot_is_sum_of_times(a: Seq<i64>, b: Seq<i64>)
    requires
        dot_defined(a, b),
    ensures
        zip_defined(ScalarOp::Times, a, b),
        dot_sum(a, b, zip_len(a, b)) == int_sum(zip_with(ScalarOp::Times, a, b), zip_len(a, b)),
{
    assert forall|i: int| #![trigger bcast(a, i)] 0 <= i < zip_len(a, b) implies op_defined(
        ScalarOp::Times,
        bcast(a, i) as int,
        bcast(b, i) as int,
    ) by {
        assert(i64::MIN <= bcast(a, i) * bcast(b, i) <= i64::MAX);
    }
    lemma_dot_prefix(a, b, zip_len(a, b));
}

/// The running value of folding `op` from `acc` over the first `k`
/// integers of `s`.
pub open spec fn op_fold(op: ScalarOp, acc: int, s: Seq<i64>, k: int) -> int
    decreases k,
{
    if k <= 0 {
        acc
    } else {
        op_value(op, op_fold(op, acc, s, k - 1), s[k - 1] as int)
    }
}

/// No running value of the fold leaves the `i64` range.
pub open spec fn op_fold_fits(op: ScalarOp, acc: i64, s: Seq<i64>) -> bool {
    forall|k: int| 0 <= k <= s.len() ==> i64::MIN <= #[trigger] op_fold(op, acc as int, s, k) <= i64::MAX
}

/// `f` computes `op`: it accepts every pair of well-formed values on which
/// `op` is defined, and every result it gives is well formed and is `op`
/// of its operands.
pub open spec fn computes<F: Fn(&K, &K) -> K>(f: F, op: ScalarOp) -> bool {
    &&& forall|a: K, y: K|
        #![trigger call_requires(f, (&a, &y))]
        crate::k::kwf(a) && crate::k::kwf(y) && dyad_ok(op, crate::k::kview(a), crate::k::kview(y)) ==> call_requires(
            f,
            (&a, &y),
        )
    &&& forall|a: K, y: K, m: K|
        #![trigger call_ensures(f, (&a, &y), m)]
        call_ensures(f, (&a, &y), m) ==> crate::k::kwf(m) && crate::k::kview(m) == dyad(
            op,
            crate::k::kview(a),
            crate::k::kview(y),
        )
}

/// `plus` computes addition and `times` multiplication.
pub proof fn lemma_plus_times_compute()
    ensures
        computes(plus, ScalarOp::Plus),
        computes(times, ScalarOp::Times),
{
}

proof fn lemma_op_fold_shift(op: ScalarOp, acc: int, s: Seq<i64>, k: int)
    requires
        s.len() > 0,
        0 <= k <= s.len() - 1,
    ensures
        op_fold(op, acc, s, k + 1) == op_fold(op, op_value(op, acc, s[0] as int), s.drop_first(), k),
    decreases k,
{
    assert(op_fold(op, acc, s, 0) == acc);
    assert(op_fold(op, op_value(op, acc, s[0] as int), s.drop_first(), 0) == op_value(op, acc, s[0] as int));
    if k > 0 {
        lemma_op_fold_shift(op, acc, s, k - 1);
        assert(s.drop_first()[k - 1] == s[k]);
    }
}

proof fn lemma_atom_step(op: ScalarOp, x: i64, y: i64)
    requires
        op_defined(op, x as int, y as int),
    ensures
        dyad_ok(op, KV::Atom(x), KV::Atom(y)),
        dyad(op, KV::Atom(x), KV::Atom(y)) == KV::Atom(op_value(op, x as int, y as int) as i64),
{
    let a = KV::Atom(x).ints();
    let b = KV::Atom(y).ints();
    assert(bcast(a, 0) == x && bcast(b, 0) == y);
    assert(zip_defined(op, a, b));
    assert(zip_with(op, a, b)[0] == op_value(op, x as int, y as int) as i64);
}

/// Folding a function that computes `op` over integer atoms, from an
/// integer atom, is defined when no running value overflows, and gives the
/// atom of the running value at the end.
pub proof fn lemma_fold_computes<F: Fn(&K, &K) -> K>(f: F, op: ScalarOp, acc: i64, s: Seq<i64>, r: KV)
    requires
        computes(f, op),
        op_fold_fits(op, acc, s),
    ensures
        fold_ok(f, KV::Atom(acc), s.map_values(|v: i64| KV::Atom(v))),
        fold_result(f, KV::Atom(acc), s.map_values(|v: i64| KV::Atom(v)), r) ==> r == KV::Atom(
            op_fold(op, acc as int, s, s.len() as int) as i64,
        ),
    decreases s.len(),
{
    let items = s.map_values(|v: i64| KV::Atom(v));
    if s.len() > 0 {
        assert(op_fold(op, acc as int, s, 0) == acc);
        assert(op_fold(op, acc as int, s, 1) == op_value(op, acc as int, s[0] as int));
        assert(i64::MIN <= op_fold(op, acc as int, s, 1) <= i64::MAX);
        let acc2 = op_value(op, acc as int, s[0] as int) as i64;
        let rest = s.drop_first();
        assert(items.drop_first() =~= rest.map_values(|v: i64| KV::Atom(v)));
        assert forall|k: int| 0 <= k <= rest.len() implies i64::MIN <= #[trigger] op_fold(op, acc2 as int, rest, k)
            <= i64::MAX by {
            lemma_op_fold_shift(op, acc as int, s, k);
            assert(i64::MIN <= op_fold(op, acc as int, s, k + 1) <= i64::MAX);
        }
        lemma_fold_computes(f, op, acc2, rest, r);
        lemma_op_fold_shift(op, acc as int, s, rest.len() as int);
        lemma_atom_step(op, acc, s[0]);
        assert(items[0] == KV::Atom(s[0]));
        assert forall|a: K, y: K|
            #![trigger call_requires(f, (&a, &y))]
            crate::k::kwf(a) && crate::k::kwf(y) && crate::k::kview(a) == KV::Atom(acc) && crate::k::kview(y) == items[0] implies {
            &&& call_requires(f, (&a, &y))
            &&& forall|m: K|
                #![trigger call_ensures(f, (&a, &y), m)]
                call_ensures(f, (&a, &y), m) ==> crate::k::kwf(m) && fold_ok(f, crate::k::kview(m), items.drop_first())
        } by {
            assert forall|m: K| #[trigger] call_ensures(f, (&a, &y), m) implies crate::k::kwf(m) && fold_ok(
                f,
                crate::k::kview(m),
                items.drop_first(),
            ) by {
                assert(crate::k::kview(m) == KV::Atom(acc2));
            }
        }
        assert(fold_ok(f, KV::Atom(acc), items));
        if fold_result(f, KV::Atom(acc), items, r) {
            let (a, y, m) = choose|a: K, y: K, m: K|
                #![trigger call_ensures(f, (&a, &y), m)]
                crate::k::kview(a) == KV::Atom(acc) && crate::k::kview(y) == items[0] && call_ensures(f, (&a, &y), m)
                    && fold_result(f, crate::k::kview(m), items.drop_first(), r);
            assert(crate::k::kview(m) == KV::Atom(acc2));
        }
    }
}

/// Over with `plus` from an integer atom over integers is defined when no
/// running sum overflows, and gives the sum.
pub proof fn lemma_over_plus_defined(acc: i64, s: Seq<i64>, r: KV)
    requires
        op_fold_fits(ScalarOp::Plus, acc, s),
    ensures
        fold_ok(plus, KV::Atom(acc), s.map_values(|v: i64| KV::Atom(v))),
        fold_result(plus, KV::Atom(acc), s.map_values(|v: i64| KV::Atom(v)), r) ==> r == KV::Atom(
            op_fold(ScalarOp::Plus, acc as int, s, s.len() as int) as i64,
        ),
{
    lemma_plus_times_compute();
    lemma_fold_computes(plus, ScalarOp::Plus, acc, s, r);
}

/// Over with `times` from an integer atom over integers is defined when no
/// running product overflows, and gives the product.
pub proof fn lemma_over_times_defined(acc: i64, s: Seq<i64>, r: KV)
    requires
        op_fold_fits(ScalarOp::Times, acc, s),
    ensures
        fold_ok(times, KV::Atom(acc), s.map_values(|v: i64| KV::Atom(v))),
        fold_result(times, KV::Atom(acc), s.map_values(|v: i64| KV::Atom(v)), r) ==> r == KV::Atom(
            op_fold(ScalarOp::Times, acc as int, s, s.len() as int) as i64,
        ),
{
    lemma_plus_times_compute();
    lemma_fold_computes(times, ScalarOp::Times, acc, s, r);
}

/// Each with `negate` is defined on integers none of which is the least
/// `i64`.
pub proof fn lemma_each_negate_defined(s: Seq<i64>)
    requires
        forall|i: int| 0 <= i < s.len() ==> #[trigger] s[i] != i64::MIN,
    ensures
        each_ok(negate, s.map_values(|v: i64| KV::Atom(v))),
{
    let items = s.map_values(|v: i64| KV::Atom(v));
    assert forall|i: int, y: K|
        #![trigger items[i], call_requires(negate, (&y,))]
        0 <= i < items.len() && crate::k::kwf(y) && crate::k::kview(y) == items[i] implies call_requires(negate, (&y,)) by {
        assert(op_defined(ScalarOp::Minus, 0, s[i] as int));
        lemma_atom_step(ScalarOp::Minus, 0, s[i]);
    }
}

proof fn lemma_op_fold_plus(acc: int, s: Seq<i64>, k: int)
    requires
        0 <= k <= s.len(),
    ensures
        op_fold(ScalarOp::Plus, acc, s, k) == acc + int_sum(s, k),
    decreases k,
{
    if k > 0 {
        lemma_op_fold_plus(acc, s, k - 1);
    }
}

/// The dot product of two integer vectors is `+/` of their product: where
/// the dot product is defined, the product is defined and is the vector of
/// products, over with `plus` from its first element is defined, and every
/// result of that fold is the dot product.
pub proof fn lemma_dot_is_over_plus_of_times(a: Seq<i64>, b: Seq<i64>, r: KV)
    requires
        dot_defined(a, b),
        zip_len(a, b) > 0,
    ensures
        dyad_ok(ScalarOp::Times, KV::Vector(a), KV::Vector(b)),
        dyad(ScalarOp::Times, KV::Vector(a), KV::Vector(b)) == KV::Vector(zip_with(ScalarOp::Times, a, b)),
        over_ok(plus, None, KV::Vector(zip_with(ScalarOp::Times, a, b))),
        over_result(plus, None, KV::Vector(zip_with(ScalarOp::Times, a, b)), r) ==> r == KV::Atom(
            dot_sum(a, b, zip_len(a, b)) as i64,
        ),
{
    let z = zip_with(ScalarOp::Times, a, b);
    let n = zip_len(a, b);
    lemma_dot_is_sum_of_times(a, b);
    assert(shapes_ok(KV::Vector(a), KV::Vector(b)));
    assert(dyad_ok(ScalarOp::Times, KV::Vector(a), KV::Vector(b)));
    let items = walk_items(KV::Vector(z));
    let rest = z.drop_first();
    assert(items.drop_first() =~= rest.map_values(|v: i64| KV::Atom(v)));
    assert(items[0] == KV::Atom(z[0]));
    assert forall|k: int| 0 <= k <= rest.len() implies i64::MIN <= #[trigger] op_fold(ScalarOp::Plus, z[0] as int, rest, k)
        <= i64::MAX by {
        lemma_op_fold_plus(z[0] as int, rest, k);
        lemma_dot_prefix(a, b, k + 1);
        lemma_sum_shift(z, k);
    }
    lemma_over_plus_defined(z[0], rest, r);
    lemma_op_fold_plus(z[0] as int, rest, rest.len() as int);
    lemma_sum_shift(z, rest.len() as int);
    lemma_dot_prefix(a, b, n);
}

/// `f` gives equal results on arguments with equal models.
pub open spec fn deterministic<F: Fn(&K, &K) -> K>(f: F) -> bool {
    forall|a1: K, y1: K, m1: K, a2: K, y2: K, m2: K|
        #![trigger call_ensures(f, (&a1, &y1), m1), call_ensures(f, (&a2, &y2), m2)]
        crate::k::kview(a1) == crate::k::kview(a2) && crate::k::kview(y1) == crate::k::kview(y2) && call_ensures(
            f,
            (&a1, &y1),
            m1,
        ) && call_ensures(f, (&a2, &y2), m2) ==> crate::k::kview(m1) == crate::k::kview(m2)
}

/// A function that computes an operation is deterministic.
pub proof fn lemma_computes_deterministic<F: Fn(&K, &K) -> K>(f: F, op: ScalarOp)
    requires
        computes(f, op),
    ensures
        deterministic(f),
{
}

proof fn lemma_fold_unique<F: Fn(&K, &K) -> K>(f: F, acc: KV, items: Seq<KV>, r1: KV, r2: KV)
    requires
        deterministic(f),
        fold_result(f, acc, items, r1),
        fold_result(f, acc, items, r2),
    ensures
        r1 == r2,
    decreases items.len(),
{
    if items.len() > 0 {
        let (a1, y1, m1) = choose|a: K, y: K, m: K|
            #![trigger call_ensures(f, (&a, &y), m)]
            crate::k::kview(a) == acc && crate::k::kview(y) == items[0] && call_ensures(f, (&a, &y), m)
                && fold_result(f, crate::k::kview(m), items.drop_first(), r1);
        let (a2, y2, m2) = choose|a: K, y: K, m: K|
            #![trigger call_ensures(f, (&a, &y), m)]
            crate::k::kview(a) == acc && crate::k::kview(y) == items[0] && call_ensures(f, (&a, &y), m)
                && fold_result(f, crate::k::kview(m), items.drop_first(), r2);
        assert(crate::k::kview(m1) == crate::k::kview(m2));
        lemma_fold_unique(f, crate::k::kview(m1), items.drop_first(), r1, r2);
    }
}

/// Scan ends with over: for a deterministic `f` and a vector or list of
/// `L >= 1` elements, scan gives `L` results and the last of them is the
/// result of over (from `init`, or from the first element).
pub proof fn lemma_scan_ends_with_over<F: Fn(&K, &K) -> K>(f: F, init: Option<KV>, x: KV, sc: KV, o: KV)
    requires
        deterministic(f),
        !(x is Atom),
        walk_items(x).len() > 0,
        scan_outcome(f, init, x, sc),
        over_result(f, init, x, o),
    ensures
        walk_items(sc).len() == walk_items(x).len(),
        walk_items(sc).last() == o,
{
    let items = walk_items(x);
    match init {
        Some(y) => {
            let outs = choose|outs: Seq<KV>| scan_result(f, y, items, outs) && sc == simplified(outs);
            lemma_scan_last_is_over(f, y, items, outs);
            lemma_fold_unique(f, y, items, outs.last(), o);
            lemma_walk_simplified(outs);
        },
        None => {
            let outs = choose|outs: Seq<KV>|
                scan_result(f, items[0], items.drop_first(), outs) && sc == simplified(seq![items[0]] + outs);
            let all = seq![items[0]] + outs;
            lemma_walk_simplified(all);
            if items.len() == 1 {
                assert(outs.len() == 0);
                assert(fold_result(f, items[0], items.drop_first(), items[0]));
                lemma_fold_unique(f, items[0], items.drop_first(), items[0], o);
            } else {
                lemma_scan_last_is_over(f, items[0], items.drop_first(), outs);
                lemma_fold_unique(f, items[0], items.drop_first(), outs.last(), o);
            }
            assert(all.last() == if items.len() == 1 { items[0] } else { outs.last() });
        },
    }
}

proof fn lemma_walk_simplified(outs: Seq<KV>)
    ensures
        walk_items(simplified(outs)) == outs,
{
    if outs.len() > 0 && forall|i: int| 0 <= i < outs.len() ==> (#[trigger] outs[i]) is Atom {
        let v = outs.map_values(|w: KV| w->Atom_0);
        assert forall|i: int| 0 <= i < outs.len() implies walk_items(KV::Vector(v))[i] == outs[i] by {
            assert(outs[i] is Atom);
        }
        assert(walk_items(KV::Vector(v)) =~= outs);
    }
}

} // verus!
