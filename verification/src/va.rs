//! Dyadic scalar verbs: addition, subtraction, multiplication, comparison,
//! the dot product and matching, with K's rules of scalar extension.

use vstd::prelude::*;
use crate::k::{K, KData, KV, kview, kwf, views, all_wf};
use crate::rounding::{nearest_double, nearest_double_of, double_to_i64, double_round_trip};
use crate::parallel::binary_i64;

pub use crate::shape::{first, reverse, take, transpose, flip, gather};
pub use crate::search::{find, find_all, kona_where, unique};
pub use crate::grade::{grade_up, grade_down};
pub use crate::adverb::{over, scan, each};
pub use crate::ffi::{_2m, _2d};

verus! {

/// The element-wise operations of the dyadic scalar verbs.
#[derive(Clone, Copy, Debug)]
pub enum ScalarOp {
    Plus,
    Minus,
    Times,
    Equal,
    Less,
    More,
}

/// The value of one element-wise operation. Comparisons compare the two
/// integers as doubles and give 1 or 0.
pub open spec fn op_value(op: ScalarOp, x: int, y: int) -> int {
    match op {
        ScalarOp::Plus => x + y,
        ScalarOp::Minus => x - y,
        ScalarOp::Times => x * y,
        ScalarOp::Equal => if nearest_double(x) == nearest_double(y) {
            1
        } else {
            0
        },
        ScalarOp::Less => if nearest_double(x) < nearest_double(y) {
            1
        } else {
            0
        },
        ScalarOp::More => if nearest_double(x) > nearest_double(y) {
            1
        } else {
            0
        },
    }
}

/// The operation does not overflow.
pub open spec fn op_defined(op: ScalarOp, x: int, y: int) -> bool {
    i64::MIN <= op_value(op, x, y) <= i64::MAX
}

/// One element-wise operation.
pub fn apply_op(op: ScalarOp, x: i64, y: i64) -> (r: i64)
    requires
        op_defined(op, x as int, y as int),
    ensures
        r == op_value(op, x as int, y as int),
{
    match op {
        ScalarOp::Plus => x + y,
        ScalarOp::Minus => x - y,
        ScalarOp::Times => x * y,
        ScalarOp::Equal => {
            if nearest_double_of(x) == nearest_double_of(y) {
                1
            } else {
                0
            }
        },
        ScalarOp::Less => {
            if nearest_double_of(x) < nearest_double_of(y) {
                1
            } else {
                0
            }
        },
        ScalarOp::More => {
            if nearest_double_of(x) > nearest_double_of(y) {
                1
            } else {
                0
            }
        },
    }
}

/// Element `i` of a side under scalar extension.
pub open spec fn bcast(s: Seq<i64>, i: int) -> i64 {
    if s.len() == 1 {
        s[0]
    } else {
        s[i]
    }
}

/// The length of the combination of two integer sides.
pub open spec fn zip_len(a: Seq<i64>, b: Seq<i64>) -> int {
    if a.len() >= b.len() {
        a.len() as int
    } else {
        b.len() as int
    }
}

/// Two integer sides can be combined: equal lengths, or a side of length
/// one against a nonempty side.
pub open spec fn zip_ok(a: Seq<i64>, b: Seq<i64>) -> bool {
    ||| a.len() == b.len()
    ||| (a.len() == 1 && b.len() >= 1)
    ||| (b.len() == 1 && a.len() >= 1)
}

/// Two integer sides can be combined and no element overflows.
pub open spec fn zip_defined(op: ScalarOp, a: Seq<i64>, b: Seq<i64>) -> bool {
    &&& zip_ok(a, b)
    &&& forall|i: int|
        #![trigger bcast(a, i)]
        0 <= i < zip_len(a, b) ==> op_defined(op, bcast(a, i) as int, bcast(b, i) as int)
}

/// The element-wise combination of two integer sides.
pub open spec fn zip_with(op: ScalarOp, a: Seq<i64>, b: Seq<i64>) -> Seq<i64> {
    Seq::new(zip_len(a, b) as nat, |i: int| op_value(op, bcast(a, i) as int, bcast(b, i) as int) as i64)
}

/// The length checks that every dyadic scalar verb makes at each level.
pub open spec fn shapes_ok(a: KV, b: KV) -> bool {
    &&& !(a.is_list() && b.is_list() && a.len() != b.len())
    &&& (a.len() == b.len() || a.len() == 1 || b.len() == 1)
}

/// A dyadic scalar verb is defined on `a` and `b`: the lengths agree at
/// every level and no element overflows.
pub open spec fn dyad_ok(op: ScalarOp, a: KV, b: KV) -> bool
    decreases a, b,
{
    &&& shapes_ok(a, b)
    &&& match a {
        KV::List(la) => match b {
            KV::List(lb) => forall|i: int| 0 <= i < la.len() ==> dyad_ok(op, #[trigger] la[i], lb[i]),
            _ => forall|i: int| 0 <= i < la.len() ==> dyad_ok(op, #[trigger] la[i], b),
        },
        _ => match b {
            KV::List(lb) => forall|i: int| 0 <= i < lb.len() ==> dyad_ok(op, a, #[trigger] lb[i]),
            _ => zip_defined(op, a.ints(), b.ints()),
        },
    }
}

/// The integer result of a dyadic scalar verb on two integer sides: an atom
/// when both sides are atoms, a vector otherwise.
pub open spec fn num_result(a: KV, b: KV, z: Seq<i64>) -> KV {
    if a is Atom && b is Atom {
        KV::Atom(z[0])
    } else {
        KV::Vector(z)
    }
}

/// The result of a dyadic scalar verb. A list against a non-list maps over
/// the list's items with the whole other side; two lists pair their items.
pub open spec fn dyad(op: ScalarOp, a: KV, b: KV) -> KV
    decreases a, b,
{
    match a {
        KV::List(la) => match b {
            KV::List(lb) => KV::List(
                Seq::new(
                    la.len(),
                    |i: int|
                        if 0 <= i < la.len() {
                            dyad(op, la[i], lb[i])
                        } else {
                            KV::Atom(0)
                        },
                ),
            ),
            _ => KV::List(
                Seq::new(
                    la.len(),
                    |i: int|
                        if 0 <= i < la.len() {
                            dyad(op, la[i], b)
                        } else {
                            KV::Atom(0)
                        },
                ),
            ),
        },
        _ => match b {
            KV::List(lb) => KV::List(
                Seq::new(
                    lb.len(),
                    |i: int|
                        if 0 <= i < lb.len() {
                            dyad(op, a, lb[i])
                        } else {
                            KV::Atom(0)
                        },
                ),
            ),
            _ => num_result(a, b, zip_with(op, a.ints(), b.ints())),
        },
    }
}

/// Type and length bookkeeping of a dyadic scalar verb.
pub struct ScalarInit {
    pub at: i64,
    pub an: i64,
    pub bt: i64,
    pub bn: i64,
    pub zt: i64,
    pub zn: i64,
}

/// Check the lengths of two operands and compute the type code and the
/// length of the result.
pub fn scalar_init(a: &K, b: &K) -> (s: ScalarInit)
    requires
        a.wf(),
        b.wf(),
        shapes_ok(a@, b@),
    ensures
        s.at == a.t,
        s.an == a.n,
        s.bt == b.t,
        s.bn == b.n,
        s.zn == (if a.n >= b.n { a.n } else { b.n }),
        s.zt == (if a.t == 0 || b.t == 0 {
            0
        } else if s.zn <= 1 && a.t < 0 && b.t < 0 {
            -1
        } else {
            1
        }),
{
    proof {
        a.lemma_fields();
        b.lemma_fields();
    }
    let at = a.t;
    let an = a.n;
    let bt = b.t;
    let bn = b.n;
    let abs_at = if at < 0 { -at } else { at };
    let abs_bt = if bt < 0 { -bt } else { bt };
    let typ = if abs_at >= abs_bt { abs_at } else { abs_bt };
    let zn = if an >= bn { an } else { bn };
    let mut zt = typ;
    if zn > 1 {
        zt = typ;
    } else {
        if at < 0 && bt < 0 {
            zt = -typ;
        } else {
            zt = typ;
        }
    }
    if at == 0 || bt == 0 {
        zt = 0;
    }
    ScalarInit { at, an, bt, bn, zt, zn }
}

/// Element-wise combination of two integer sides.
fn scalar_op_i64(a: &[i64], b: &[i64], an: i64, bn: i64, zn: i64, op: ScalarOp) -> (z: Vec<i64>)
    requires
        an == a@.len(),
        bn == b@.len(),
        zn == zip_len(a@, b@),
        zip_defined(op, a@, b@),
    ensures
        z@ == zip_with(op, a@, b@),
{
    binary_i64(a, b, an, bn, zn, op)
}

/// The recursive dispatcher behind every dyadic scalar verb.
fn dyadic_scalar(a: &K, b: &K, op: ScalarOp) -> (r: K)
    requires
        a.wf(),
        b.wf(),
        dyad_ok(op, a@, b@),
    ensures
        r.wf(),
        r@ == dyad(op, a@, b@),
    decreases a, b,
{
    proof {
        a.lemma_fields();
        b.lemma_fields();
    }
    let s = scalar_init(a, b);
    match &a.data {
        KData::Ints(av) => match &b.data {
            KData::Ints(bv) => {
                let z = scalar_op_i64(av.as_slice(), bv.as_slice(), s.an, s.bn, s.zn, op);
                let r = K { t: s.zt, n: s.zn, data: KData::Ints(z) };
                assert(r@ == dyad(op, a@, b@));
                r
            },
            KData::List(lb) => {
                let mut out: Vec<K> = Vec::new();
                let mut i: usize = 0;
                assert(decreases_to!(*b => *lb));
                while i < lb.len()
                    invariant
                        decreases_to!(*b => *lb),
                        i <= lb@.len(),
                        lb@.len() <= i64::MAX,
                        out@.len() == i,
                        a.wf(),
                        !a@.is_list(),
                        all_wf(lb@),
                        all_wf(out@),
                        b@ == KV::List(views(lb@)),
                        dyad_ok(op, a@, b@),
                        forall|j: int|
                            0 <= j < i ==> kview(#[trigger] out@[j]) == dyad(op, a@, kview(lb@[j])),
                    decreases lb@.len() - i,
                {
                    proof {
                        vstd::std_specs::vec::axiom_vec_index_decreases(*lb, i as int);
                        assert(kwf(lb@[i as int]));
                        assert(b@.items()[i as int] == kview(lb@[i as int]));
                    }
                    let item = dyadic_scalar(a, &lb[i], op);
                    out.push(item);
                    i += 1;
                }
                let r = K::from_list(out);
                assert(r@.items() =~= dyad(op, a@, b@).items());
                r
            },
        },
        KData::List(la) => match &b.data {
            KData::Ints(_) => {
                let mut out: Vec<K> = Vec::new();
                let mut i: usize = 0;
                assert(decreases_to!(*a => *la));
                while i < la.len()
                    invariant
                        decreases_to!(*a => *la),
                        i <= la@.len(),
                        la@.len() <= i64::MAX,
                        out@.len() == i,
                        b.wf(),
                        !b@.is_list(),
                        all_wf(la@),
                        all_wf(out@),
                        a@ == KV::List(views(la@)),
                        dyad_ok(op, a@, b@),
                        forall|j: int|
                            0 <= j < i ==> kview(#[trigger] out@[j]) == dyad(op, kview(la@[j]), b@),
                    decreases la@.len() - i,
                {
                    proof {
                        vstd::std_specs::vec::axiom_vec_index_decreases(*la, i as int);
                        assert(kwf(la@[i as int]));
                        assert(a@.items()[i as int] == kview(la@[i as int]));
                    }
                    let item = dyadic_scalar(&la[i], b, op);
                    out.push(item);
                    i += 1;
                }
                let r = K::from_list(out);
                assert(r@.items() =~= dyad(op, a@, b@).items());
                r
            },
            KData::List(lb) => {
                let mut out: Vec<K> = Vec::new();
                let mut i: usize = 0;
                assert(decreases_to!(*a => *la));
                while i < la.len()
                    invariant
                        decreases_to!(*a => *la),
                        i <= la@.len(),
                        la@.len() == lb@.len(),
                        la@.len() <= i64::MAX,
                        out@.len() == i,
                        all_wf(la@),
                        all_wf(lb@),
                        all_wf(out@),
                        a@ == KV::List(views(la@)),
                        b@ == KV::List(views(lb@)),
                        dyad_ok(op, a@, b@),
                        forall|j: int|
                            0 <= j < i ==> kview(#[trigger] out@[j]) == dyad(
                                op,
                                kview(la@[j]),
                                kview(lb@[j]),
                            ),
                    decreases la@.len() - i,
                {
                    proof {
                        vstd::std_specs::vec::axiom_vec_index_decreases(*la, i as int);
                        assert(kwf(la@[i as int]));
                        assert(kwf(lb@[i as int]));
                        assert(a@.items()[i as int] == kview(la@[i as int]));
                        assert(b@.items()[i as int] == kview(lb@[i as int]));
                    }
                    let item = dyadic_scalar(&la[i], &lb[i], op);
                    out.push(item);
                    i += 1;
                }
                let r = K::from_list(out);
                assert(r@.items() =~= dyad(op, a@, b@).items());
                r
            },
        },
    }
}

/// Whether one element-wise operation stays within the `i64` range.
fn op_fits(op: ScalarOp, x: i64, y: i64) -> (r: bool)
    ensures
        r == op_defined(op, x as int, y as int),
{
    match op {
        ScalarOp::Plus => x.checked_add(y).is_some(),
        ScalarOp::Minus => x.checked_sub(y).is_some(),
        ScalarOp::Times => x.checked_mul(y).is_some(),
        _ => true,
    }
}

/// Whether two integer sides can be combined without overflow.
fn zip_fits(op: ScalarOp, a: &[i64], b: &[i64]) -> (r: bool)
    ensures
        r == zip_defined(op, a@, b@),
{
    let la = a.len();
    let lb = b.len();
    if !(la == lb || (la == 1 && lb >= 1) || (lb == 1 && la >= 1)) {
        return false;
    }
    let n = if la >= lb {
        la
    } else {
        lb
    };
    let mut i: usize = 0;
    while i < n
        invariant
            i <= n,
            la == a@.len(),
            lb == b@.len(),
            n == zip_len(a@, b@),
            zip_ok(a@, b@),
            forall|j: int|
                #![trigger bcast(a@, j)]
                0 <= j < i ==> op_defined(op, bcast(a@, j) as int, bcast(b@, j) as int),
        decreases n - i,
    {
        let x = if la == 1 {
            a[0]
        } else {
            a[i]
        };
        let y = if lb == 1 {
            b[0]
        } else {
            b[i]
        };
        assert(x == bcast(a@, i as int) && y == bcast(b@, i as int));
        if !op_fits(op, x, y) {
            return false;
        }
        i += 1;
    }
    true
}

/// Whether a dyadic scalar verb is defined on `a` and `b`.
pub(crate) fn dyad_defined(op: ScalarOp, a: &K, b: &K) -> (r: bool)
    requires
        a.wf(),
        b.wf(),
    ensures
        r == dyad_ok(op, a@, b@),
    decreases a, b,
{
    proof {
        a.lemma_fields();
        b.lemma_fields();
    }
    if a.t == 0 && b.t == 0 && a.n != b.n {
        return false;
    }
    if !(a.n == b.n || a.n == 1 || b.n == 1) {
        return false;
    }
    assert(shapes_ok(a@, b@));
    match &a.data {
        KData::Ints(av) => match &b.data {
            KData::Ints(bv) => zip_fits(op, av.as_slice(), bv.as_slice()),
            KData::List(lb) => {
                let mut i: usize = 0;
                assert(decreases_to!(*b => *lb));
                while i < lb.len()
                    invariant
                        decreases_to!(*b => *lb),
                        i <= lb@.len(),
                        a.wf(),
                        !a@.is_list(),
                        all_wf(lb@),
                        b@ == KV::List(views(lb@)),
                        forall|j: int| 0 <= j < i ==> dyad_ok(op, a@, #[trigger] views(lb@)[j]),
                    decreases lb@.len() - i,
                {
                    proof {
                        vstd::std_specs::vec::axiom_vec_index_decreases(*lb, i as int);
                        assert(kwf(lb@[i as int]));
                        assert(views(lb@)[i as int] == kview(lb@[i as int]));
                    }
                    if !dyad_defined(op, a, &lb[i]) {
                        assert(!dyad_ok(op, a@, b@.items()[i as int]));
                        return false;
                    }
                    i += 1;
                }
                true
            },
        },
        KData::List(la) => match &b.data {
            KData::Ints(_) => {
                let mut i: usize = 0;
                assert(decreases_to!(*a => *la));
                while i < la.len()
                    invariant
                        decreases_to!(*a => *la),
                        i <= la@.len(),
                        b.wf(),
                        !b@.is_list(),
                        all_wf(la@),
                        a@ == KV::List(views(la@)),
                        forall|j: int| 0 <= j < i ==> dyad_ok(op, #[trigger] views(la@)[j], b@),
                    decreases la@.len() - i,
                {
                    proof {
                        vstd::std_specs::vec::axiom_vec_index_decreases(*la, i as int);
                        assert(kwf(la@[i as int]));
                        assert(views(la@)[i as int] == kview(la@[i as int]));
                    }
                    if !dyad_defined(op, &la[i], b) {
                        assert(!dyad_ok(op, a@.items()[i as int], b@));
                        return false;
                    }
                    i += 1;
                }
                true
            },
            KData::List(lb) => {
                let mut i: usize = 0;
                assert(decreases_to!(*a => *la));
                while i < la.len()
                    invariant
                        decreases_to!(*a => *la),
                        i <= la@.len(),
                        la@.len() == lb@.len(),
                        all_wf(la@),
                        all_wf(lb@),
                        a@ == KV::List(views(la@)),
                        b@ == KV::List(views(lb@)),
                        forall|j: int|
                            0 <= j < i ==> dyad_ok(op, #[trigger] views(la@)[j], views(lb@)[j]),
                    decreases la@.len() - i,
                {
                    proof {
                        vstd::std_specs::vec::axiom_vec_index_decreases(*la, i as int);
                        assert(kwf(la@[i as int]));
                        assert(kwf(lb@[i as int]));
                        assert(views(la@)[i as int] == kview(la@[i as int]));
                        assert(views(lb@)[i as int] == kview(lb@[i as int]));
                    }
                    if !dyad_defined(op, &la[i], &lb[i]) {
                        assert(!dyad_ok(op, a@.items()[i as int], b@.items()[i as int]));
                        return false;
                    }
                    i += 1;
                }
                true
            },
        },
    }
}

/// A dyadic scalar verb, with its checks made first: `None` when the
/// lengths disagree at some level or an element overflows, the result
/// otherwise.
pub fn dyad_checked(op: ScalarOp, a: &K, b: &K) -> (r: Option<K>)
    requires
        a.wf(),
        b.wf(),
    ensures
        r is Some <==> dyad_ok(op, a@, b@),
        r matches Some(z) ==> z.wf() && z@ == dyad(op, a@, b@),
{
    if dyad_defined(op, a, b) {
        Some(dyadic_scalar(a, b, op))
    } else {
        None
    }
}

/// Element-wise multiplication (`x * y`).
pub fn times(a: &K, b: &K) -> (r: K)
    requires
        a.wf(),
        b.wf(),
        dyad_ok(ScalarOp::Times, a@, b@),
    ensures
        r.wf(),
        r@ == dyad(ScalarOp::Times, a@, b@),
{
    dyadic_scalar(a, b, ScalarOp::Times)
}

/// Element-wise addition (`x + y`).
pub fn plus(a: &K, b: &K) -> (r: K)
    requires
        a.wf(),
        b.wf(),
        dyad_ok(ScalarOp::Plus, a@, b@),
    ensures
        r.wf(),
        r@ == dyad(ScalarOp::Plus, a@, b@),
{
    dyadic_scalar(a, b, ScalarOp::Plus)
}

/// Element-wise subtraction (`x - y`).
pub fn minus(a: &K, b: &K) -> (r: K)
    requires
        a.wf(),
        b.wf(),
        dyad_ok(ScalarOp::Minus, a@, b@),
    ensures
        r.wf(),
        r@ == dyad(ScalarOp::Minus, a@, b@),
{
    dyadic_scalar(a, b, ScalarOp::Minus)
}

/// Negation: `0 - x`.
pub fn negate(x: &K) -> (r: K)
    requires
        x.wf(),
        dyad_ok(ScalarOp::Minus, KV::Atom(0), x@),
    ensures
        r.wf(),
        r@ == dyad(ScalarOp::Minus, KV::Atom(0), x@),
{
    let zero = K::ki(0);
    minus(&zero, x)
}

/// Element-wise equality, as doubles: 1 where equal, 0 elsewhere.
pub fn equals(a: &K, b: &K) -> (r: K)
    requires
        a.wf(),
        b.wf(),
        dyad_ok(ScalarOp::Equal, a@, b@),
    ensures
        r.wf(),
        r@ == dyad(ScalarOp::Equal, a@, b@),
{
    dyadic_scalar(a, b, ScalarOp::Equal)
}

/// Element-wise `<`, as doubles: 1 where true, 0 elsewhere.
pub fn less(a: &K, b: &K) -> (r: K)
    requires
        a.wf(),
        b.wf(),
        dyad_ok(ScalarOp::Less, a@, b@),
    ensures
        r.wf(),
        r@ == dyad(ScalarOp::Less, a@, b@),
{
    dyadic_scalar(a, b, ScalarOp::Less)
}

/// Element-wise `>`, as doubles: 1 where true, 0 elsewhere.
pub fn more(a: &K, b: &K) -> (r: K)
    requires
        a.wf(),
        b.wf(),
        dyad_ok(ScalarOp::More, a@, b@),
    ensures
        r.wf(),
        r@ == dyad(ScalarOp::More, a@, b@),
{
    dyadic_scalar(a, b, ScalarOp::More)
}

/// `sum of bcast(a, i) * bcast(b, i)` over `i < k`.
pub open spec fn dot_sum(a: Seq<i64>, b: Seq<i64>, k: int) -> int
    decreases k,
{
    if k <= 0 {
        0
    } else {
        dot_sum(a, b, k - 1) + bcast(a, k - 1) * bcast(b, k - 1)
    }
}

/// The dot product of two integer sides is defined: they can be combined,
/// and no product and no running sum overflows.
pub open spec fn dot_defined(a: Seq<i64>, b: Seq<i64>) -> bool {
    &&& zip_ok(a, b)
    &&& forall|i: int|
        #![trigger bcast(a, i)]
        0 <= i < zip_len(a, b) ==> i64::MIN <= bcast(a, i) * bcast(b, i) <= i64::MAX
    &&& forall|k: int| 0 <= k <= zip_len(a, b) ==> i64::MIN <= #[trigger] dot_sum(a, b, k) <= i64::MAX
}

/// The running sum of products over positions `start .. end`.
fn dot_ii_range(ai: &[i64], bi: &[i64], an: i64, bn: i64, start: usize, end: usize) -> (sum: i64)
    requires
        an == ai@.len(),
        bn == bi@.len(),
        dot_defined(ai@, bi@),
        start == 0,
        end <= zip_len(ai@, bi@),
    ensures
        sum == dot_sum(ai@, bi@, end as int),
{
    let mut sum: i64 = 0;
    let mut i: usize = start;
    while i < end
        invariant
            start <= i <= end,
            start == 0,
            end <= zip_len(ai@, bi@),
            an == ai@.len(),
            bn == bi@.len(),
            dot_defined(ai@, bi@),
            sum == dot_sum(ai@, bi@, i as int),
        decreases end - i,
    {
        let x = if an == 1 { ai[0] } else { ai[i] };
        let y = if bn == 1 { bi[0] } else { bi[i] };
        assert(x == bcast(ai@, i as int) && y == bcast(bi@, i as int));
        assert(i64::MIN <= dot_sum(ai@, bi@, (i + 1) as int) <= i64::MAX);
        sum = sum + x * y;
        i += 1;
    }
    sum
}

/// Dot product `+/ x * y` of two integer operands, with scalar extension.
pub fn dot(a: &K, b: &K) -> (r: K)
    requires
        a.wf(),
        b.wf(),
        a@.is_num(),
        b@.is_num(),
        dot_defined(a@.ints(), b@.ints()),
    ensures
        r.wf(),
        r@ == KV::Atom(dot_sum(a@.ints(), b@.ints(), zip_len(a@.ints(), b@.ints())) as i64),
{
    proof {
        a.lemma_fields();
        b.lemma_fields();
    }
    let s = scalar_init(a, b);
    let ai = a.ki_data();
    let bi = b.ki_data();
    let n: usize = if ai.len() >= bi.len() { ai.len() } else { bi.len() };
    assert(n == s.zn);
    let acc = dot_ii_range(ai, bi, s.an, s.bn, 0, n);
    K::ki(acc)
}

/// Two values match: equal integers (atoms and vectors alike), or lists
/// of the same length whose items match pairwise.
pub open spec fn kmatch(a: KV, b: KV) -> bool
    decreases a, b,
{
    match a {
        KV::List(la) => match b {
            KV::List(lb) => la.len() == lb.len() && forall|i: int|
                0 <= i < la.len() ==> kmatch(#[trigger] la[i], lb[i]),
            _ => false,
        },
        _ => match b {
            KV::List(_) => false,
            _ => a.ints() == b.ints(),
        },
    }
}

/// Structural equality of two values.
pub fn k_match(a: &K, b: &K) -> (r: bool)
    requires
        a.wf(),
        b.wf(),
    ensures
        r == kmatch(a@, b@),
    decreases a, b,
{
    proof {
        a.lemma_fields();
        b.lemma_fields();
    }
    match &a.data {
        KData::Ints(ai) => match &b.data {
            KData::Ints(bi) => {
                if ai.len() != bi.len() {
                    return false;
                }
                let mut i: usize = 0;
                while i < ai.len()
                    invariant
                        i <= ai@.len(),
                        ai@.len() == bi@.len(),
                        ai@ == a@.ints(),
                        bi@ == b@.ints(),
                        forall|j: int| 0 <= j < i ==> ai@[j] == bi@[j],
                    decreases ai@.len() - i,
                {
                    if ai[i] != bi[i] {
                        assert(a@.ints()[i as int] != b@.ints()[i as int]);
                        return false;
                    }
                    i += 1;
                }
                assert(ai@ =~= bi@);
                true
            },
            KData::List(_) => false,
        },
        KData::List(la) => match &b.data {
            KData::Ints(_) => false,
            KData::List(lb) => {
                if la.len() != lb.len() {
                    return false;
                }
                let mut i: usize = 0;
                assert(decreases_to!(*a => *la));
                while i < la.len()
                    invariant
                        decreases_to!(*a => *la),
                        i <= la@.len(),
                        la@.len() == lb@.len(),
                        all_wf(la@),
                        all_wf(lb@),
                        a@ == KV::List(views(la@)),
                        b@ == KV::List(views(lb@)),
                        forall|j: int| 0 <= j < i ==> kmatch(kview(#[trigger] la@[j]), kview(lb@[j])),
                    decreases la@.len() - i,
                {
                    proof {
                        vstd::std_specs::vec::axiom_vec_index_decreases(*la, i as int);
                        assert(kwf(la@[i as int]));
                        assert(kwf(lb@[i as int]));
                    }
                    if !k_match(&la[i], &lb[i]) {
                        assert(a@.items()[i as int] == kview(la@[i as int]));
                        return false;
                    }
                    i += 1;
                }
                assert forall|j: int| 0 <= j < a@.items().len() implies kmatch(
                    #[trigger] a@.items()[j],
                    b@.items()[j],
                ) by {
                    assert(a@.items()[j] == kview(la@[j]));
                    assert(b@.items()[j] == kview(lb@[j]));
                }
                true
            },
        },
    }
}

/// Match (`x ~ y`): the atom 1 when the values match, 0 otherwise.
pub fn match_k(a: &K, b: &K) -> (r: K)
    requires
        a.wf(),
        b.wf(),
    ensures
        r.wf(),
        r@ == KV::Atom(if kmatch(a@, b@) { 1 } else { 0 }),
{
    K::ki(if k_match(a, b) { 1 } else { 0 })
}

/// Every integer of a value after a round trip through a double.
pub open spec fn round_trip_all(x: KV) -> KV
    decreases x,
{
    match x {
        KV::Atom(v) => KV::Atom(double_to_i64(v as int) as i64),
        KV::Vector(s) => KV::Vector(s.map_values(|v: i64| double_to_i64(v as int) as i64)),
        KV::List(l) => KV::List(
            Seq::new(
                l.len(),
                |i: int|
                    if 0 <= i < l.len() {
                        round_trip_all(l[i])
                    } else {
                        KV::Atom(0)
                    },
            ),
        ),
    }
}

/// Apply the double round trip to every integer, keeping the shape.
fn each_numeric_i64(x: &K) -> (r: K)
    requires
        x.wf(),
    ensures
        r.wf(),
        r@ == round_trip_all(x@),
    decreases x,
{
    proof {
        x.lemma_fields();
    }
    match &x.data {
        KData::Ints(v) => {
            let mut out: Vec<i64> = Vec::new();
            let mut i: usize = 0;
            while i < v.len()
                invariant
                    i <= v@.len(),
                    out@.len() == i,
                    forall|j: int| 0 <= j < i ==> out@[j] == double_to_i64(#[trigger] v@[j] as int),
                decreases v@.len() - i,
            {
                let y = double_round_trip(v[i]);
                out.push(y);
                i += 1;
            }
            let r = K { t: if x.t < 0 { -1 } else { 1 }, n: x.n, data: KData::Ints(out) };
            proof {
                if x.t < 0 {
                    assert(r@ == round_trip_all(x@));
                } else {
                    assert(out@ =~= v@.map_values(|v: i64| double_to_i64(v as int) as i64));
                }
            }
            r
        },
        KData::List(l) => {
            let mut out: Vec<K> = Vec::new();
            let mut i: usize = 0;
            assert(decreases_to!(*x => *l));
            while i < l.len()
                invariant
                    decreases_to!(*x => *l),
                    i <= l@.len(),
                    l@.len() <= i64::MAX,
                    out@.len() == i,
                    all_wf(l@),
                    all_wf(out@),
                    x@ == KV::List(views(l@)),
                    forall|j: int| 0 <= j < i ==> kview(#[trigger] out@[j]) == round_trip_all(kview(l@[j])),
                decreases l@.len() - i,
            {
                proof {
                    vstd::std_specs::vec::axiom_vec_index_decreases(*l, i as int);
                    assert(kwf(l@[i as int]));
                }
                let item = each_numeric_i64(&l[i]);
                out.push(item);
                i += 1;
            }
            let r = K::from_list(out);
            assert(r@.items() =~= round_trip_all(x@).items());
            r
        },
    }
}

/// Floor of every number. An integer becomes the floor of its nearest
/// double, which is that double, clamped to the `i64` range.
pub fn floor_verb(x: &K) -> (r: K)
    requires
        x.wf(),
    ensures
        r.wf(),
        r@ == round_trip_all(x@),
{
    each_numeric_i64(x)
}

/// Ceiling of every number; on integers it agrees with `floor_verb`.
pub fn ceiling(x: &K) -> (r: K)
    requires
        x.wf(),
    ensures
        r.wf(),
        r@ == round_trip_all(x@),
{
    each_numeric_i64(x)
}

} // verus!
