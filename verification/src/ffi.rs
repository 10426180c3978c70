//! Registry of foreign functions, called by integer id (`2:`).
//!
//! The dispatcher checks the id, the number of arguments and, for the
//! additions, that the arguments can be added, before it does any work; a
//! failed check is returned as an error, never a panic. Functions on
//! doubles (sine, cosine, natural logarithm) are dispatched here and
//! evaluated by the caller.

use vstd::prelude::*;
use crate::k::{K, KData, KV, kview, kwf, views, all_wf};
use crate::va::{ScalarOp, dyad, dyad_ok, plus, op_defined, bcast, zip_len, zip_ok, zip_defined, shapes_ok};

verus! {

/// Why a foreign call was refused.
#[derive(Debug)]
pub enum FfiError {
    /// An argument's type code is not a numeric or list code.
    Type { at: i64, bt: i64 },
    /// Two shapes that cannot be added: different lengths, neither one.
    Length { an: i64, bn: i64 },
    /// Two lists of different lengths.
    ListLength { left: usize, right: usize },
    /// Function `fno` expects `expected` arguments and got `got`.
    Arity { fno: i64, expected: usize, got: usize },
    /// No function has this id.
    UnknownFunction { fno: i64 },
}

/// A function on doubles that the caller applies element-wise.
#[derive(Debug, Clone, Copy)]
pub enum FloatFn {
    Sin,
    Cos,
    Log,
}

/// What a successful foreign call gives.
#[derive(Debug)]
pub enum FfiValue {
    /// The finished result.
    Value(K),
    /// The function on doubles to apply to every number of the argument.
    Float(FloatFn, K),
}

/// Model of the outcome of a foreign call.
pub enum FfiOutcome {
    Value(KV),
    Float(FloatFn, KV),
    Error(FfiError),
}

/// The arguments of a foreign call: the items of a list, or the value
/// itself.
pub open spec fn unpacked(args: KV) -> Seq<KV> {
    match args {
        KV::List(l) => l,
        _ => seq![args],
    }
}

/// Unpack the arguments of a foreign call: the items of a general list, or
/// the value itself as the only argument.
pub fn unpack_args(args: &K) -> (r: Vec<K>)
    requires
        args.wf(),
    ensures
        all_wf(r@),
        views(r@) == unpacked(args@),
{
    proof {
        args.lemma_fields();
    }
    if args.t == 0 {
        let items = args.kk_data();
        let mut out: Vec<K> = Vec::new();
        let mut i: usize = 0;
        while i < items.len()
            invariant
                i <= items@.len(),
                all_wf(items@),
                all_wf(out@),
                out@.len() == i,
                forall|j: int| 0 <= j < i ==> kview(#[trigger] out@[j]) == kview(items@[j]),
            decreases items@.len() - i,
        {
            proof {
                assert(kwf(items@[i as int]));
            }
            out.push(items[i].deep_clone());
            i += 1;
        }
        assert(views(out@) =~= views(items@));
        out
    } else {
        let mut out: Vec<K> = Vec::new();
        out.push(args.deep_clone());
        assert(views(out@) =~= seq![args@]);
        out
    }
}

/// The check that two values can be added, from item `k` on: lengths are
/// checked first (at `k == 0`: they must agree, or one side must be of
/// length one against a nonempty integer side or against a list); then a
/// list is checked item by item
/// against the other side (pairwise for two lists), and the first item
/// that fails gives the error.
pub open spec fn add_check(a: KV, b: KV, k: int) -> Option<FfiError>
    decreases a, b, a.items().len() + b.items().len() - k,
{
    let an = a.len();
    let bn = b.len();
    if k <= 0 && an != bn && ((an != 1 && bn != 1) || (a.is_num() && b.is_num() && (an == 0 || bn == 0))) {
        Some(FfiError::Length { an: an as i64, bn: bn as i64 })
    } else if k <= 0 && a.is_list() && b.is_list() && a.items().len() != b.items().len() {
        Some(FfiError::ListLength { left: a.items().len() as usize, right: b.items().len() as usize })
    } else if k < 0 {
        None
    } else if a.is_list() {
        let la = a.items();
        if k >= la.len() {
            None
        } else {
            let e = if b.is_list() {
                add_check(la[k], b.items()[k], 0)
            } else {
                add_check(la[k], b, 0)
            };
            if e is Some {
                e
            } else {
                add_check(a, b, k + 1)
            }
        }
    } else if b.is_list() {
        let lb = b.items();
        if k >= lb.len() {
            None
        } else {
            let e = add_check(a, lb[k], 0);
            if e is Some {
                e
            } else {
                add_check(a, b, k + 1)
            }
        }
    } else {
        None
    }
}

/// The result of checking that two values can be added: the first failed
/// check, or none.
pub open spec fn can_add_of(a: KV, b: KV) -> Option<FfiError> {
    add_check(a, b, 0)
}

/// No element of `op` applied to `a` and `b` overflows, at any level;
/// lengths are not looked at.
pub open spec fn dyad_fits(op: ScalarOp, a: KV, b: KV) -> bool
    decreases a, b,
{
    match a {
        KV::List(la) => match b {
            KV::List(lb) => forall|i: int| 0 <= i < la.len() && i < lb.len() ==> dyad_fits(op, #[trigger] la[i], lb[i]),
            _ => forall|i: int| 0 <= i < la.len() ==> dyad_fits(op, #[trigger] la[i], b),
        },
        _ => match b {
            KV::List(lb) => forall|i: int| 0 <= i < lb.len() ==> dyad_fits(op, a, #[trigger] lb[i]),
            _ => forall|i: int|
                #![trigger bcast(a.ints(), i)]
                0 <= i < zip_len(a.ints(), b.ints()) ==> op_defined(
                    op,
                    bcast(a.ints(), i) as int,
                    bcast(b.ints(), i) as int,
                ),
        },
    }
}

proof fn lemma_add_check_items(a: KV, b: KV, k: int)
    requires
        0 <= k,
        add_check(a, b, k) is None,
    ensures
        a.is_list() ==> forall|i: int|
            k <= i < a.items().len() ==> (if b.is_list() {
                add_check(a.items()[i], b.items()[i], 0)
            } else {
                add_check(a.items()[i], b, 0)
            }) is None,
        !a.is_list() && b.is_list() ==> forall|i: int|
            k <= i < b.items().len() ==> add_check(a, #[trigger] b.items()[i], 0) is None,
    decreases a.items().len() + b.items().len() - k,
{
    if a.is_list() && k < a.items().len() {
        lemma_add_check_items(a, b, k + 1);
    } else if !a.is_list() && b.is_list() && k < b.items().len() {
        lemma_add_check_items(a, b, k + 1);
    }
}

/// Once the check for an addition passes, the addition is defined exactly
/// when no element overflows.
pub proof fn lemma_checked_add_fits(op: ScalarOp, a: KV, b: KV)
    requires
        can_add_of(a, b) is None,
    ensures
        dyad_ok(op, a, b) <==> dyad_fits(op, a, b),
    decreases a, b,
{
    lemma_add_check_items(a, b, 0);
    assert(shapes_ok(a, b));
    match a {
        KV::List(la) => match b {
            KV::List(lb) => {
                assert forall|i: int| 0 <= i < la.len() implies (dyad_ok(op, #[trigger] la[i], lb[i]) <==> dyad_fits(op, la[i], lb[i])) by {
                    assert(add_check(a.items()[i], b.items()[i], 0) is None);
                    lemma_checked_add_fits(op, la[i], lb[i]);
                }
            },
            _ => {
                assert forall|i: int| 0 <= i < la.len() implies (dyad_ok(op, #[trigger] la[i], b) <==> dyad_fits(op, la[i], b)) by {
                    assert(add_check(a.items()[i], b, 0) is None);
                    lemma_checked_add_fits(op, la[i], b);
                }
            },
        },
        _ => match b {
            KV::List(lb) => {
                assert forall|i: int| 0 <= i < lb.len() implies (dyad_ok(op, a, #[trigger] lb[i]) <==> dyad_fits(op, a, lb[i])) by {
                    assert(add_check(a, b.items()[i], 0) is None);
                    lemma_checked_add_fits(op, a, lb[i]);
                }
            },
            _ => {
                assert(zip_ok(a.ints(), b.ints()));
            },
        },
    }
}

/// Check, without adding, that two values can be added: their lengths
/// agree at every level.
fn can_add(a: &K, b: &K) -> (r: Result<(), FfiError>)
    requires
        a.wf(),
        b.wf(),
    ensures
        r is Ok <==> can_add_of(a@, b@) is None,
        r matches Err(e) ==> can_add_of(a@, b@) == Some(e),
    decreases a, b,
{
    proof {
        a.lemma_fields();
        b.lemma_fields();
    }
    let at = a.t;
    let bt = b.t;
    let an = a.n;
    let bn = b.n;
    if !(-2 <= at && at <= 2) || !(-2 <= bt && bt <= 2) {
        return Err(FfiError::Type { at, bt });
    }
    if an != bn && ((an != 1 && bn != 1) || (at != 0 && bt != 0 && (an == 0 || bn == 0))) {
        return Err(FfiError::Length { an, bn });
    }
    match &a.data {
        KData::List(la) => match &b.data {
            KData::Ints(_) => {
                let mut i: usize = 0;
                assert(decreases_to!(*a => *la));
                while i < la.len()
                    invariant
                        decreases_to!(*a => *la),
                        i <= la@.len(),
                        all_wf(la@),
                        a.wf(),
                        b.wf(),
                        a@.is_list(),
                        !b@.is_list(),
                        !(a@.len() != b@.len() && ((a@.len() != 1 && b@.len() != 1) || (a@.is_num() && b@.is_num() && (a@.len() == 0 || b@.len() == 0)))),
                        views(la@) == a@.items(),
                        can_add_of(a@, b@) == add_check(a@, b@, i as int),
                    decreases la@.len() - i,
                {
                    proof {
                        vstd::std_specs::vec::axiom_vec_index_decreases(*la, i as int);
                        assert(kwf(la@[i as int]));
                        assert(a@.items()[i as int] == kview(la@[i as int]));
                    }
                    let c = can_add(&la[i], b);
                    if c.is_err() {
                        return c;
                    }
                    i += 1;
                }
                Ok(())
            },
            KData::List(lb) => {
                if la.len() != lb.len() {
                    return Err(FfiError::ListLength { left: la.len(), right: lb.len() });
                }
                let mut i: usize = 0;
                assert(decreases_to!(*a => *la));
                while i < la.len()
                    invariant
                        decreases_to!(*a => *la),
                        i <= la@.len(),
                        la@.len() == lb@.len(),
                        all_wf(la@),
                        all_wf(lb@),
                        a@.is_list(),
                        b@.is_list(),
                        views(la@) == a@.items(),
                        views(lb@) == b@.items(),
                        can_add_of(a@, b@) == add_check(a@, b@, i as int),
                    decreases la@.len() - i,
                {
                    proof {
                        vstd::std_specs::vec::axiom_vec_index_decreases(*la, i as int);
                        assert(kwf(la@[i as int]));
                        assert(kwf(lb@[i as int]));
                        assert(a@.items()[i as int] == kview(la@[i as int]));
                        assert(b@.items()[i as int] == kview(lb@[i as int]));
                    }
                    let c = can_add(&la[i], &lb[i]);
                    if c.is_err() {
                        return c;
                    }
                    i += 1;
                }
                Ok(())
            },
        },
        KData::Ints(_) => match &b.data {
            KData::Ints(_) => Ok(()),
            KData::List(lb) => {
                let mut i: usize = 0;
                assert(decreases_to!(*b => *lb));
                while i < lb.len()
                    invariant
                        decreases_to!(*b => *lb),
                        i <= lb@.len(),
                        all_wf(lb@),
                        a.wf(),
                        b.wf(),
                        !a@.is_list(),
                        b@.is_list(),
                        !(a@.len() != b@.len() && ((a@.len() != 1 && b@.len() != 1) || (a@.is_num() && b@.is_num() && (a@.len() == 0 || b@.len() == 0)))),
                        views(lb@) == b@.items(),
                        can_add_of(a@, b@) == add_check(a@, b@, i as int),
                    decreases lb@.len() - i,
                {
                    proof {
                        vstd::std_specs::vec::axiom_vec_index_decreases(*lb, i as int);
                        assert(kwf(lb@[i as int]));
                        assert(b@.items()[i as int] == kview(lb@[i as int]));
                    }
                    let c = can_add(a, &lb[i]);
                    if c.is_err() {
                        return c;
                    }
                    i += 1;
                }
                Ok(())
            },
        },
    }
}

/// Sum of the first `k` integers of `s`.
pub open spec fn int_sum(s: Seq<i64>, k: int) -> int
    decreases k,
{
    if k <= 0 {
        0
    } else {
        int_sum(s, k - 1) + s[k - 1]
    }
}

/// No running sum of `s` overflows.
pub open spec fn int_sum_ok(s: Seq<i64>) -> bool {
    forall|k: int| 0 <= k <= s.len() ==> i64::MIN <= #[trigger] int_sum(s, k) <= i64::MAX
}

/// Summing list items with checked additions, from `acc`: the first
/// failed check, or the sum.
pub open spec fn sum_items(acc: KV, items: Seq<KV>) -> FfiOutcome
    decreases items.len(),
{
    if items.len() == 0 {
        FfiOutcome::Value(acc)
    } else {
        match can_add_of(acc, items[0]) {
            Some(e) => FfiOutcome::Error(e),
            None => sum_items(dyad(ScalarOp::Plus, acc, items[0]), items.drop_first()),
        }
    }
}

/// Every addition that the checked sum performs is defined.
pub open spec fn sum_items_ok(acc: KV, items: Seq<KV>) -> bool
    decreases items.len(),
{
    items.len() == 0 || can_add_of(acc, items[0]) is Some || (dyad_fits(ScalarOp::Plus, acc, items[0])
        && sum_items_ok(dyad(ScalarOp::Plus, acc, items[0]), items.drop_first()))
}

/// The outcome of foreign function `fno` on `args`: sine (101), cosine
/// (102) and natural logarithm (103) of one argument, `add_two` (104) of
/// two arguments, `sum_all` (105) of one argument.
pub open spec fn cfuncs_of(fno: int, args: KV) -> FfiOutcome {
    let u = unpacked(args);
    if fno == 101 || fno == 102 || fno == 103 {
        if u.len() != 1 {
            FfiOutcome::Error(FfiError::Arity { fno: fno as i64, expected: 1, got: u.len() as usize })
        } else {
            FfiOutcome::Float(
                if fno == 101 {
                    FloatFn::Sin
                } else if fno == 102 {
                    FloatFn::Cos
                } else {
                    FloatFn::Log
                },
                u[0],
            )
        }
    } else if fno == 104 {
        if u.len() != 2 {
            FfiOutcome::Error(FfiError::Arity { fno: fno as i64, expected: 2, got: u.len() as usize })
        } else {
            match can_add_of(u[0], u[1]) {
                Some(e) => FfiOutcome::Error(e),
                None => FfiOutcome::Value(dyad(ScalarOp::Plus, u[0], u[1])),
            }
        }
    } else if fno == 105 {
        if u.len() != 1 {
            FfiOutcome::Error(FfiError::Arity { fno: fno as i64, expected: 1, got: u.len() as usize })
        } else {
            match u[0] {
                KV::Atom(_) => FfiOutcome::Value(u[0]),
                KV::Vector(v) => FfiOutcome::Value(KV::Atom(int_sum(v, v.len() as int) as i64)),
                KV::List(l) => if l.len() == 0 {
                    FfiOutcome::Value(KV::Atom(0))
                } else {
                    sum_items(l[0], l.drop_first())
                },
            }
        }
    } else {
        FfiOutcome::Error(FfiError::UnknownFunction { fno: fno as i64 })
    }
}

/// The additions and sums that foreign function `fno` performs on `args`
/// after its checks pass do not overflow.
pub open spec fn cfuncs_ok(fno: int, args: KV) -> bool {
    let u = unpacked(args);
    &&& (fno == 104 && u.len() == 2 && can_add_of(u[0], u[1]) is None) ==> dyad_fits(
        ScalarOp::Plus,
        u[0],
        u[1],
    )
    &&& (fno == 105 && u.len() == 1) ==> match u[0] {
        KV::Vector(v) => int_sum_ok(v),
        KV::List(l) => l.len() > 0 ==> sum_items_ok(l[0], l.drop_first()),
        _ => true,
    }
}

/// The result `r` of a foreign call has the outcome `o`.
pub open spec fn outcome_is(r: Result<FfiValue, FfiError>, o: FfiOutcome) -> bool {
    match r {
        Ok(FfiValue::Value(k)) => k.wf() && o == FfiOutcome::Value(k@),
        Ok(FfiValue::Float(g, k)) => k.wf() && o == FfiOutcome::Float(g, k@),
        Err(e) => o == FfiOutcome::Error(e),
    }
}

/// Sum of an integer vector.
fn sum_ints(v: &[i64]) -> (r: i64)
    requires
        int_sum_ok(v@),
    ensures
        r == int_sum(v@, v@.len() as int),
{
    let mut sum: i64 = 0;
    let mut i: usize = 0;
    while i < v.len()
        invariant
            i <= v@.len(),
            int_sum_ok(v@),
            sum == int_sum(v@, i as int),
        decreases v@.len() - i,
    {
        assert(i64::MIN <= int_sum(v@, i as int + 1) <= i64::MAX);
        sum = sum + v[i];
        i += 1;
    }
    sum
}

/// Sum the items of a list with checked additions, from its first item.
fn sum_list(items: &[K]) -> (r: Result<FfiValue, FfiError>)
    requires
        items@.len() > 0,
        all_wf(items@),
        sum_items_ok(views(items@)[0], views(items@).drop_first()),
    ensures
        outcome_is(r, sum_items(views(items@)[0], views(items@).drop_first())),
{
    let ghost s = views(items@);
    proof {
        assert(kwf(items@[0]));
    }
    let mut acc = items[0].deep_clone();
    let mut i: usize = 1;
    assert(s.skip(1) =~= s.drop_first());
    while i < items.len()
        invariant
            1 <= i <= items@.len(),
            s == views(items@),
            all_wf(items@),
            acc.wf(),
            sum_items(s[0], s.drop_first()) == sum_items(acc@, s.skip(i as int)),
            sum_items_ok(acc@, s.skip(i as int)),
        decreases items@.len() - i,
    {
        let ghost rest = s.skip(i as int);
        proof {
            assert(kwf(items@[i as int]));
            assert(rest[0] == kview(items@[i as int]));
            assert(rest.drop_first() =~= s.skip(i as int + 1));
        }
        match can_add(&acc, &items[i]) {
            Err(e) => {
                return Err(e);
            },
            Ok(()) => {},
        }
        proof {
            lemma_checked_add_fits(ScalarOp::Plus, acc@, kview(items@[i as int]));
        }
        acc = plus(&acc, &items[i]);
        i += 1;
    }
    assert(s.skip(i as int).len() == 0);
    Ok(FfiValue::Value(acc))
}

/// Whether no running sum of `v` overflows.
fn int_sum_fits(v: &[i64]) -> (r: bool)
    ensures
        r == int_sum_ok(v@),
{
    let mut sum: i64 = 0;
    let mut i: usize = 0;
    while i < v.len()
        invariant
            i <= v@.len(),
            sum == int_sum(v@, i as int),
            forall|k: int| 0 <= k <= i ==> i64::MIN <= #[trigger] int_sum(v@, k) <= i64::MAX,
        decreases v@.len() - i,
    {
        match sum.checked_add(v[i]) {
            Some(t) => {
                sum = t;
            },
            None => {
                assert(!(i64::MIN <= int_sum(v@, i as int + 1) <= i64::MAX));
                return false;
            },
        }
        i += 1;
    }
    true
}

/// Whether every addition of the checked sum of `items` is defined.
fn sum_list_fits(items: &[K]) -> (r: bool)
    requires
        items@.len() > 0,
        all_wf(items@),
    ensures
        r == sum_items_ok(views(items@)[0], views(items@).drop_first()),
{
    let ghost s = views(items@);
    proof {
        assert(kwf(items@[0]));
    }
    let mut acc = items[0].deep_clone();
    let mut i: usize = 1;
    assert(s.skip(1) =~= s.drop_first());
    while i < items.len()
        invariant
            1 <= i <= items@.len(),
            s == views(items@),
            all_wf(items@),
            acc.wf(),
            sum_items_ok(s[0], s.drop_first()) == sum_items_ok(acc@, s.skip(i as int)),
        decreases items@.len() - i,
    {
        let ghost rest = s.skip(i as int);
        proof {
            assert(kwf(items@[i as int]));
            assert(rest[0] == kview(items@[i as int]));
            assert(rest.drop_first() =~= s.skip(i as int + 1));
        }
        match can_add(&acc, &items[i]) {
            Err(_) => {
                return true;
            },
            Ok(()) => {},
        }
        proof {
            lemma_checked_add_fits(ScalarOp::Plus, acc@, kview(items@[i as int]));
        }
        match crate::va::dyad_checked(ScalarOp::Plus, &acc, &items[i]) {
            Some(z) => {
                acc = z;
            },
            None => {
                return false;
            },
        }
        i += 1;
    }
    assert(s.skip(i as int).len() == 0);
    true
}

/// Whether a foreign call is defined: no addition that it makes
/// overflows. Every other input is answered, with a value or an error.
pub fn cfuncs_defined(fno: i64, args: &K) -> (r: bool)
    requires
        args.wf(),
    ensures
        r == cfuncs_ok(fno as int, args@),
{
    let unpacked = unpack_args(args);
    let ghost u = views(unpacked@);
    if fno == 104 && unpacked.len() == 2 {
        proof {
            assert(kwf(unpacked@[0]));
            assert(kwf(unpacked@[1]));
            assert(u[0] == kview(unpacked@[0]));
            assert(u[1] == kview(unpacked@[1]));
        }
        match can_add(&unpacked[0], &unpacked[1]) {
            Err(_) => true,
            Ok(()) => {
                proof {
                    lemma_checked_add_fits(ScalarOp::Plus, u[0], u[1]);
                }
                crate::va::dyad_defined(ScalarOp::Plus, &unpacked[0], &unpacked[1])
            },
        }
    } else if fno == 105 && unpacked.len() == 1 {
        proof {
            assert(kwf(unpacked@[0]));
            assert(u[0] == kview(unpacked@[0]));
            unpacked@[0].lemma_fields();
        }
        let x = &unpacked[0];
        if x.t < 0 {
            return true;
        }
        match &x.data {
            KData::Ints(v) => int_sum_fits(v.as_slice()),
            KData::List(l) => {
                if l.len() == 0 {
                    true
                } else {
                    sum_list_fits(l.as_slice())
                }
            },
        }
    } else {
        true
    }
}

/// Call foreign function `fno` on `args`: check the id and the number of
/// arguments (and, for the additions, that they can be added), then
/// compute the result, or hand back the function on doubles to apply.
pub fn cfuncs(fno: i64, args: &K) -> (r: Result<FfiValue, FfiError>)
    requires
        args.wf(),
        cfuncs_ok(fno as int, args@),
    ensures
        outcome_is(r, cfuncs_of(fno as int, args@)),
{
    let unpacked = unpack_args(args);
    let ghost u = views(unpacked@);
    if fno == 101 || fno == 102 || fno == 103 {
        if unpacked.len() != 1 {
            return Err(FfiError::Arity { fno, expected: 1, got: unpacked.len() });
        }
        let g = if fno == 101 {
            FloatFn::Sin
        } else if fno == 102 {
            FloatFn::Cos
        } else {
            FloatFn::Log
        };
        proof {
            assert(kwf(unpacked@[0]));
            assert(u[0] == kview(unpacked@[0]));
        }
        let x = unpacked[0].deep_clone();
        return Ok(FfiValue::Float(g, x));
    }
    if fno == 104 {
        if unpacked.len() != 2 {
            return Err(FfiError::Arity { fno, expected: 2, got: unpacked.len() });
        }
        proof {
            assert(kwf(unpacked@[0]));
            assert(kwf(unpacked@[1]));
            assert(u[0] == kview(unpacked@[0]));
            assert(u[1] == kview(unpacked@[1]));
        }
        match can_add(&unpacked[0], &unpacked[1]) {
            Err(e) => {
                return Err(e);
            },
            Ok(()) => {},
        }
        proof {
            lemma_checked_add_fits(ScalarOp::Plus, u[0], u[1]);
        }
        let z = plus(&unpacked[0], &unpacked[1]);
        return Ok(FfiValue::Value(z));
    }
    if fno == 105 {
        if unpacked.len() != 1 {
            return Err(FfiError::Arity { fno, expected: 1, got: unpacked.len() });
        }
        proof {
            assert(kwf(unpacked@[0]));
            assert(u[0] == kview(unpacked@[0]));
            unpacked@[0].lemma_fields();
        }
        let x = &unpacked[0];
        if x.t < 0 {
            return Ok(FfiValue::Value(x.deep_clone()));
        }
        match &x.data {
            KData::Ints(v) => {
                let sum = sum_ints(v.as_slice());
                return Ok(FfiValue::Value(K::ki(sum)));
            },
            KData::List(l) => {
                if l.len() == 0 {
                    return Ok(FfiValue::Value(K::ki(0)));
                }
                return sum_list(l.as_slice());
            },
        }
    }
    Err(FfiError::UnknownFunction { fno })
}

/// Functions 101, 102 and 103 hand their one argument back unchanged,
/// with sine, cosine and the natural logarithm respectively as the
/// function to apply to it; any other number of arguments is an arity
/// error that expects one.
pub proof fn lemma_cfuncs_float_functions(args: KV)
    ensures
        unpacked(args).len() == 1 ==> {
            &&& cfuncs_of(101, args) == FfiOutcome::Float(FloatFn::Sin, unpacked(args)[0])
            &&& cfuncs_of(102, args) == FfiOutcome::Float(FloatFn::Cos, unpacked(args)[0])
            &&& cfuncs_of(103, args) == FfiOutcome::Float(FloatFn::Log, unpacked(args)[0])
        },
        unpacked(args).len() != 1 ==> {
            &&& cfuncs_of(101, args) == FfiOutcome::Error(
                FfiError::Arity { fno: 101, expected: 1, got: unpacked(args).len() as usize },
            )
            &&& cfuncs_of(102, args) == FfiOutcome::Error(
                FfiError::Arity { fno: 102, expected: 1, got: unpacked(args).len() as usize },
            )
            &&& cfuncs_of(103, args) == FfiOutcome::Error(
                FfiError::Arity { fno: 103, expected: 1, got: unpacked(args).len() as usize },
            )
        },
{
}

/// Function 104 adds its two arguments with the checks of `+`: the first
/// failed check is the error, otherwise the value is their sum; function
/// 105 on one argument, a list of two items, adds them the same way.
pub proof fn lemma_cfuncs_add_two(a: KV, b: KV)
    ensures
        cfuncs_of(104, KV::List(seq![a, b])) == (match can_add_of(a, b) {
            Some(e) => FfiOutcome::Error(e),
            None => FfiOutcome::Value(dyad(ScalarOp::Plus, a, b)),
        }),
        cfuncs_of(105, KV::List(seq![KV::List(seq![a, b])])) == cfuncs_of(104, KV::List(seq![a, b])),
{
    let l = seq![a, b];
    assert(l.drop_first() =~= seq![b]);
    assert(seq![b].drop_first() =~= Seq::<KV>::empty());
    let z = dyad(ScalarOp::Plus, a, b);
    assert(sum_items(z, Seq::<KV>::empty()) == FfiOutcome::Value(z));
    assert(sum_items(a, seq![b]) == (match can_add_of(a, b) {
        Some(e) => FfiOutcome::Error(e),
        None => FfiOutcome::Value(z),
    }));
}

proof fn lemma_int_sum_prefix(s: Seq<i64>, t: Seq<i64>, k: int)
    requires
        0 <= k <= s.len(),
        s.len() <= t.len(),
        forall|i: int| 0 <= i < s.len() ==> s[i] == t[i],
    ensures
        int_sum(s, k) == int_sum(t, k),
    decreases k,
{
    if k > 0 {
        lemma_int_sum_prefix(s, t, k - 1);
    }
}

/// Function 105 sums a vector: the sum of an empty vector is the atom 0,
/// and one more element adds to the sum.
pub proof fn lemma_cfuncs_sum_vector(v: Seq<i64>, x: i64)
    requires
        cfuncs_ok(105, KV::Vector(v.push(x))),
    ensures
        cfuncs_of(105, KV::Vector(Seq::empty())) == FfiOutcome::Value(KV::Atom(0)),
        cfuncs_of(105, KV::Vector(v)) is Value,
        cfuncs_of(105, KV::Vector(v)) matches FfiOutcome::Value(KV::Atom(s)) && cfuncs_of(
            105,
            KV::Vector(v.push(x)),
        ) == FfiOutcome::Value(KV::Atom((s + x) as i64)),
{
    let w = v.push(x);
    let n = v.len() as int;
    lemma_int_sum_prefix(v, w, n);
    assert(int_sum(w, n + 1) == int_sum(w, n) + x);
    assert(i64::MIN <= int_sum(w, n) <= i64::MAX);
    assert(i64::MIN <= int_sum(w, n + 1) <= i64::MAX);
}

/// Only ids 101 to 105 name functions; function 104 takes two arguments
/// and 105 one, and any other number is an arity error.
pub proof fn lemma_cfuncs_ids_and_arity(fno: int, args: KV)
    requires
        i64::MIN <= fno <= i64::MAX,
    ensures
        !(101 <= fno <= 105) ==> cfuncs_of(fno, args) == FfiOutcome::Error(
            FfiError::UnknownFunction { fno: fno as i64 },
        ),
        unpacked(args).len() != 2 ==> cfuncs_of(104, args) == FfiOutcome::Error(
            FfiError::Arity { fno: 104, expected: 2, got: unpacked(args).len() as usize },
        ),
        unpacked(args).len() != 1 ==> cfuncs_of(105, args) == FfiOutcome::Error(
            FfiError::Arity { fno: 105, expected: 1, got: unpacked(args).len() as usize },
        ),
{
}

/// An atom or a vector is a single argument: the float functions apply to
/// it as it is.
pub proof fn lemma_cfuncs_float_of_number(x: KV)
    requires
        x.is_num(),
    ensures
        cfuncs_of(101, x) == FfiOutcome::Float(FloatFn::Sin, x),
        cfuncs_of(102, x) == FfiOutcome::Float(FloatFn::Cos, x),
        cfuncs_of(103, x) == FfiOutcome::Float(FloatFn::Log, x),
{
}

/// The arguments of a call are the items of a list, or the value itself.
pub proof fn lemma_unpacked_arguments(x: KV)
    ensures
        x.is_list() ==> unpacked(x) == x.items(),
        x.is_num() ==> unpacked(x) == seq![x],
{
}

/// The valence of foreign function `fno`: two for `add_two`, one otherwise.
pub open spec fn ffi_valence(fno: int) -> int {
    if fno == 104 {
        2
    } else {
        1
    }
}

/// Monadic `2:` on a function id: the projection `(id; valence)`.
pub fn _2m(x: &K) -> (r: K)
    requires
        x.wf(),
        x@ is Atom,
    ensures
        r.wf(),
        r@ == KV::List(seq![x@, KV::Atom(ffi_valence(x@->Atom_0 as int) as i64)]),
{
    proof {
        x.lemma_fields();
    }
    let fno = x.ki_data()[0];
    let valence: i64 = if fno == 104 { 2 } else { 1 };
    let mut v: Vec<K> = Vec::new();
    v.push(x.deep_clone());
    v.push(K::ki(valence));
    let r = K::from_list(v);
    assert(r@.items() =~= seq![x@, KV::Atom(ffi_valence(x@->Atom_0 as int) as i64)]);
    r
}

/// The function id that a dyadic `2:` call names: an id atom, or the
/// first item of a projection.
pub open spec fn ffi_id(a: KV) -> int {
    match a {
        KV::Atom(x) => x as int,
        KV::List(l) => l[0]->Atom_0 as int,
        _ => 0,
    }
}

/// `a` names a function: an id atom, or a projection whose first item is
/// an id atom.
pub open spec fn names_ffi(a: KV) -> bool {
    ||| a is Atom
    ||| (a is List && a.items().len() > 0 && a.items()[0] is Atom)
}

/// Dyadic `2:`: call the function that `a` names on `b`, for calls that
/// give a finished value.
pub fn _2d(a: &K, b: &K) -> (r: K)
    requires
        a.wf(),
        b.wf(),
        names_ffi(a@),
        cfuncs_ok(ffi_id(a@), b@),
        cfuncs_of(ffi_id(a@), b@) is Value,
    ensures
        r.wf(),
        cfuncs_of(ffi_id(a@), b@) == FfiOutcome::Value(r@),
{
    proof {
        a.lemma_fields();
    }
    let fno = if a.t == -1 {
        a.ki_data()[0]
    } else {
        let items = a.kk_data();
        proof {
            assert(kwf(items@[0]));
            assert(views(items@)[0] == kview(items@[0]));
            items@[0].lemma_fields();
        }
        items[0].ki_data()[0]
    };
    assert(fno == ffi_id(a@));
    match cfuncs(fno, b) {
        Ok(FfiValue::Value(res)) => res,
        Ok(FfiValue::Float(_, x)) => {
            assert(false);
            x
        },
        Err(_) => {
            assert(false);
            K::ki(0)
        },
    }
}

} // verus!
