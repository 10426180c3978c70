//! Adverbs: over (fold), scan (running fold) and each (map), applied to a
//! caller's function.
//!
//! The function is any `Fn` value. What the adverbs promise is stated over
//! its own pre- and postconditions (`call_requires`, `call_ensures`), and
//! over every well-formed value with the model that the adverb hands it.

use vstd::prelude::*;
use crate::k::{K, KData, KV, kview, kwf, views, all_wf};

verus! {

/// The elements that an adverb walks over: the integers of a vector as
/// atoms, or the items of a list.
pub open spec fn walk_items(x: KV) -> Seq<KV> {
    match x {
        KV::List(l) => l,
        _ => x.ints().map_values(|v: i64| KV::Atom(v)),
    }
}

/// A fold of `f` from an accumulator with model `acc` over `items` is
/// defined: at every step `f` accepts every well-formed accumulator and
/// element with those models, and returns a well-formed value.
pub open spec fn fold_ok<F: Fn(&K, &K) -> K>(f: F, acc: KV, items: Seq<KV>) -> bool
    decreases items.len(),
{
    items.len() == 0 || forall|a: K, y: K|
        #![trigger call_requires(f, (&a, &y))]
        kwf(a) && kwf(y) && kview(a) == acc && kview(y) == items[0] ==> {
            &&& call_requires(f, (&a, &y))
            &&& forall|r: K|
                #![trigger call_ensures(f, (&a, &y), r)]
                call_ensures(f, (&a, &y), r) ==> kwf(r) && fold_ok(f, kview(r), items.drop_first())
        }
}

/// `res` is a possible outcome of folding `f` from `acc` over `items`.
pub open spec fn fold_result<F: Fn(&K, &K) -> K>(f: F, acc: KV, items: Seq<KV>, res: KV) -> bool
    decreases items.len(),
{
    if items.len() == 0 {
        res == acc
    } else {
        exists|a: K, y: K, m: K|
            #![trigger call_ensures(f, (&a, &y), m)]
            kview(a) == acc && kview(y) == items[0] && call_ensures(f, (&a, &y), m)
                && fold_result(f, kview(m), items.drop_first(), res)
    }
}

/// `outs` is a possible sequence of running results of folding `f` from
/// `acc` over `items`.
pub open spec fn scan_result<F: Fn(&K, &K) -> K>(
    f: F,
    acc: KV,
    items: Seq<KV>,
    outs: Seq<KV>,
) -> bool
    decreases items.len(),
{
    if items.len() == 0 {
        outs.len() == 0
    } else {
        outs.len() > 0 && exists|a: K, y: K, m: K|
            #![trigger call_ensures(f, (&a, &y), m)]
            kview(a) == acc && kview(y) == items[0] && call_ensures(f, (&a, &y), m) && kview(m)
                == outs[0] && scan_result(f, kview(m), items.drop_first(), outs.drop_first())
    }
}

/// A list of results becomes an integer vector when every result is an
/// integer atom, and stays a list otherwise.
pub open spec fn simplified(s: Seq<KV>) -> KV {
    if s.len() > 0 && forall|i: int| 0 <= i < s.len() ==> (#[trigger] s[i]) is Atom {
        KV::Vector(s.map_values(|v: KV| v->Atom_0))
    } else {
        KV::List(s)
    }
}

/// Turn a list of atoms into a vector; leave other lists as they are.
fn simplify_list(v: Vec<K>) -> (r: K)
    requires
        v@.len() <= i64::MAX,
        all_wf(v@),
    ensures
        r.wf(),
        r@ == simplified(views(v@)),
{
    let ghost s = views(v@);
    if v.len() == 0 {
        return K::from_list(v);
    }
    let first_t = v[0].t;
    if first_t == -1 {
        let mut all = true;
        let mut ints: Vec<i64> = Vec::new();
        let mut i: usize = 0;
        while i < v.len()
            invariant
                i <= v@.len(),
                s == views(v@),
                all_wf(v@),
                ints@.len() == i,
                all <==> forall|j: int| 0 <= j < i ==> (#[trigger] s[j]) is Atom,
                all ==> forall|j: int| 0 <= j < i ==> #[trigger] ints@[j] == s[j]->Atom_0,
            decreases v@.len() - i,
        {
            proof {
                assert(kwf(v@[i as int]));
                v@[i as int].lemma_fields();
                assert(s[i as int] == kview(v@[i as int]));
            }
            if v[i].t == -1 {
                let x = v[i].ki_data()[0];
                ints.push(x);
            } else {
                all = false;
                ints.push(0);
            }
            i += 1;
        }
        if all {
            assert(ints@ =~= s.map_values(|v: KV| v->Atom_0));
            return K::from_ints(ints);
        }
    } else {
        proof {
            assert(kwf(v@[0]));
            v@[0].lemma_fields();
            assert(!(s[0] is Atom));
        }
    }
    K::from_list(v)
}

/// A defined fold can take its next step.
proof fn lemma_fold_can_call<F: Fn(&K, &K) -> K>(f: F, a: K, y: K, items: Seq<KV>)
    requires
        items.len() > 0,
        fold_ok(f, kview(a), items),
        kwf(a),
        kwf(y),
        kview(y) == items[0],
    ensures
        call_requires(f, (&a, &y)),
{
}

/// After a step of a defined fold, the rest of the fold is defined.
proof fn lemma_fold_next<F: Fn(&K, &K) -> K>(f: F, a: K, y: K, m: K, items: Seq<KV>)
    requires
        items.len() > 0,
        fold_ok(f, kview(a), items),
        kwf(a),
        kwf(y),
        kview(y) == items[0],
        call_ensures(f, (&a, &y), m),
    ensures
        kwf(m),
        fold_ok(f, kview(m), items.drop_first()),
{
    assert(call_requires(f, (&a, &y)));
}

/// Each step of a fold continues the fold of the remaining elements.
proof fn lemma_fold_step<F: Fn(&K, &K) -> K>(f: F, a: K, y: K, m: K, items: Seq<KV>, res: KV)
    requires
        items.len() > 0,
        kview(y) == items[0],
        call_ensures(f, (&a, &y), m),
        fold_result(f, kview(m), items.drop_first(), res),
    ensures
        fold_result(f, kview(a), items, res),
{
}

/// Each step of a running fold continues the running fold of the
/// remaining elements.
proof fn lemma_scan_step<F: Fn(&K, &K) -> K>(
    f: F,
    a: K,
    y: K,
    m: K,
    items: Seq<KV>,
    outs: Seq<KV>,
)
    requires
        items.len() > 0,
        kview(y) == items[0],
        call_ensures(f, (&a, &y), m),
        scan_result(f, kview(m), items.drop_first(), outs),
    ensures
        scan_result(f, kview(a), items, seq![kview(m)] + outs),
{
    assert((seq![kview(m)] + outs).drop_first() =~= outs);
}

/// Fold `f` from `acc` over the list items `v[start..]`.
fn fold_items<F: Fn(&K, &K) -> K>(f: &F, acc: K, v: &[K], start: usize) -> (r: K)
    requires
        acc.wf(),
        all_wf(v@),
        start <= v@.len(),
        fold_ok(*f, acc@, views(v@).skip(start as int)),
    ensures
        r.wf(),
        fold_result(*f, acc@, views(v@).skip(start as int), r@),
{
    let ghost s = views(v@);
    let ghost acc0 = acc@;
    let mut acc = acc;
    let mut i = start;
    while i < v.len()
        invariant
            start <= i <= v@.len(),
            s == views(v@),
            all_wf(v@),
            acc.wf(),
            fold_ok(*f, acc@, s.skip(i as int)),
            forall|res: KV|
                fold_result(*f, acc@, s.skip(i as int), res) ==> fold_result(
                    *f,
                    acc0,
                    s.skip(start as int),
                    res,
                ),
        decreases v@.len() - i,
    {
        let ghost rest = s.skip(i as int);
        proof {
            assert(kwf(v@[i as int]));
            assert(rest[0] == kview(v@[i as int]));
            assert(rest.drop_first() =~= s.skip(i as int + 1));
        }
        let ghost old_acc = acc;
        let y = &v[i];
        assert(kview(*y) == rest[0]);
        proof {
            lemma_fold_can_call(*f, acc, *y, rest);
        }
        let next = f(&acc, y);
        proof {
            lemma_fold_next(*f, old_acc, *y, next, rest);
            assert forall|res: KV| fold_result(*f, kview(next), s.skip(i as int + 1), res) implies fold_result(
                *f,
                acc0,
                s.skip(start as int),
                res,
            ) by {
                lemma_fold_step(*f, old_acc, *y, next, rest, res);
            }
        }
        acc = next;
        i += 1;
    }
    acc
}

/// Fold `f` from `acc` over the integers `v[start..]`, each as an atom.
fn fold_ints<F: Fn(&K, &K) -> K>(f: &F, acc: K, v: &[i64], start: usize) -> (r: K)
    requires
        acc.wf(),
        start <= v@.len(),
        fold_ok(*f, acc@, v@.map_values(|x: i64| KV::Atom(x)).skip(start as int)),
    ensures
        r.wf(),
        fold_result(*f, acc@, v@.map_values(|x: i64| KV::Atom(x)).skip(start as int), r@),
{
    let ghost s = v@.map_values(|x: i64| KV::Atom(x));
    let ghost acc0 = acc@;
    let mut acc = acc;
    let mut i = start;
    while i < v.len()
        invariant
            start <= i <= v@.len(),
            s == v@.map_values(|x: i64| KV::Atom(x)),
            acc.wf(),
            fold_ok(*f, acc@, s.skip(i as int)),
            forall|res: KV|
                fold_result(*f, acc@, s.skip(i as int), res) ==> fold_result(
                    *f,
                    acc0,
                    s.skip(start as int),
                    res,
                ),
        decreases v@.len() - i,
    {
        let ghost rest = s.skip(i as int);
        proof {
            assert(rest[0] == KV::Atom(v@[i as int]));
            assert(rest.drop_first() =~= s.skip(i as int + 1));
        }
        let item = K::ki(v[i]);
        let ghost old_acc = acc;
        proof {
            lemma_fold_can_call(*f, acc, item, rest);
        }
        let next = f(&acc, &item);
        proof {
            lemma_fold_next(*f, old_acc, item, next, rest);
            assert forall|res: KV| fold_result(*f, kview(next), s.skip(i as int + 1), res) implies fold_result(
                *f,
                acc0,
                s.skip(start as int),
                res,
            ) by {
                lemma_fold_step(*f, old_acc, item, next, rest, res);
            }
        }
        acc = next;
        i += 1;
    }
    acc
}

/// The fold that `over` starts: from the initial value, or from the first
/// element when there is none.
pub open spec fn over_ok<F: Fn(&K, &K) -> K>(f: F, init: Option<KV>, x: KV) -> bool {
    match init {
        Some(y) => fold_ok(f, y, walk_items(x)),
        None => walk_items(x).len() > 0 && fold_ok(f, walk_items(x)[0], walk_items(x).drop_first()),
    }
}

/// `r` is a possible outcome of `over` on a vector or a list.
pub open spec fn over_result<F: Fn(&K, &K) -> K>(f: F, init: Option<KV>, x: KV, r: KV) -> bool {
    match init {
        Some(y) => fold_result(f, y, walk_items(x), r),
        None => fold_result(f, walk_items(x)[0], walk_items(x).drop_first(), r),
    }
}

/// The model of an optional initial value.
pub open spec fn opt_view(init: Option<&K>) -> Option<KV> {
    match init {
        Some(y) => Some(kview(*y)),
        None => None,
    }
}

/// Over (`f/x`): fold `f` over the elements of `x`, from `init` when
/// given and from the first element otherwise. On an atom, `f` is applied
/// once to `init` and the atom, or the atom is returned.
pub fn over(f: impl Fn(&K, &K) -> K, init: Option<&K>, x: &K) -> (r: K)
    requires
        x.wf(),
        init matches Some(y) ==> y.wf(),
        x@ is Atom ==> (init matches Some(y) ==> call_requires(f, (y, x))),
        !(x@ is Atom) ==> over_ok(f, opt_view(init), x@),
    ensures
        x@ is Atom ==> match init {
            Some(y) => call_ensures(f, (y, x), r),
            None => r.wf() && r@ == x@,
        },
        !(x@ is Atom) ==> r.wf() && over_result(f, opt_view(init), x@, r@),
{
    proof {
        x.lemma_fields();
    }
    if x.t < 0 {
        match init {
            Some(y) => {
                return f(y, x);
            },
            None => {
                return x.deep_clone();
            },
        }
    }
    match &x.data {
        KData::Ints(v) => {
            assert(v@.map_values(|x: i64| KV::Atom(x)) =~= walk_items(x@));
            match init {
                Some(y) => {
                    let acc = y.deep_clone();
                    assert(v@.map_values(|x: i64| KV::Atom(x)).skip(0) =~= walk_items(x@));
                    fold_ints(&f, acc, v.as_slice(), 0)
                },
                None => {
                    let acc = K::ki(v[0]);
                    assert(v@.map_values(|x: i64| KV::Atom(x)).skip(1) =~= walk_items(x@).drop_first());
                    fold_ints(&f, acc, v.as_slice(), 1)
                },
            }
        },
        KData::List(l) => {
            match init {
                Some(y) => {
                    let acc = y.deep_clone();
                    assert(views(l@).skip(0) =~= walk_items(x@));
                    fold_items(&f, acc, l.as_slice(), 0)
                },
                None => {
                    proof {
                        assert(kwf(l@[0]));
                    }
                    let acc = l[0].deep_clone();
                    assert(views(l@).skip(1) =~= walk_items(x@).drop_first());
                    fold_items(&f, acc, l.as_slice(), 1)
                },
            }
        },
    }
}

/// The running fold of `f` from `acc` over the list items `v[start..]`:
/// the accumulator after each step.
fn scan_items<F: Fn(&K, &K) -> K>(f: &F, acc: K, v: &[K], start: usize) -> (outs: Vec<K>)
    requires
        acc.wf(),
        all_wf(v@),
        start <= v@.len(),
        fold_ok(*f, acc@, views(v@).skip(start as int)),
    ensures
        all_wf(outs@),
        outs@.len() == v@.len() - start,
        scan_result(*f, acc@, views(v@).skip(start as int), views(outs@)),
{
    let ghost s = views(v@);
    let ghost acc0 = acc@;
    let mut acc = acc;
    let mut results: Vec<K> = Vec::new();
    let mut i = start;
    while i < v.len()
        invariant
            start <= i <= v@.len(),
            s == views(v@),
            all_wf(v@),
            all_wf(results@),
            results@.len() == i - start,
            acc.wf(),
            fold_ok(*f, acc@, s.skip(i as int)),
            forall|outs: Seq<KV>|
                scan_result(*f, acc@, s.skip(i as int), outs) ==> scan_result(
                    *f,
                    acc0,
                    s.skip(start as int),
                    views(results@) + outs,
                ),
        decreases v@.len() - i,
    {
        let ghost rest = s.skip(i as int);
        proof {
            assert(kwf(v@[i as int]));
            assert(rest[0] == kview(v@[i as int]));
            assert(rest.drop_first() =~= s.skip(i as int + 1));
        }
        let ghost old_acc = acc;
        let ghost old_results = results@;
        let y = &v[i];
        proof {
            lemma_fold_can_call(*f, acc, *y, rest);
        }
        let next = f(&acc, y);
        proof {
            lemma_fold_next(*f, old_acc, *y, next, rest);
        }
        let c = next.deep_clone();
        results.push(c);
        proof {
            assert(views(results@) =~= views(old_results).push(kview(next)));
            assert forall|outs: Seq<KV>| scan_result(*f, kview(next), s.skip(i as int + 1), outs) implies scan_result(
                *f,
                acc0,
                s.skip(start as int),
                views(results@) + outs,
            ) by {
                lemma_scan_step(*f, old_acc, *y, next, rest, outs);
                assert(views(old_results) + (seq![kview(next)] + outs) =~= views(results@) + outs);
            }
        }
        acc = next;
        i += 1;
    }
    assert(s.skip(i as int).len() == 0);
    assert(scan_result(*f, acc@, s.skip(i as int), Seq::<KV>::empty()));
    assert(views(results@) + Seq::<KV>::empty() =~= views(results@));
    results
}

/// The atoms of the integers `v`.
fn atoms_of(v: &[i64]) -> (r: Vec<K>)
    ensures
        all_wf(r@),
        views(r@) == v@.map_values(|x: i64| KV::Atom(x)),
{
    let mut r: Vec<K> = Vec::new();
    let mut i: usize = 0;
    while i < v.len()
        invariant
            i <= v@.len(),
            r@.len() == i,
            all_wf(r@),
            forall|j: int| 0 <= j < i ==> kview(#[trigger] r@[j]) == KV::Atom(v@[j]),
        decreases v@.len() - i,
    {
        r.push(K::ki(v[i]));
        i += 1;
    }
    assert(views(r@) =~= v@.map_values(|x: i64| KV::Atom(x)));
    r
}

/// What `scan` returns on a vector or a list: the running results, as a
/// vector when they are all atoms.
pub open spec fn scan_outcome<F: Fn(&K, &K) -> K>(f: F, init: Option<KV>, x: KV, r: KV) -> bool {
    match init {
        Some(y) => exists|outs: Seq<KV>| scan_result(f, y, walk_items(x), outs) && r == simplified(outs),
        None => exists|outs: Seq<KV>|
            scan_result(f, walk_items(x)[0], walk_items(x).drop_first(), outs) && r == simplified(
                seq![walk_items(x)[0]] + outs,
            ),
    }
}

/// Scan (`f\x`): like `over`, but keeps every intermediate result: the
/// results after each element, preceded by the first element when there
/// is no initial value.
pub fn scan(f: impl Fn(&K, &K) -> K, init: Option<&K>, x: &K) -> (r: K)
    requires
        x.wf(),
        init matches Some(y) ==> y.wf(),
        x@ is Atom ==> (init matches Some(y) ==> call_requires(f, (y, x))),
        !(x@ is Atom) ==> over_ok(f, opt_view(init), x@),
    ensures
        x@ is Atom ==> match init {
            Some(y) => call_ensures(f, (y, x), r),
            None => r.wf() && r@ == x@,
        },
        !(x@ is Atom) ==> r.wf() && scan_outcome(f, opt_view(init), x@, r@),
{
    proof {
        x.lemma_fields();
    }
    if x.t < 0 {
        match init {
            Some(y) => {
                return f(y, x);
            },
            None => {
                return x.deep_clone();
            },
        }
    }
    let items: Vec<K> = match &x.data {
        KData::Ints(v) => atoms_of(v.as_slice()),
        KData::List(l) => {
            let mut c: Vec<K> = Vec::new();
            let mut i: usize = 0;
            while i < l.len()
                invariant
                    i <= l@.len(),
                    all_wf(l@),
                    c@.len() == i,
                    all_wf(c@),
                    forall|j: int| 0 <= j < i ==> kview(#[trigger] c@[j]) == kview(l@[j]),
                decreases l@.len() - i,
            {
                proof {
                    assert(kwf(l@[i as int]));
                }
                c.push(l[i].deep_clone());
                i += 1;
            }
            assert(views(c@) =~= views(l@));
            c
        },
    };
    assert(views(items@) == walk_items(x@));
    assert(items@.len() <= i64::MAX);
    match init {
        Some(y) => {
            let acc = y.deep_clone();
            assert(views(items@).skip(0) =~= walk_items(x@));
            let outs = scan_items(&f, acc, items.as_slice(), 0);
            let r = simplify_list(outs);
            r
        },
        None => {
            proof {
                assert(kwf(items@[0]));
                assert(views(items@)[0] == kview(items@[0]));
            }
            let first = items[0].deep_clone();
            let acc = items[0].deep_clone();
            assert(views(items@).skip(1) =~= walk_items(x@).drop_first());
            let mut outs = scan_items(&f, acc, items.as_slice(), 1);
            let mut results: Vec<K> = Vec::new();
            results.push(first);
            let ghost outs_v = views(outs@);
            results.append(&mut outs);
            assert(views(results@) =~= seq![walk_items(x@)[0]] + outs_v);
            let r = simplify_list(results);
            r
        },
    }
}

/// Each application of `f` to an element is defined and gives a
/// well-formed value, for every well-formed value with that element's model.
pub open spec fn each_ok<F: Fn(&K) -> K>(f: F, items: Seq<KV>) -> bool {
    &&& forall|i: int, y: K|
        #![trigger items[i], call_requires(f, (&y,))]
        0 <= i < items.len() && kwf(y) && kview(y) == items[i] ==> call_requires(f, (&y,))
    &&& forall|i: int, y: K, r: K|
        #![trigger items[i], call_ensures(f, (&y,), r)]
        0 <= i < items.len() && kwf(y) && kview(y) == items[i] && call_ensures(f, (&y,), r) ==> kwf(r)
}

/// `outs` is a possible sequence of results of applying `f` to each of
/// `items`.
pub open spec fn each_result<F: Fn(&K) -> K>(f: F, items: Seq<KV>, outs: Seq<KV>) -> bool {
    &&& outs.len() == items.len()
    &&& exists|ys: Seq<K>, ms: Seq<K>|
        #![trigger ys.len(), ms.len()]
        ys.len() == items.len() && ms.len() == items.len() && forall|i: int|
            0 <= i < items.len() ==> kview(#[trigger] ys[i]) == items[i] && call_ensures(
                f,
                (&ys[i],),
                ms[i],
            ) && kview(ms[i]) == outs[i]
}

proof fn lemma_each_can_call<F: Fn(&K) -> K>(f: F, y: K, items: Seq<KV>, i: int)
    requires
        each_ok(f, items),
        0 <= i < items.len(),
        kwf(y),
        kview(y) == items[i],
    ensures
        call_requires(f, (&y,)),
        forall|r: K| call_ensures(f, (&y,), r) ==> kwf(r),
{
    assert(items[i] == items[i]);
}

/// Each (`f'x`): `f` applied to every element of `x`, the results as a
/// vector when they are all atoms; on an atom, `f` applied to it.
pub fn each(f: impl Fn(&K) -> K, x: &K) -> (r: K)
    requires
        x.wf(),
        x@ is Atom ==> call_requires(f, (x,)),
        !(x@ is Atom) ==> each_ok(f, walk_items(x@)),
    ensures
        x@ is Atom ==> call_ensures(f, (x,), r),
        !(x@ is Atom) ==> r.wf() && exists|outs: Seq<KV>|
            each_result(f, walk_items(x@), outs) && r@ == simplified(outs),
{
    proof {
        x.lemma_fields();
    }
    if x.t < 0 {
        return f(x);
    }
    let items: Vec<K> = match &x.data {
        KData::Ints(v) => atoms_of(v.as_slice()),
        KData::List(l) => {
            let mut c: Vec<K> = Vec::new();
            let mut i: usize = 0;
            while i < l.len()
                invariant
                    i <= l@.len(),
                    all_wf(l@),
                    c@.len() == i,
                    all_wf(c@),
                    forall|j: int| 0 <= j < i ==> kview(#[trigger] c@[j]) == kview(l@[j]),
                decreases l@.len() - i,
            {
                proof {
                    assert(kwf(l@[i as int]));
                }
                c.push(l[i].deep_clone());
                i += 1;
            }
            assert(views(c@) =~= views(l@));
            c
        },
    };
    let ghost s = walk_items(x@);
    assert(views(items@) == s);
    let mut res: Vec<K> = Vec::new();
    let ghost mut ys: Seq<K> = Seq::empty();
    let mut i: usize = 0;
    while i < items.len()
        invariant
            i <= items@.len(),
            items@.len() <= i64::MAX,
            all_wf(items@),
            views(items@) == s,
            each_ok(f, s),
            res@.len() == i,
            ys.len() == i,
            all_wf(res@),
            forall|j: int|
                0 <= j < i ==> kview(#[trigger] ys[j]) == s[j] && call_ensures(f, (&ys[j],), res@[j]),
        decreases items@.len() - i,
    {
        let y = &items[i];
        proof {
            assert(kwf(items@[i as int]));
            assert(s[i as int] == kview(*y));
            lemma_each_can_call(f, *y, s, i as int);
        }
        let m = f(y);
        proof {
            assert(kwf(m));
        }
        res.push(m);
        proof {
            ys = ys.push(*y);
        }
        i += 1;
    }
    proof {
        let outs = views(res@);
        assert(outs.len() == s.len());
        assert forall|i: int| 0 <= i < s.len() implies kview(#[trigger] ys[i]) == s[i] && call_ensures(
            f,
            (&ys[i],),
            res@[i],
        ) && kview(res@[i]) == outs[i] by {}
        assert(ys.len() == s.len() && res@.len() == s.len());
        assert(each_result(f, s, outs));
    }
    simplify_list(res)
}

} // verus!
