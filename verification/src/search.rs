//! Searching verbs: find, find all, where and unique.

use vstd::prelude::*;
use std::collections::{HashMap, HashSet};
use crate::k::{K, KData, KV, kview, kwf, views, all_wf};
use crate::va::{kmatch, k_match};

verus! {

/// The position of the first `t` in `s`, or the length of `s` when `t`
/// does not occur.
pub open spec fn first_index(s: Seq<i64>, t: i64) -> int {
    if exists|i: int| 0 <= i < s.len() && s[i] == t {
        choose|i: int| 0 <= i < s.len() && s[i] == t && (forall|j: int| 0 <= j < i ==> s[j] != t)
    } else {
        s.len() as int
    }
}

/// The position of the first item of `s` that matches `b`, or the length
/// of `s` when none does.
pub open spec fn first_match(s: Seq<KV>, b: KV) -> int {
    if exists|i: int| 0 <= i < s.len() && kmatch(s[i], b) {
        choose|i: int|
            0 <= i < s.len() && kmatch(s[i], b) && (forall|j: int| 0 <= j < i ==> !kmatch(s[j], b))
    } else {
        s.len() as int
    }
}

/// Linear search for the first `t` in `a`.
fn position_of(a: &[i64], t: i64) -> (r: usize)
    ensures
        r == first_index(a@, t),
        r <= a@.len(),
{
    let mut i: usize = 0;
    while i < a.len()
        invariant
            i <= a@.len(),
            forall|j: int| 0 <= j < i ==> a@[j] != t,
        decreases a@.len() - i,
    {
        if a[i] == t {
            proof {
                let w = choose|w: int|
                    0 <= w < a@.len() && a@[w] == t && (forall|j: int| 0 <= j < w ==> a@[j] != t);
                assert(0 <= w < a@.len() && a@[w] == t && (forall|j: int| 0 <= j < w ==> a@[j] != t));
                assert(w == i);
            }
            return i;
        }
        i += 1;
    }
    i
}

/// Linear search for the first item of `items` that matches `b`.
fn position_of_match(items: &[K], b: &K) -> (r: usize)
    requires
        all_wf(items@),
        b.wf(),
    ensures
        r == first_match(views(items@), b@),
        r <= items@.len(),
{
    let ghost s = views(items@);
    let mut i: usize = 0;
    while i < items.len()
        invariant
            i <= items@.len(),
            s == views(items@),
            all_wf(items@),
            b.wf(),
            forall|j: int| 0 <= j < i ==> !kmatch(#[trigger] s[j], b@),
        decreases items@.len() - i,
    {
        proof {
            assert(kwf(items@[i as int]));
        }
        if k_match(&items[i], b) {
            proof {
                assert(kmatch(s[i as int], b@));
                let w = choose|w: int|
                    0 <= w < s.len() && kmatch(s[w], b@) && (forall|j: int| 0 <= j < w ==> !kmatch(s[j], b@));
                assert(0 <= w < s.len() && kmatch(s[w], b@) && (forall|j: int|
                    0 <= j < w ==> !kmatch(s[j], b@)));
                assert(w == i);
            }
            return i;
        }
        i += 1;
    }
    proof {
        assert forall|j: int| 0 <= j < s.len() implies !kmatch(s[j], b@) by {}
    }
    i
}

/// The value of `a ? b`.
pub open spec fn find_of(a: KV, b: KV) -> KV {
    if a.is_num() {
        if b.ints().len() == 0 {
            KV::Atom(a.ints().len() as i64)
        } else {
            KV::Atom(first_index(a.ints(), b.ints()[0]) as i64)
        }
    } else {
        KV::Atom(first_match(a.items(), b) as i64)
    }
}

/// Find (`a ? b`): the position of the first element of `a` equal to the
/// first integer of `b` when `a` holds integers, the position of the first
/// item of `a` that matches `b` when `a` is a list; the length of `a` when
/// there is none.
pub fn find(a: &K, b: &K) -> (r: K)
    requires
        a.wf(),
        b.wf(),
        !(a@.is_num() && b@.is_list()),
    ensures
        r.wf(),
        r@ == find_of(a@, b@),
{
    proof {
        a.lemma_fields();
        b.lemma_fields();
    }
    match &a.data {
        KData::Ints(ai) => {
            let bi = b.ki_data();
            if bi.len() == 0 {
                return K::ki(ai.len() as i64);
            }
            let target = bi[0];
            let p = position_of(ai.as_slice(), target);
            K::ki(p as i64)
        },
        KData::List(items) => {
            let p = position_of_match(items.as_slice(), b);
            K::ki(p as i64)
        },
    }
}

/// Find all (`a ? b` for two integer vectors): the position in `a` of each
/// element of `b`, or the length of `a` for an element that does not occur.
pub fn find_all(a: &K, b: &K) -> (r: K)
    requires
        a.wf(),
        b.wf(),
        a@.is_num(),
        b@.is_num(),
    ensures
        r.wf(),
        r@ == KV::Vector(Seq::new(b@.ints().len(), |j: int| first_index(a@.ints(), b@.ints()[j]) as i64)),
{
    proof {
        a.lemma_fields();
        b.lemma_fields();
    }
    broadcast use vstd::std_specs::hash::group_hash_axioms;
    let ai = a.ki_data();
    let bi = b.ki_data();
    let mut index: HashMap<i64, usize> = HashMap::new();
    let mut i: usize = 0;
    while i < ai.len()
        invariant
            i <= ai@.len(),
            forall|w: i64| #[trigger] index@.contains_key(w) <==> exists|j: int| 0 <= j < i && ai@[j] == w,
            forall|w: i64|
                #[trigger] index@.contains_key(w) ==> {
                    let p = index@[w] as int;
                    0 <= p < i && ai@[p] == w && forall|j: int| 0 <= j < p ==> ai@[j] != w
                },
        decreases ai@.len() - i,
    {
        let v = ai[i];
        if !index.contains_key(&v) {
            index.insert(v, i);
            assert forall|w: i64| #[trigger] index@.contains_key(w) implies exists|j: int| 0 <= j < i + 1 && ai@[j] == w by {
                if w == v {
                    assert(ai@[i as int] == w);
                } else {
                    let j = choose|j: int| 0 <= j < i && ai@[j] == w;
                }
            }
        }
        i += 1;
    }
    let an = ai.len() as i64;
    let mut result: Vec<i64> = Vec::new();
    let mut j: usize = 0;
    while j < bi.len()
        invariant
            j <= bi@.len(),
            bi@.len() <= i64::MAX,
            ai@.len() <= i64::MAX,
            an == ai@.len(),
            result@.len() == j,
            forall|w: i64| #[trigger] index@.contains_key(w) <==> exists|k: int| 0 <= k < ai@.len() && ai@[k] == w,
            forall|w: i64|
                #[trigger] index@.contains_key(w) ==> {
                    let p = index@[w] as int;
                    0 <= p < ai@.len() && ai@[p] == w && forall|k: int| 0 <= k < p ==> ai@[k] != w
                },
            forall|jj: int| 0 <= jj < j ==> #[trigger] result@[jj] == first_index(ai@, bi@[jj]) as i64,
        decreases bi@.len() - j,
    {
        let t = bi[j];
        let p: i64 = match index.get(&t) {
            Some(p) => *p as i64,
            None => an,
        };
        proof {
            if index@.contains_key(t) {
                let w = choose|w: int|
                    0 <= w < ai@.len() && ai@[w] == t && (forall|k: int| 0 <= k < w ==> ai@[k] != t);
                assert(0 <= w < ai@.len() && ai@[w] == t && (forall|k: int| 0 <= k < w ==> ai@[k] != t));
                let q = index@[t] as int;
                assert(w == q);
            }
        }
        result.push(p);
        j += 1;
    }
    let r = K::from_ints(result);
    assert(r@ =~= KV::Vector(
        Seq::new(b@.ints().len(), |j: int| first_index(a@.ints(), b@.ints()[j]) as i64),
    ));
    r
}

/// `where x`: each position `i` repeated `x[i]` times (never for a
/// negative count), in order.
pub open spec fn where_of(s: Seq<i64>) -> Seq<i64>
    decreases s.len(),
{
    if s.len() == 0 {
        Seq::empty()
    } else {
        let c = s.last();
        where_of(s.drop_last()) + Seq::new(if c > 0 { c as nat } else { 0 }, |j: int| (s.len() - 1) as i64)
    }
}

/// Where (`&x`): expand a vector of counts into the positions they count.
pub fn kona_where(x: &K) -> (r: K)
    requires
        x.wf(),
        x@.is_num(),
        where_of(x@.ints()).len() <= i64::MAX,
    ensures
        r.wf(),
        r@ == KV::Vector(where_of(x@.ints())),
{
    proof {
        x.lemma_fields();
    }
    let data = x.ki_data();
    let mut z: Vec<i64> = Vec::new();
    let mut i: usize = 0;
    while i < data.len()
        invariant
            i <= data@.len(),
            data@.len() <= i64::MAX,
            z@ == where_of(data@.take(i as int)),
        decreases data@.len() - i,
    {
        let count = data[i];
        let mut c: i64 = 0;
        let ghost before = z@;
        while c < count
            invariant
                0 <= c,
                count <= 0 ==> c == 0,
                count > 0 ==> c <= count,
                i < data@.len(),
                data@.len() <= i64::MAX,
                z@ == before + Seq::new(c as nat, |j: int| i as i64),
            decreases count - c,
        {
            z.push(i as i64);
            c += 1;
            assert(z@ =~= before + Seq::new(c as nat, |j: int| i as i64));
        }
        proof {
            let t = data@.take(i as int + 1);
            assert(t.drop_last() =~= data@.take(i as int));
            assert(t.last() == count);
            assert(t.len() - 1 == i);
            assert(z@ =~= where_of(t));
        }
        i += 1;
    }
    assert(data@.take(data@.len() as int) =~= data@);
    K::from_ints(z)
}

/// The distinct integers of `s` in order of first appearance.
pub open spec fn dedup_ints(s: Seq<i64>) -> Seq<i64>
    decreases s.len(),
{
    if s.len() == 0 {
        s
    } else {
        let d = dedup_ints(s.drop_last());
        if d.contains(s.last()) {
            d
        } else {
            d.push(s.last())
        }
    }
}

/// The items of `s` that match no earlier item, in order.
pub open spec fn dedup_items(s: Seq<KV>) -> Seq<KV>
    decreases s.len(),
{
    if s.len() == 0 {
        s
    } else {
        let d = dedup_items(s.drop_last());
        if exists|i: int| 0 <= i < d.len() && kmatch(s.last(), d[i]) {
            d
        } else {
            d.push(s.last())
        }
    }
}

proof fn lemma_dedup_ints_len(s: Seq<i64>)
    ensures
        dedup_ints(s).len() <= s.len(),
    decreases s.len(),
{
    if s.len() > 0 {
        lemma_dedup_ints_len(s.drop_last());
    }
}

proof fn lemma_dedup_items_len(s: Seq<KV>)
    ensures
        dedup_items(s).len() <= s.len(),
    decreases s.len(),
{
    if s.len() > 0 {
        lemma_dedup_items_len(s.drop_last());
    }
}

/// The value of `?x`.
pub open spec fn unique_of(x: KV) -> KV {
    match x {
        KV::Atom(_) => x,
        KV::Vector(s) => KV::Vector(dedup_ints(s)),
        KV::List(l) => KV::List(dedup_items(l)),
    }
}

/// Unique (`?x`): the distinct elements of a vector, or the items of a list
/// that match no earlier item, in order of first appearance. An atom is
/// returned as it is.
pub fn unique(x: &K) -> (r: K)
    requires
        x.wf(),
    ensures
        r.wf(),
        r@ == unique_of(x@),
{
    proof {
        x.lemma_fields();
    }
    if x.t < 0 {
        return x.deep_clone();
    }
    match &x.data {
        KData::Ints(v) => {
            broadcast use vstd::std_specs::hash::group_hash_axioms;
            let mut seen: HashSet<i64> = HashSet::new();
            let mut unique_v: Vec<i64> = Vec::new();
            let mut i: usize = 0;
            while i < v.len()
                invariant
                    i <= v@.len(),
                    unique_v@ == dedup_ints(v@.take(i as int)),
                    forall|w: i64| #[trigger] seen@.contains(w) <==> unique_v@.contains(w),
                decreases v@.len() - i,
            {
                let val = v[i];
                let ghost t = v@.take(i as int + 1);
                proof {
                    assert(t.drop_last() =~= v@.take(i as int));
                    assert(t.last() == val);
                }
                let ghost before = unique_v@;
                if seen.insert(val) {
                    unique_v.push(val);
                    assert forall|w: i64| #[trigger] seen@.contains(w) <==> unique_v@.contains(w) by {
                        if w == val {
                            assert(unique_v@[before.len() as int] == val);
                        }
                        if unique_v@.contains(w) && w != val {
                            let kk = choose|kk: int| 0 <= kk < unique_v@.len() && unique_v@[kk] == w;
                            assert(before[kk] == w);
                        }
                        if before.contains(w) {
                            let kk = choose|kk: int| 0 <= kk < before.len() && before[kk] == w;
                            assert(unique_v@[kk] == w);
                        }
                    }
                }
                assert(unique_v@ == dedup_ints(v@.take(i as int + 1)));
                i += 1;
            }
            assert(v@.take(v@.len() as int) =~= v@);
            proof {
                lemma_dedup_ints_len(v@);
            }
            let n = unique_v.len() as i64;
            K { t: x.t, n, data: KData::Ints(unique_v) }
        },
        KData::List(v) => {
            let ghost s = views(v@);
            let mut unique_v: Vec<K> = Vec::new();
            let mut i: usize = 0;
            while i < v.len()
                invariant
                    i <= v@.len(),
                    s == views(v@),
                    all_wf(v@),
                    all_wf(unique_v@),
                    views(unique_v@) == dedup_items(s.take(i as int)),
                decreases v@.len() - i,
            {
                proof {
                    assert(kwf(v@[i as int]));
                }
                let item = &v[i];
                let mut found = false;
                let mut k: usize = 0;
                while k < unique_v.len()
                    invariant
                        k <= unique_v@.len(),
                        all_wf(unique_v@),
                        item.wf(),
                        found <==> exists|kk: int|
                            0 <= kk < k && kmatch(item@, #[trigger] kview(unique_v@[kk])),
                    decreases unique_v@.len() - k,
                {
                    proof {
                        assert(kwf(unique_v@[k as int]));
                    }
                    if k_match(item, &unique_v[k]) {
                        found = true;
                    }
                    k += 1;
                }
                proof {
                    let t = s.take(i as int + 1);
                    let d = views(unique_v@);
                    assert(t.drop_last() =~= s.take(i as int));
                    assert(t.last() == item@);
                    if found {
                        let kk = choose|kk: int| 0 <= kk < k && kmatch(item@, kview(unique_v@[kk]));
                        assert(d[kk] == kview(unique_v@[kk]));
                    } else {
                        assert forall|kk: int| 0 <= kk < d.len() implies !kmatch(t.last(), d[kk]) by {
                            assert(d[kk] == kview(unique_v@[kk]));
                        }
                    }
                }
                let ghost prev = unique_v@;
                if !found {
                    let c = item.deep_clone();
                    unique_v.push(c);
                    assert(views(unique_v@) =~= views(prev).push(item@));
                }
                assert(views(unique_v@) == dedup_items(s.take(i as int + 1)));
                i += 1;
            }
            assert(s.take(v@.len() as int) =~= s);
            proof {
                lemma_dedup_items_len(s);
            }
            let n = unique_v.len() as i64;
            let r = K { t: x.t, n, data: KData::List(unique_v) };
            assert(r@.items() =~= dedup_items(s));
            r
        },
    }
}

/// Find on integers gives the position of the first occurrence of the
/// first integer of `b` in `a`: every earlier element differs from it, the
/// element there equals it, and the length of `a` means it does not occur.
/// With no integer to look for it gives the length of `a`.
pub proof fn lemma_find_first_occurrence(a: KV, b: KV)
    requires
        a.is_num(),
        b.is_num(),
        a.ints().len() <= i64::MAX,
    ensures
        find_of(a, b) is Atom,
        0 <= find_of(a, b).ints()[0] <= a.ints().len(),
        b.ints().len() == 0 ==> find_of(a, b).ints()[0] == a.ints().len(),
        b.ints().len() > 0 ==> forall|j: int|
            0 <= j < find_of(a, b).ints()[0] ==> #[trigger] a.ints()[j] != b.ints()[0],
        b.ints().len() > 0 && find_of(a, b).ints()[0] < a.ints().len() ==> a.ints()[find_of(a, b).ints()[0] as int]
            == b.ints()[0],
        b.ints().len() > 0 && find_of(a, b).ints()[0] == a.ints().len() ==> forall|j: int|
            0 <= j < a.ints().len() ==> #[trigger] a.ints()[j] != b.ints()[0],
{
    if b.ints().len() > 0 {
        let s = a.ints();
        let t = b.ints()[0];
        if exists|i: int| 0 <= i < s.len() && s[i] == t {
            let i0 = choose|i: int| 0 <= i < s.len() && s[i] == t;
            lemma_first_occurrence_exists(s, t, i0);
        }
    }
}

proof fn lemma_first_occurrence_exists(s: Seq<i64>, t: i64, i0: int)
    requires
        0 <= i0 < s.len(),
        s[i0] == t,
    ensures
        exists|i: int| 0 <= i < s.len() && s[i] == t && (forall|j: int| 0 <= j < i ==> s[j] != t),
    decreases i0,
{
    if exists|j: int| 0 <= j < i0 && s[j] == t {
        let j = choose|j: int| 0 <= j < i0 && s[j] == t;
        lemma_first_occurrence_exists(s, t, j);
    } else {
        assert(0 <= i0 < s.len() && s[i0] == t && (forall|j: int| 0 <= j < i0 ==> s[j] != t));
    }
}

proof fn lemma_first_match_exists(s: Seq<KV>, b: KV, i0: int)
    requires
        0 <= i0 < s.len(),
        kmatch(s[i0], b),
    ensures
        exists|i: int| 0 <= i < s.len() && kmatch(s[i], b) && (forall|j: int| 0 <= j < i ==> !kmatch(s[j], b)),
    decreases i0,
{
    if exists|j: int| 0 <= j < i0 && kmatch(s[j], b) {
        let j = choose|j: int| 0 <= j < i0 && kmatch(s[j], b);
        lemma_first_match_exists(s, b, j);
    } else {
        assert(0 <= i0 < s.len() && kmatch(s[i0], b) && (forall|j: int| 0 <= j < i0 ==> !kmatch(s[j], b)));
    }
}

/// Find on a list gives the position of the first item that matches `b`:
/// no earlier item matches, the item there matches, and the length of the
/// list means that no item matches.
pub proof fn lemma_find_first_match(l: Seq<KV>, b: KV)
    requires
        l.len() <= i64::MAX,
    ensures
        find_of(KV::List(l), b) is Atom,
        0 <= find_of(KV::List(l), b).ints()[0] <= l.len(),
        forall|j: int| 0 <= j < find_of(KV::List(l), b).ints()[0] ==> !kmatch(#[trigger] l[j], b),
        find_of(KV::List(l), b).ints()[0] < l.len() ==> kmatch(l[find_of(KV::List(l), b).ints()[0] as int], b),
        find_of(KV::List(l), b).ints()[0] == l.len() ==> forall|j: int| 0 <= j < l.len() ==> !kmatch(#[trigger] l[j], b),
{
    if exists|i: int| 0 <= i < l.len() && kmatch(l[i], b) {
        let i0 = choose|i: int| 0 <= i < l.len() && kmatch(l[i], b);
        lemma_first_match_exists(l, b, i0);
    }
}

/// Find all looks up each element of `b` as find looks up an atom: its
/// position `j` holds `a ? b[j]`.
pub proof fn lemma_find_all_is_find_each(a: KV, b: Seq<i64>, j: int)
    requires
        a.is_num(),
        0 <= j < b.len(),
    ensures
        find_of(a, KV::Atom(b[j])) == KV::Atom(first_index(a.ints(), b[j]) as i64),
{
}

} // verus!
