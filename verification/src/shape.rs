//! Structural verbs: first, reverse, take, transpose and gather.

use vstd::prelude::*;
use vstd::arithmetic::div_mod::*;
use crate::k::{K, KData, KV, kview, kwf, views, all_wf};

verus! {

/// A sequence in reverse order.
pub open spec fn reversed<A>(s: Seq<A>) -> Seq<A> {
    Seq::new(s.len(), |i: int| s[s.len() - 1 - i])
}

/// The value of `first x`.
pub open spec fn first_of(x: KV) -> KV {
    match x {
        KV::Atom(_) => x,
        KV::Vector(s) => if s.len() == 0 {
            KV::Atom(0)
        } else {
            KV::Atom(s[0])
        },
        KV::List(l) => if l.len() == 0 {
            x
        } else {
            l[0]
        },
    }
}

/// First (`*x`): an atom itself, the first element of a vector or a list;
/// 0 for an empty vector and the empty list itself for an empty list.
pub fn first(x: &K) -> (r: K)
    requires
        x.wf(),
    ensures
        r.wf(),
        r@ == first_of(x@),
{
    proof {
        x.lemma_fields();
    }
    if x.t < 0 {
        return x.deep_clone();
    }
    match &x.data {
        KData::Ints(v) => {
            if v.len() == 0 {
                K::ki(0)
            } else {
                K::ki(v[0])
            }
        },
        KData::List(v) => {
            if v.len() == 0 {
                x.deep_clone()
            } else {
                proof {
                    assert(kwf(v@[0]));
                    assert(x@.items()[0] == kview(v@[0]));
                }
                v[0].deep_clone()
            }
        },
    }
}

/// The value of `|x`.
pub open spec fn reverse_of(x: KV) -> KV {
    match x {
        KV::Atom(_) => x,
        KV::Vector(s) => KV::Vector(reversed(s)),
        KV::List(l) => KV::List(reversed(l)),
    }
}

/// Reverse (`|x`): the elements of a vector or the items of a list in
/// reverse order; an atom is its own reverse.
pub fn reverse(x: &K) -> (r: K)
    requires
        x.wf(),
    ensures
        r.wf(),
        r@ == reverse_of(x@),
{
    proof {
        x.lemma_fields();
    }
    if x.t < 0 {
        return x.deep_clone();
    }
    match &x.data {
        KData::Ints(v) => {
            let mut rev: Vec<i64> = Vec::new();
            let len = v.len();
            let mut i: usize = 0;
            while i < len
                invariant
                    len == v@.len(),
                    i <= len,
                    rev@.len() == i,
                    forall|j: int| 0 <= j < i ==> #[trigger] rev@[j] == v@[len - 1 - j],
                decreases len - i,
            {
                rev.push(v[len - 1 - i]);
                i += 1;
            }
            assert(rev@ =~= reversed(v@));
            K { t: x.t, n: x.n, data: KData::Ints(rev) }
        },
        KData::List(v) => {
            let mut rev: Vec<K> = Vec::new();
            let len = v.len();
            let mut i: usize = 0;
            while i < len
                invariant
                    len == v@.len(),
                    i <= len,
                    rev@.len() == i,
                    all_wf(v@),
                    all_wf(rev@),
                    forall|j: int| 0 <= j < i ==> kview(#[trigger] rev@[j]) == kview(v@[len - 1 - j]),
                decreases len - i,
            {
                proof {
                    assert(kwf(v@[len - 1 - i]));
                }
                rev.push(v[len - 1 - i].deep_clone());
                i += 1;
            }
            let r = K { t: x.t, n: x.n, data: KData::List(rev) };
            assert(r@.items() =~= reversed(x@.items()));
            r
        },
    }
}

/// The index that element `i` of `n # y` takes from a side of length `y`,
/// where the result has `len == |n|` elements: counting from the front
/// for `n >= 0`, from the back for `n < 0`, cycling.
pub open spec fn take_index(n: int, len: int, y: int, i: int) -> int {
    if n >= 0 {
        i % y
    } else {
        (i - len) % y
    }
}

/// `n # y` is defined: `n` is one integer other than the least `i64`, and
/// a nonempty take does not draw from an empty side.
pub open spec fn take_ok(a: KV, b: KV) -> bool {
    &&& a.is_num()
    &&& a.ints().len() == 1
    &&& a.ints()[0] != i64::MIN
    &&& (b.len() == 0 ==> a.ints()[0] == 0)
}

/// The value of `n # y`, where `n` is the one integer of `a`.
pub open spec fn take_of(a: KV, b: KV) -> KV {
    let n = a.ints()[0] as int;
    let len = if n >= 0 { n } else { -n };
    match b {
        KV::List(l) => KV::List(Seq::new(len as nat, |i: int| l[take_index(n, len, l.len() as int, i)])),
        _ => KV::Vector(
            Seq::new(len as nat, |i: int| b.ints()[take_index(n, len, b.ints().len() as int, i)]),
        ),
    }
}

proof fn lemma_back_index(len: int, i: int, y: int)
    requires
        0 <= i < len,
        y > 0,
    ensures
        (y - (len - i) % y) % y == (i - len) % y,
        0 <= (i - len) % y < y,
{
    let k = len - i;
    let m = k % y;
    lemma_fundamental_div_mod(k, y);
    lemma_mod_bound(k, y);
    let q = k / y;
    if m == 0 {
        assert(i - len == (-q) * y + 0) by (nonlinear_arith)
            requires
                k == y * q + m,
                m == 0,
                k == len - i,
        ;
        lemma_fundamental_div_mod_converse_mod(i - len, y, -q, 0);
        lemma_fundamental_div_mod_converse_mod(y - m, y, 1, 0);
    } else {
        assert(i - len == (-q - 1) * y + (y - m)) by (nonlinear_arith)
            requires
                k == y * q + m,
                k == len - i,
        ;
        lemma_fundamental_div_mod_converse_mod(i - len, y, -q - 1, y - m);
        lemma_fundamental_div_mod_converse_mod(y - m, y, 0, y - m);
    }
}

/// The index of element `i` of a take, as the loop computes it.
fn take_position(n: i64, len: usize, y: usize, i: usize) -> (idx: usize)
    requires
        i < len,
        y > 0,
    ensures
        idx == take_index(n as int, len as int, y as int, i as int),
        idx < y,
{
    if n >= 0 {
        proof {
            lemma_mod_bound(i as int, y as int);
        }
        i % y
    } else {
        proof {
            lemma_back_index(len as int, i as int, y as int);
            lemma_mod_bound((len - i) as int, y as int);
        }
        (y - (len - i) % y) % y
    }
}

/// Take (`n # y`): `|n|` elements of `y`, from the front for `n >= 0` and
/// from the back for `n < 0`, cycling through `y` when `|n|` exceeds its
/// length. An atom `y` acts as a vector of one element.
pub fn take(a: &K, b: &K) -> (r: K)
    requires
        a.wf(),
        b.wf(),
        take_ok(a@, b@),
        a@.ints()[0] <= usize::MAX && -a@.ints()[0] <= usize::MAX,
    ensures
        r.wf(),
        r@ == take_of(a@, b@),
{
    proof {
        a.lemma_fields();
        b.lemma_fields();
    }
    let n = a.ki_data()[0];
    let len = (if n < 0 { -n } else { n }) as usize;
    let ghost nl: int = if n >= 0 { n as int } else { -(n as int) };
    assert(len == nl);
    match &b.data {
        KData::Ints(v) => {
            if v.len() == 0 {
                let e: Vec<i64> = Vec::new();
                let r = K { t: 1, n: 0, data: KData::Ints(e) };
                assert(r@ == take_of(a@, b@));
                return r;
            }
            let mut z: Vec<i64> = Vec::new();
            let y_len = v.len();
            let mut i: usize = 0;
            while i < len
                invariant
                    i <= len,
                    len == nl,
                    nl <= i64::MAX,
                    y_len == v@.len(),
                    y_len > 0,
                    z@.len() == i,
                    forall|j: int|
                        0 <= j < i ==> #[trigger] z@[j] == v@[take_index(n as int, nl, y_len as int, j)],
                decreases len - i,
            {
                let idx = take_position(n, len, y_len, i);
                z.push(v[idx]);
                i += 1;
            }
            let r = K { t: 1, n: len as i64, data: KData::Ints(z) };
            assert(r@ =~= take_of(a@, b@));
            r
        },
        KData::List(v) => {
            if v.len() == 0 {
                let e: Vec<K> = Vec::new();
                let r = K { t: 0, n: 0, data: KData::List(e) };
                assert(n == 0);
                assert(r@.items() =~= take_of(a@, b@).items());
                return r;
            }
            let mut z: Vec<K> = Vec::new();
            let y_len = v.len();
            let mut i: usize = 0;
            while i < len
                invariant
                    i <= len,
                    len == nl,
                    nl <= i64::MAX,
                    y_len == v@.len(),
                    y_len > 0,
                    z@.len() == i,
                    all_wf(v@),
                    all_wf(z@),
                    forall|j: int|
                        0 <= j < i ==> kview(#[trigger] z@[j]) == kview(
                            v@[take_index(n as int, nl, y_len as int, j)],
                        ),
                decreases len - i,
            {
                let idx = take_position(n, len, y_len, i);
                proof {
                    assert(kwf(v@[idx as int]));
                }
                z.push(v[idx].deep_clone());
                i += 1;
            }
            let r = K { t: 0, n: len as i64, data: KData::List(z) };
            assert(r@.items() =~= take_of(a@, b@).items());
            r
        },
    }
}

/// `x` is a list of rows that can be transposed: no rows, or rows that are
/// all integer rows or all lists, each as long as the first.
pub open spec fn transpose_ok(x: KV) -> bool {
    &&& x.is_list()
    &&& x.items().len() > 0 ==> {
        let rows = x.items();
        forall|i: int|
            0 <= i < rows.len() ==> (#[trigger] rows[i]).is_num() == rows[0].is_num() && rows[i].len()
                == rows[0].len()
    }
}

/// The transpose of a list of rows: row `j` of the result holds element
/// `j` of every row.
pub open spec fn transpose_of(x: KV) -> KV {
    let rows = x.items();
    if rows.len() == 0 {
        KV::List(Seq::empty())
    } else if rows[0].is_num() {
        KV::List(
            Seq::new(
                rows[0].len() as nat,
                |j: int| KV::Vector(Seq::new(rows.len(), |i: int| rows[i].ints()[j])),
            ),
        )
    } else {
        KV::List(
            Seq::new(
                rows[0].len() as nat,
                |j: int| KV::List(Seq::new(rows.len(), |i: int| rows[i].items()[j])),
            ),
        )
    }
}

/// Transpose (`+x`) of a matrix given as a list of rows.
pub fn transpose(x: &K) -> (r: K)
    requires
        x.wf(),
        transpose_ok(x@),
    ensures
        r.wf(),
        r@ == transpose_of(x@),
{
    proof {
        x.lemma_fields();
    }
    let rows = x.kk_data();
    let m = rows.len();
    if m == 0 {
        let e: Vec<K> = Vec::new();
        let r = K::from_list(e);
        assert(views(e@) =~= Seq::<KV>::empty());
        assert(r@ =~= transpose_of(x@));
        return r;
    }
    proof {
        assert(kwf(rows@[0]));
        rows@[0].lemma_fields();
        assert(x@.items()[0] == kview(rows@[0]));
    }
    let first_row = &rows[0];
    match &first_row.data {
        KData::Ints(fr) => {
            let n = fr.len();
            let mut new_rows: Vec<K> = Vec::new();
            let mut j: usize = 0;
            while j < n
                invariant
                    j <= n,
                    m == rows@.len(),
                    m > 0,
                    m <= i64::MAX,
                    n == x@.items()[0].len(),
                    n <= i64::MAX,
                    x@.items()[0].is_num(),
                    all_wf(rows@),
                    views(rows@) == x@.items(),
                    transpose_ok(x@),
                    new_rows@.len() == j,
                    all_wf(new_rows@),
                    forall|jj: int|
                        0 <= jj < j ==> kview(#[trigger] new_rows@[jj]) == KV::Vector(
                            Seq::new(m as nat, |i: int| x@.items()[i].ints()[jj]),
                        ),
                decreases n - j,
            {
                let mut col: Vec<i64> = Vec::new();
                let mut i: usize = 0;
                while i < m
                    invariant
                        i <= m,
                        j < n,
                        m == rows@.len(),
                        m <= i64::MAX,
                        n == x@.items()[0].len(),
                        x@.items()[0].is_num(),
                        all_wf(rows@),
                        views(rows@) == x@.items(),
                        transpose_ok(x@),
                        col@.len() == i,
                        forall|ii: int| 0 <= ii < i ==> #[trigger] col@[ii] == x@.items()[ii].ints()[j as int],
                    decreases m - i,
                {
                    proof {
                        assert(kwf(rows@[i as int]));
                        assert(x@.items()[i as int] == kview(rows@[i as int]));
                        rows@[i as int].lemma_fields();
                    }
                    let row = rows[i].ki_data();
                    col.push(row[j]);
                    i += 1;
                }
                let c = K::from_ints(col);
                assert(c@ =~= KV::Vector(Seq::new(m as nat, |i: int| x@.items()[i].ints()[j as int])));
                new_rows.push(c);
                j += 1;
            }
            let r = K::from_list(new_rows);
            assert(r@.items() =~= transpose_of(x@).items());
            r
        },
        KData::List(fr) => {
            let n = fr.len();
            let mut new_rows: Vec<K> = Vec::new();
            let mut j: usize = 0;
            while j < n
                invariant
                    j <= n,
                    m == rows@.len(),
                    m > 0,
                    m <= i64::MAX,
                    n == x@.items()[0].len(),
                    n <= i64::MAX,
                    x@.items()[0].is_list(),
                    all_wf(rows@),
                    views(rows@) == x@.items(),
                    transpose_ok(x@),
                    new_rows@.len() == j,
                    all_wf(new_rows@),
                    forall|jj: int|
                        0 <= jj < j ==> kview(#[trigger] new_rows@[jj]) == KV::List(
                            Seq::new(m as nat, |i: int| x@.items()[i].items()[jj]),
                        ),
                decreases n - j,
            {
                let mut col: Vec<K> = Vec::new();
                let mut i: usize = 0;
                while i < m
                    invariant
                        i <= m,
                        j < n,
                        m == rows@.len(),
                        m <= i64::MAX,
                        n == x@.items()[0].len(),
                        x@.items()[0].is_list(),
                        all_wf(rows@),
                        views(rows@) == x@.items(),
                        transpose_ok(x@),
                        col@.len() == i,
                        all_wf(col@),
                        forall|ii: int|
                            0 <= ii < i ==> kview(#[trigger] col@[ii]) == x@.items()[ii].items()[j as int],
                    decreases m - i,
                {
                    proof {
                        assert(kwf(rows@[i as int]));
                        assert(x@.items()[i as int] == kview(rows@[i as int]));
                        rows@[i as int].lemma_fields();
                    }
                    let row = rows[i].kk_data();
                    proof {
                        assert(kwf(row@[j as int]));
                        assert(views(row@)[j as int] == kview(row@[j as int]));
                    }
                    col.push(row[j].deep_clone());
                    i += 1;
                }
                assert(views(col@) =~= Seq::new(m as nat, |i: int| x@.items()[i].items()[j as int]));
                let c = K::from_list(col);
                assert(c@ =~= KV::List(Seq::new(m as nat, |i: int| x@.items()[i].items()[j as int])));
                new_rows.push(c);
                j += 1;
            }
            let r = K::from_list(new_rows);
            assert(r@.items() =~= transpose_of(x@).items());
            r
        },
    }
}

/// Flip (`+x`): the transpose.
pub fn flip(x: &K) -> (r: K)
    requires
        x.wf(),
        transpose_ok(x@),
    ensures
        r.wf(),
        r@ == transpose_of(x@),
{
    transpose(x)
}

/// Every index of `idx`, at every level, is a row of a table with `rows`
/// rows.
pub open spec fn gather_ok(idx: KV, rows: int) -> bool
    decreases idx,
{
    match idx {
        KV::List(l) => forall|i: int| 0 <= i < l.len() ==> gather_ok(#[trigger] l[i], rows),
        _ => forall|k: int| 0 <= k < idx.ints().len() ==> 0 <= #[trigger] idx.ints()[k] < rows,
    }
}

/// The rows of `table` that `idx` selects, keeping the nesting of `idx`.
pub open spec fn gather_of(idx: KV, table: Seq<KV>) -> KV
    decreases idx,
{
    match idx {
        KV::List(l) => KV::List(
            Seq::new(
                l.len(),
                |i: int|
                    if 0 <= i < l.len() {
                        gather_of(l[i], table)
                    } else {
                        KV::Atom(0)
                    },
            ),
        ),
        _ => KV::List(Seq::new(idx.ints().len(), |k: int| table[idx.ints()[k] as int])),
    }
}

/// Gather (embedding lookup): the rows of `table` at the indices of
/// `indices`; a list of index vectors gives a list of results.
pub fn gather(indices: &K, table: &K) -> (r: K)
    requires
        indices.wf(),
        table.wf(),
        table@.is_list(),
        gather_ok(indices@, table@.items().len() as int),
    ensures
        r.wf(),
        r@ == gather_of(indices@, table@.items()),
    decreases indices,
{
    proof {
        indices.lemma_fields();
        table.lemma_fields();
    }
    let rows = table.kk_data();
    match &indices.data {
        KData::Ints(idxs) => {
            let mut result_rows: Vec<K> = Vec::new();
            let mut k: usize = 0;
            while k < idxs.len()
                invariant
                    k <= idxs@.len(),
                    idxs@.len() <= i64::MAX,
                    idxs@ == indices@.ints(),
                    !indices@.is_list(),
                    gather_ok(indices@, table@.items().len() as int),
                    all_wf(rows@),
                    views(rows@) == table@.items(),
                    result_rows@.len() == k,
                    all_wf(result_rows@),
                    forall|kk: int|
                        0 <= kk < k ==> kview(#[trigger] result_rows@[kk]) == table@.items()[idxs@[kk] as int],
                decreases idxs@.len() - k,
            {
                let idx = idxs[k];
                assert(0 <= indices@.ints()[k as int] < table@.items().len());
                let i = idx as usize;
                proof {
                    assert(kwf(rows@[i as int]));
                }
                result_rows.push(rows[i].deep_clone());
                k += 1;
            }
            let r = K::from_list(result_rows);
            assert(r@.items() =~= gather_of(indices@, table@.items()).items());
            r
        },
        KData::List(list_idxs) => {
            let mut res: Vec<K> = Vec::new();
            let mut i: usize = 0;
            assert(decreases_to!(*indices => *list_idxs));
            while i < list_idxs.len()
                invariant
                    decreases_to!(*indices => *list_idxs),
                    i <= list_idxs@.len(),
                    list_idxs@.len() <= i64::MAX,
                    all_wf(list_idxs@),
                    indices@ == KV::List(views(list_idxs@)),
                    table.wf(),
                    table@.is_list(),
                    gather_ok(indices@, table@.items().len() as int),
                    res@.len() == i,
                    all_wf(res@),
                    forall|j: int|
                        0 <= j < i ==> kview(#[trigger] res@[j]) == gather_of(
                            kview(list_idxs@[j]),
                            table@.items(),
                        ),
                decreases list_idxs@.len() - i,
            {
                proof {
                    vstd::std_specs::vec::axiom_vec_index_decreases(*list_idxs, i as int);
                    assert(kwf(list_idxs@[i as int]));
                    assert(indices@.items()[i as int] == kview(list_idxs@[i as int]));
                }
                let item = gather(&list_idxs[i], table);
                res.push(item);
                i += 1;
            }
            let r = K::from_list(res);
            assert(r@.items() =~= gather_of(indices@, table@.items()).items());
            r
        },
    }
}

} // verus!
