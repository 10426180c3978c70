//! The K value: integer atoms, integer vectors and general lists.
//!
//! A value carries a type code `t` and a length `n` beside its payload:
//! `t == -1` is an integer atom, `t == 1` an integer vector and `t == 0` a
//! general list of K values. Every function of the library works on values
//! that satisfy `wf`, and is specified over the mathematical model `KV`.

use vstd::prelude::*;

verus! {

/// Payload of a K value.
#[derive(Debug)]
pub enum KData {
    Ints(Vec<i64>),
    List(Vec<K>),
}

/// A K value: type code, length and payload.
#[derive(Debug)]
pub struct K {
    pub t: i64,
    pub n: i64,
    pub data: KData,
}

/// Mathematical model of a K value.
#[verifier::ext_equal]
pub enum KV {
    Atom(i64),
    Vector(Seq<i64>),
    List(Seq<KV>),
}

impl KV {
    /// The type code that a value of this shape carries.
    pub open spec fn tcode(self) -> int {
        match self {
            KV::Atom(_) => -1,
            KV::Vector(_) => 1,
            KV::List(_) => 0,
        }
    }

    /// The length that a value of this shape carries.
    pub open spec fn len(self) -> int {
        match self {
            KV::Atom(_) => 1,
            KV::Vector(s) => s.len() as int,
            KV::List(s) => s.len() as int,
        }
    }

    pub open spec fn is_list(self) -> bool {
        self is List
    }

    pub open spec fn is_num(self) -> bool {
        !(self is List)
    }

    /// The integers of an atom or a vector (empty for a list).
    pub open spec fn ints(self) -> Seq<i64> {
        match self {
            KV::Atom(x) => seq![x],
            KV::Vector(s) => s,
            KV::List(_) => Seq::empty(),
        }
    }

    /// The items of a list (empty for an atom or a vector).
    pub open spec fn items(self) -> Seq<KV> {
        match self {
            KV::List(s) => s,
            _ => Seq::empty(),
        }
    }
}

/// The model of a K value.
pub open spec fn kview(k: K) -> KV
    decreases k,
{
    match k.data {
        KData::Ints(v) => if k.t < 0 {
            KV::Atom(v@[0])
        } else {
            KV::Vector(v@)
        },
        KData::List(v) => KV::List(
            Seq::new(
                v@.len(),
                |i: int|
                    if 0 <= i < v@.len() {
                        kview(v@[i])
                    } else {
                        KV::Atom(0)
                    },
            ),
        ),
    }
}

/// Well-formedness: the type code and the length agree with the payload,
/// at every level.
pub open spec fn kwf(k: K) -> bool
    decreases k,
{
    match k.data {
        KData::Ints(v) => k.n == v@.len() && (k.t == 1 || (k.t == -1 && v@.len() == 1)),
        KData::List(v) => k.t == 0 && k.n == v@.len() && forall|i: int|
            0 <= i < v@.len() ==> kwf(#[trigger] v@[i]),
    }
}

/// The models of a sequence of K values.
pub open spec fn views(s: Seq<K>) -> Seq<KV> {
    s.map_values(|k: K| kview(k))
}

/// Every K value of a sequence is well formed.
pub open spec fn all_wf(s: Seq<K>) -> bool {
    forall|i: int| 0 <= i < s.len() ==> kwf(#[trigger] s[i])
}

impl View for K {
    type V = KV;

    open spec fn view(&self) -> KV {
        kview(*self)
    }
}

impl K {
    pub open spec fn wf(&self) -> bool {
        kwf(*self)
    }

    /// What a well-formed value's fields say of its model.
    pub proof fn lemma_fields(&self)
        requires
            self.wf(),
        ensures
            self.t == self@.tcode(),
            self.n == self@.len(),
            self.data is Ints <==> self@.is_num(),
            self.data matches KData::Ints(v) ==> v@ == self@.ints(),
            self.data matches KData::List(v) ==> (all_wf(v@) && views(v@) =~= self@.items()),
    {
        match &self.data {
            KData::Ints(v) => {
                if self.t < 0 {
                    assert(v@ =~= seq![v@[0]]);
                }
            },
            KData::List(v) => {},
        }
    }

    /// An integer atom.
    pub fn ki(x: i64) -> (r: K)
        ensures
            r.wf(),
            r@ == KV::Atom(x),
    {
        let mut v: Vec<i64> = Vec::new();
        v.push(x);
        K { t: -1, n: 1, data: KData::Ints(v) }
    }

    /// An integer vector.
    pub fn from_ints(v: Vec<i64>) -> (r: K)
        requires
            v@.len() <= i64::MAX,
        ensures
            r.wf(),
            r@ == KV::Vector(v@),
    {
        let n = v.len() as i64;
        K { t: 1, n, data: KData::Ints(v) }
    }

    /// A general list.
    pub fn from_list(v: Vec<K>) -> (r: K)
        requires
            v@.len() <= i64::MAX,
            all_wf(v@),
        ensures
            r.wf(),
            r@ == KV::List(views(v@)),
    {
        let n = v.len() as i64;
        let r = K { t: 0, n, data: KData::List(v) };
        assert(r@.items() =~= views(v@));
        r
    }

    /// The integers of an atom or a vector.
    pub fn ki_data(&self) -> (r: &[i64])
        requires
            self.wf(),
            self@.is_num(),
        ensures
            r@ == self@.ints(),
    {
        proof {
            self.lemma_fields();
        }
        match &self.data {
            KData::Ints(v) => v.as_slice(),
            KData::List(_) => {
                assert(false);
                &[]
            },
        }
    }

    /// The items of a general list.
    pub fn kk_data(&self) -> (r: &[K])
        requires
            self.wf(),
            self@.is_list(),
        ensures
            all_wf(r@),
            views(r@) == self@.items(),
    {
        proof {
            self.lemma_fields();
        }
        match &self.data {
            KData::List(v) => v.as_slice(),
            KData::Ints(_) => {
                assert(false);
                &[]
            },
        }
    }

    /// A copy of the whole value, nested lists included.
    pub fn deep_clone(&self) -> (r: K)
        ensures
            r.wf() == self.wf(),
            r@ == self@,
            r.t == self.t,
            r.n == self.n,
        decreases self,
    {
        match &self.data {
            KData::Ints(v) => {
                let c = v.clone();
                assert(c@ =~= v@);
                K { t: self.t, n: self.n, data: KData::Ints(c) }
            },
            KData::List(v) => {
                let mut out: Vec<K> = Vec::new();
                let mut i: usize = 0;
                assert(decreases_to!(*self => *v));
                while i < v.len()
                    invariant
                        decreases_to!(*self => *v),
                        i <= v@.len(),
                        out@.len() == i,
                        forall|j: int| 0 <= j < i ==> kview(#[trigger] out@[j]) == kview(v@[j]),
                        forall|j: int| 0 <= j < i ==> kwf(#[trigger] out@[j]) == kwf(v@[j]),
                    decreases v@.len() - i,
                {
                    proof {
                        vstd::std_specs::vec::axiom_vec_index_decreases(*v, i as int);
                        assert(decreases_to!(*v => v[i as int]));
                    }
                    let c = v[i].deep_clone();
                    out.push(c);
                    i += 1;
                }
                let r = K { t: self.t, n: self.n, data: KData::List(out) };
                assert(r@.items() =~= self@.items());
                assert((forall|j: int| 0 <= j < out@.len() ==> kwf(#[trigger] out@[j])) == (forall|j: int|
                    0 <= j < v@.len() ==> kwf(#[trigger] v@[j]))) by {
                    if forall|j: int| 0 <= j < v@.len() ==> kwf(#[trigger] v@[j]) {
                        assert forall|j: int| 0 <= j < out@.len() implies kwf(#[trigger] out@[j]) by {
                            assert(kwf(v@[j]));
                        }
                    }
                    if forall|j: int| 0 <= j < out@.len() ==> kwf(#[trigger] out@[j]) {
                        assert forall|j: int| 0 <= j < v@.len() implies kwf(#[trigger] v@[j]) by {
                            assert(kwf(out@[j]));
                        }
                    }
                }
                assert(kwf(r) == kwf(*self));
                r
            },
        }
    }
}

impl Clone for K {
    /// A copy of the whole value, nested lists included.
    fn clone(&self) -> (r: K)
        ensures
            r.wf() == self.wf(),
            r@ == self@,
            r.t == self.t,
            r.n == self.n,
    {
        self.deep_clone()
    }
}

} // verus!
