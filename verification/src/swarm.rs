//! The swarm client's side of piece scheduling: the availability that the
//! seeders' bitfields add up to, the strategy named on the command line,
//! and the request order for the client's missing pieces.

use vstd::prelude::*;
use vstd::string::*;
use crate::k::{K, KV, kview, views, all_wf};
use crate::va::{ScalarOp, dyad, dyad_ok, dyad_checked};
use crate::rag::{lowercase, spec_lowercase};
use crate::torrent::{availability_of, weights_of, selection, is_candidate};

verus! {

/// The sum of gathered K values, left to right, with `+`; an empty
/// gathering is the empty vector.
pub open spec fn sum_all(ks: Seq<KV>) -> KV
    decreases ks.len(),
{
    if ks.len() == 0 {
        KV::Vector(Seq::empty())
    } else if ks.len() == 1 {
        ks[0]
    } else {
        dyad(ScalarOp::Plus, sum_all(ks.drop_last()), ks.last())
    }
}

/// Every addition of `sum_all` is defined: matching lengths, no overflow.
pub open spec fn sum_all_ok(ks: Seq<KV>) -> bool
    decreases ks.len(),
{
    ks.len() <= 1 || (sum_all_ok(ks.drop_last()) && dyad_ok(ScalarOp::Plus, sum_all(ks.drop_last()), ks.last()))
}

/// Add up what the seeders answered: the first answer, plus each following
/// one in turn. `None` when some addition is not defined (lengths that do
/// not match, or an overflow).
pub fn gather_sum(gathered: &[K]) -> (r: Option<K>)
    requires
        all_wf(gathered@),
    ensures
        r is Some <==> sum_all_ok(views(gathered@)),
        r matches Some(z) ==> z.wf() && z@ == sum_all(views(gathered@)),
{
    let ghost s = views(gathered@);
    if gathered.len() == 0 {
        let empty: Vec<i64> = Vec::new();
        return Some(K::from_ints(empty));
    }
    proof {
        assert(crate::k::kwf(gathered@[0]));
    }
    let mut acc = gathered[0].deep_clone();
    proof {
        assert(s.take(1).drop_last() =~= Seq::<KV>::empty());
        assert(sum_all(s.take(1)) == s[0]);
        assert(sum_all_ok(s.take(1)));
    }
    let mut i: usize = 1;
    while i < gathered.len()
        invariant
            1 <= i <= gathered@.len(),
            s == views(gathered@),
            all_wf(gathered@),
            sum_all_ok(s.take(i as int)),
            acc.wf(),
            acc@ == sum_all(s.take(i as int)),
        decreases gathered@.len() - i,
    {
        let ghost t = s.take(i as int + 1);
        proof {
            assert(t.drop_last() =~= s.take(i as int));
            assert(t.last() == s[i as int]);
            assert(crate::k::kwf(gathered@[i as int]));
        }
        match dyad_checked(ScalarOp::Plus, &acc, &gathered[i]) {
            Some(z) => {
                acc = z;
            },
            None => {
                proof {
                    lemma_sum_all_ok_prefix(s, i as int + 1);
                }
                return None;
            },
        }
        i += 1;
    }
    assert(s.take(gathered@.len() as int) =~= s);
    Some(acc)
}

/// Definedness of a sum implies that of each of its prefixes.
proof fn lemma_sum_all_ok_prefix(s: Seq<KV>, k: int)
    requires
        0 <= k <= s.len(),
        !sum_all_ok(s.take(k)),
    ensures
        !sum_all_ok(s),
    decreases s.len() - k,
{
    if k < s.len() {
        let t = s.take(k + 1);
        assert(t.drop_last() =~= s.take(k));
        lemma_sum_all_ok_prefix(s, k + 1);
    } else {
        assert(s.take(k) =~= s);
    }
}

/// The policy that a strategy name selects, once lowercased: 0 for rarest
/// first, 2 for priority weighted, 1 (sequential) for every other name.
pub open spec fn policy_of(name: Seq<char>) -> int {
    if name == "rarest"@ || name == "rarest-first"@ {
        0
    } else if name == "priority"@ || name == "priority-weighted"@ {
        2
    } else {
        1
    }
}

/// The policy for a strategy name, compared without regard to case:
/// `rarest` / `rarest-first`, `priority` / `priority-weighted`, and
/// sequential (`sequential`, `seq`, or any other name).
pub fn policy_id(strategy: &str) -> (r: i64)
    ensures
        r == policy_of(spec_lowercase(strategy@)),
{
    let lower = lowercase(strategy);
    if lower == String::from_str("rarest") || lower == String::from_str("rarest-first") {
        0
    } else if lower == String::from_str("priority") || lower == String::from_str("priority-weighted") {
        2
    } else {
        1
    }
}

/// The client's ownership flags as a bitfield of ones and zeros.
pub open spec fn bits_of(flags: Seq<bool>) -> Seq<i64> {
    flags.map_values(|b: bool| if b { 1i64 } else { 0i64 })
}

/// The priorities as the weights they become when converted to doubles.
pub open spec fn double_weights(priorities: Seq<i64>, n: int) -> Seq<int> {
    weights_of(Some(KV::Vector(priorities)), n)
}

/// The request order for the client's missing pieces under a named
/// strategy: availability counts per piece, ownership flags, and integer
/// priorities that weigh as the doubles they convert to.
pub fn select_pieces(strategy: &str, client_pieces: &[bool], availability: &[i64], priorities: &[i64]) -> (r:
    Vec<usize>)
    requires
        client_pieces@.len() <= i64::MAX,
        availability@.len() <= i64::MAX,
        priorities@.len() <= i64::MAX,
    ensures
        selection(
            policy_of(spec_lowercase(strategy@)),
            bits_of(client_pieces@),
            availability_of(KV::Vector(availability@), client_pieces@.len() as int),
            if policy_of(spec_lowercase(strategy@)) == 2 {
                double_weights(priorities@, client_pieces@.len() as int)
            } else {
                weights_of(None, client_pieces@.len() as int)
            },
            r@.map_values(|x: usize| x as i64),
        ),
{
    let mut own: Vec<i64> = Vec::new();
    let mut i: usize = 0;
    while i < client_pieces.len()
        invariant
            i <= client_pieces@.len(),
            own@ =~= bits_of(client_pieces@.take(i as int)),
        decreases client_pieces@.len() - i,
    {
        own.push(if client_pieces[i] { 1 } else { 0 });
        i += 1;
        assert(own@ =~= bits_of(client_pieces@.take(i as int)));
    }
    assert(client_pieces@.take(client_pieces@.len() as int) =~= client_pieces@);
    let mut prios: Vec<i64> = Vec::new();
    let mut j: usize = 0;
    while j < priorities.len()
        invariant
            j <= priorities@.len(),
            prios@ =~= priorities@.take(j as int),
        decreases priorities@.len() - j,
    {
        prios.push(priorities[j]);
        j += 1;
        assert(prios@ =~= priorities@.take(j as int));
    }
    assert(priorities@.take(priorities@.len() as int) =~= priorities@);
    let npieces = client_pieces.len();
    let ghost n = npieces as int;
    let own_bitfield = K::from_ints(own);
    let mut counts: Vec<i64> = Vec::new();
    let mut c: usize = 0;
    while c < availability.len()
        invariant
            c <= availability@.len(),
            counts@ =~= availability@.take(c as int),
        decreases availability@.len() - c,
    {
        counts.push(availability[c]);
        c += 1;
        assert(counts@ =~= availability@.take(c as int));
    }
    assert(availability@.take(availability@.len() as int) =~= availability@);
    let peer_bitfields = K::from_ints(counts);
    let pol = policy_id(strategy);
    let policy = K::ki(pol);
    let weights = K::from_ints(prios);
    let res = crate::torrent::select_pieces(&peer_bitfields, &own_bitfield, &policy, Some(&weights));
    proof {
        res.lemma_fields();
    }
    let picked = res.ki_data();
    let ghost avail = availability_of(KV::Vector(availability@), n);
    let ghost wd = if pol == 2 {
        double_weights(priorities@, n)
    } else {
        weights_of(None, n)
    };
    assert(selection(pol as int, bits_of(client_pieces@), avail, wd, picked@));
    assert forall|q: int| 0 <= q < picked@.len() implies 0 <= #[trigger] picked@[q] < n by {
        assert(is_candidate(bits_of(client_pieces@), avail, picked@[q] as int));
    }
    let mut out: Vec<usize> = Vec::new();
    let mut k: usize = 0;
    while k < picked.len()
        invariant
            k <= picked@.len(),
            out@.len() == k,
            n == client_pieces@.len(),
            n <= i64::MAX,
            n <= usize::MAX,
            forall|q: int| 0 <= q < picked@.len() ==> 0 <= #[trigger] picked@[q] < n,
            forall|q: int| 0 <= q < k ==> #[trigger] out@[q] as int == picked@[q] as int,
        decreases picked@.len() - k,
    {
        let v = picked[k];
        assert(0 <= v < n);
        out.push(v as usize);
        k += 1;
    }
    assert(out@.map_values(|x: usize| x as i64) =~= picked@);
    out
}


/// The client's side of the swarm between two commands: the swarm's size,
/// which pieces it holds, the priority of each piece, and the availability
/// that the last query gathered.
pub struct SwarmState {
    pub num_pieces: usize,
    pub num_seeders: usize,
    pub client_pieces: Vec<bool>,
    pub priorities: Vec<i64>,
    pub availability: Vec<i64>,
    pub query_run: bool,
}

/// `n` copies of `x`.
fn filled<T: Copy>(x: T, n: usize) -> (r: Vec<T>)
    ensures
        r@ == Seq::new(n as nat, |i: int| x),
{
    let mut r: Vec<T> = Vec::new();
    let mut i: usize = 0;
    while i < n
        invariant
            i <= n,
            r@ =~= Seq::new(i as nat, |j: int| x),
        decreases n - i,
    {
        r.push(x);
        i += 1;
        assert(r@ =~= Seq::new(i as nat, |j: int| x));
    }
    r
}

impl SwarmState {
    /// One ownership flag and one priority per piece, priorities from 1 to
    /// 3, and a swarm of at least one piece and one seeder.
    pub open spec fn wf(&self) -> bool {
        &&& self.num_pieces > 0
        &&& self.num_seeders > 0
        &&& self.client_pieces@.len() == self.num_pieces
        &&& self.priorities@.len() == self.num_pieces
        &&& forall|i: int| 0 <= i < self.num_pieces ==> 1 <= #[trigger] self.priorities@[i] <= 3
    }

    /// A fresh swarm: the client holds pieces 2 and 5 when there are more
    /// than five pieces, every priority is medium (2), and nothing has
    /// been gathered yet.
    pub fn new(num_pieces: usize, num_seeders: usize) -> (r: Self)
        requires
            num_pieces > 0,
            num_seeders > 0,
        ensures
            r.wf(),
            r.num_pieces == num_pieces,
            r.num_seeders == num_seeders,
            r.client_pieces@ == Seq::new(num_pieces as nat, |i: int| num_pieces > 5 && (i == 2 || i == 5)),
            r.priorities@ == Seq::new(num_pieces as nat, |i: int| 2i64),
            r.availability@ == Seq::new(num_pieces as nat, |i: int| 0i64),
            !r.query_run,
    {
        let mut client_pieces = filled(false, num_pieces);
        if num_pieces > 5 {
            client_pieces.set(2, true);
            client_pieces.set(5, true);
        }
        assert(client_pieces@ =~= Seq::new(num_pieces as nat, |i: int| num_pieces > 5 && (i == 2 || i == 5)));
        SwarmState {
            num_pieces,
            num_seeders,
            client_pieces,
            priorities: filled(2i64, num_pieces),
            availability: filled(0i64, num_pieces),
            query_run: false,
        }
    }

    /// Start over with `n` pieces: none held, every priority medium,
    /// nothing gathered. Refused (false, nothing changed) when `n` is 0.
    pub fn set_pieces(&mut self, n: usize) -> (ok: bool)
        requires
            old(self).wf(),
        ensures
            final(self).wf(),
            ok == (n > 0),
            !ok ==> *final(self) == *old(self),
            ok ==> {
                &&& final(self).num_pieces == n
                &&& final(self).num_seeders == old(self).num_seeders
                &&& final(self).client_pieces@ == Seq::new(n as nat, |i: int| false)
                &&& final(self).priorities@ == Seq::new(n as nat, |i: int| 2i64)
                &&& final(self).availability@ == Seq::new(n as nat, |i: int| 0i64)
                &&& !final(self).query_run
            },
    {
        if n == 0 {
            return false;
        }
        self.num_pieces = n;
        self.client_pieces = filled(false, n);
        self.priorities = filled(2i64, n);
        self.availability = filled(0i64, n);
        self.query_run = false;
        true
    }

    /// A swarm of `n` seeders, whose availability is yet to be gathered.
    /// Refused (false, nothing changed) when `n` is 0.
    pub fn set_seeders(&mut self, n: usize) -> (ok: bool)
        requires
            old(self).wf(),
        ensures
            final(self).wf(),
            ok == (n > 0),
            !ok ==> *final(self) == *old(self),
            ok ==> *final(self) == (SwarmState { num_seeders: n, query_run: false, ..*old(self) }),
    {
        if n == 0 {
            return false;
        }
        self.num_seeders = n;
        self.query_run = false;
        true
    }

    /// Set the priority of piece `idx` to `p`; refused (false, nothing
    /// changed) unless `idx` is a piece and `p` is 1, 2 or 3.
    pub fn set_priority(&mut self, idx: usize, p: i64) -> (ok: bool)
        requires
            old(self).wf(),
        ensures
            final(self).wf(),
            ok == (idx < old(self).num_pieces && 1 <= p <= 3),
            !ok ==> *final(self) == *old(self),
            ok ==> *final(self) == (SwarmState {
                priorities: final(self).priorities,
                ..*old(self)
            }),
            ok ==> final(self).priorities@ == old(self).priorities@.update(idx as int, p),
    {
        if idx < self.num_pieces && 1 <= p && p <= 3 {
            self.priorities.set(idx, p);
            true
        } else {
            false
        }
    }

    /// Record whether the client holds piece `idx` (`v` is 1) or not (`v`
    /// is 0); refused (false, nothing changed) for any other index or
    /// value.
    pub fn set_client(&mut self, idx: usize, v: i64) -> (ok: bool)
        requires
            old(self).wf(),
        ensures
            final(self).wf(),
            ok == (idx < old(self).num_pieces && (v == 0 || v == 1)),
            !ok ==> *final(self) == *old(self),
            ok ==> *final(self) == (SwarmState {
                client_pieces: final(self).client_pieces,
                ..*old(self)
            }),
            ok ==> final(self).client_pieces@ == old(self).client_pieces@.update(idx as int, v == 1),
    {
        if idx < self.num_pieces && (v == 0 || v == 1) {
            self.client_pieces.set(idx, v == 1);
            true
        } else {
            false
        }
    }

    /// Keep the availability that a query gathered.
    pub fn record_availability(&mut self, availability: Vec<i64>)
        requires
            old(self).wf(),
        ensures
            final(self).wf(),
            *final(self) == (SwarmState { availability, query_run: true, ..*old(self) }),
    {
        self.availability = availability;
        self.query_run = true;
    }

    /// The request order under a named strategy for the pieces the client
    /// lacks, from the recorded availability and priorities.
    pub fn select(&self, strategy: &str) -> (r: Vec<usize>)
        requires
            self.wf(),
            self.num_pieces <= i64::MAX,
            self.availability@.len() <= i64::MAX,
        ensures
            selection(
                policy_of(spec_lowercase(strategy@)),
                bits_of(self.client_pieces@),
                availability_of(KV::Vector(self.availability@), self.num_pieces as int),
                if policy_of(spec_lowercase(strategy@)) == 2 {
                    double_weights(self.priorities@, self.num_pieces as int)
                } else {
                    weights_of(None, self.num_pieces as int)
                },
                r@.map_values(|x: usize| x as i64),
            ),
    {
        select_pieces(strategy, self.client_pieces.as_slice(), self.availability.as_slice(), self.priorities.as_slice())
    }
}

} // verus!
