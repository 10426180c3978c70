//! BitTorrent piece selection over K values.
//!
//! A piece is a candidate when we do not own it and at least one peer has
//! it. Candidates are ordered by the policy: rarest first (by
//! availability), sequential (by index), or priority weighted (by weight,
//! highest first, then by availability); every policy breaks the remaining
//! ties by index. Weights are integers and compare as the doubles they
//! convert to, so weights that round to the same double tie.

use vstd::prelude::*;
use crate::k::{K, KData, KV, kview, kwf, views, all_wf};
use crate::rounding::{nearest_double, nearest_double_of};

verus! {

/// How many of `peers` have piece `i` (a positive entry at `i`).
pub open spec fn peers_having(peers: Seq<KV>, i: int) -> int
    decreases peers.len(),
{
    if peers.len() == 0 {
        0
    } else {
        let p = peers.last();
        peers_having(peers.drop_last(), i) + if i < p.ints().len() && p.ints()[i] > 0 {
            1int
        } else {
            0int
        }
    }
}

/// The availability of each of the `n` pieces: the number of peers that
/// have it, for a list of peer bitfields; the given count, for a single
/// vector or atom (0 beyond its end).
pub open spec fn availability_of(peers: KV, n: int) -> Seq<int> {
    if peers.is_list() {
        Seq::new(n as nat, |i: int| peers_having(peers.items(), i))
    } else {
        Seq::new(
            n as nat,
            |i: int|
                if i < peers.ints().len() {
                    peers.ints()[i] as int
                } else {
                    0
                },
        )
    }
}

/// The weight of each of the `n` pieces: the value of the double that the
/// given integer weight converts to (0 beyond the given weights, and for
/// every piece when no weights are given).
pub open spec fn weights_of(w: Option<KV>, n: int) -> Seq<int> {
    Seq::new(
        n as nat,
        |i: int|
            match w {
                Some(wv) => if i < wv.ints().len() {
                    nearest_double(wv.ints()[i] as int)
                } else {
                    0
                },
                None => 0,
            },
    )
}

/// The order key of a double's value within the `i64` range: a value above
/// it can only be 2^63, which takes the top place.
pub open spec fn weight_key(d: int) -> int {
    if d > i64::MAX {
        i64::MAX as int
    } else {
        d
    }
}

/// Piece `a` is requested before piece `b` under policy `pol`.
pub open spec fn piece_before(pol: int, avail: Seq<int>, w: Seq<int>, a: int, b: int) -> bool {
    if pol == 0 {
        avail[a] < avail[b] || (avail[a] == avail[b] && a < b)
    } else if pol == 1 {
        a < b
    } else {
        w[a] > w[b] || (w[a] == w[b] && (avail[a] < avail[b] || (avail[a] == avail[b] && a < b)))
    }
}

/// Piece `i` is a candidate: not owned, and available from some peer.
pub open spec fn is_candidate(own: Seq<i64>, avail: Seq<int>, i: int) -> bool {
    0 <= i < own.len() && own[i] == 0 && avail[i] > 0
}

/// `r` lists each candidate exactly once, in request order.
pub open spec fn selection(pol: int, own: Seq<i64>, avail: Seq<int>, w: Seq<int>, r: Seq<i64>) -> bool {
    &&& forall|k: int| 0 <= k < r.len() ==> is_candidate(own, avail, #[trigger] r[k] as int)
    &&& forall|i: int| is_candidate(own, avail, i) ==> exists|k: int| 0 <= k < r.len() && #[trigger] r[k] == i
    &&& forall|k: int, l: int|
        0 <= k < l < r.len() ==> piece_before(pol, avail, w, #[trigger] r[k] as int, #[trigger] r[l] as int)
}

/// The model of optional weights.
pub open spec fn opt_kv(w: Option<&K>) -> Option<KV> {
    match w {
        Some(k) => Some(kview(*k)),
        None => None,
    }
}

/// The inputs that `select_pieces` accepts: an integer policy 0, 1 or 2,
/// an integer bitfield, peers given as a list of integer bitfields or as
/// one integer vector or atom, and integer weights.
pub open spec fn select_ok(peers: KV, own: KV, policy: KV, weights: Option<KV>) -> bool {
    &&& policy.is_num()
    &&& policy.ints().len() > 0
    &&& 0 <= policy.ints()[0] <= 2
    &&& own.is_num()
    &&& (peers.is_list() ==> forall|p: int| 0 <= p < peers.items().len() ==> (#[trigger] peers.items()[p]).is_num())
    &&& (policy.ints()[0] == 2 ==> (weights matches Some(w) ==> w.is_num()))
}

proof fn lemma_peers_having_bound(peers: Seq<KV>, i: int)
    ensures
        0 <= peers_having(peers, i) <= peers.len(),
    decreases peers.len(),
{
    if peers.len() > 0 {
        lemma_peers_having_bound(peers.drop_last(), i);
    }
}

/// Count, for each of `n` pieces, the peers that have it.
fn count_availability(peers: &[K], n: usize) -> (counts: Vec<i64>)
    requires
        all_wf(peers@),
        peers@.len() <= i64::MAX,
        forall|p: int| 0 <= p < peers@.len() ==> (#[trigger] kview(peers@[p])).is_num(),
    ensures
        counts@.len() == n,
        forall|i: int| 0 <= i < n ==> #[trigger] counts@[i] == peers_having(views(peers@), i),
{
    let ghost s = views(peers@);
    let mut counts: Vec<i64> = Vec::new();
    let mut i: usize = 0;
    while i < n
        invariant
            i <= n,
            counts@.len() == i,
            forall|j: int| 0 <= j < i ==> #[trigger] counts@[j] == 0,
        decreases n - i,
    {
        counts.push(0);
        i += 1;
    }
    let mut p: usize = 0;
    while p < peers.len()
        invariant
            p <= peers@.len(),
            peers@.len() <= i64::MAX,
            s == views(peers@),
            all_wf(peers@),
            forall|q: int| 0 <= q < peers@.len() ==> (#[trigger] kview(peers@[q])).is_num(),
            counts@.len() == n,
            forall|j: int| 0 <= j < n ==> #[trigger] counts@[j] == peers_having(s.take(p as int), j),
        decreases peers@.len() - p,
    {
        proof {
            assert(kwf(peers@[p as int]));
            assert(s[p as int] == kview(peers@[p as int]));
            assert(kview(peers@[p as int]).is_num());
        }
        let pd = peers[p].ki_data();
        let lim = if n < pd.len() { n } else { pd.len() };
        let ghost before = counts@;
        proof {
            assert forall|j: int| 0 <= j < n implies 0 <= #[trigger] before[j] <= p by {
                lemma_peers_having_bound(s.take(p as int), j);
            }
        }
        let mut i: usize = 0;
        while i < lim
            invariant
                i <= lim,
                lim <= n,
                lim <= pd@.len(),
                counts@.len() == n,
                p < peers@.len(),
                peers@.len() <= i64::MAX,
                before.len() == n,
                forall|j: int| 0 <= j < n ==> 0 <= #[trigger] before[j] <= p,
                forall|j: int|
                    0 <= j < n ==> #[trigger] counts@[j] == if j < i && pd@[j] > 0 {
                        before[j] + 1
                    } else {
                        before[j] as int
                    },
            decreases lim - i,
        {
            if pd[i] > 0 {
                counts.set(i, counts[i] + 1);
            }
            i += 1;
        }
        proof {
            let t = s.take(p as int + 1);
            assert(t.drop_last() =~= s.take(p as int));
            assert(t.last() == s[p as int]);
            assert(s[p as int].ints() == pd@);
            assert forall|j: int| 0 <= j < n implies #[trigger] counts@[j] == peers_having(t, j) by {
                lemma_peers_having_bound(s.take(p as int), j);
            }
        }
        p += 1;
    }
    assert(s.take(peers@.len() as int) =~= s);
    counts
}

/// Compare two candidate pieces under the policy.
fn before_piece(pol: i64, avail: &Vec<i64>, w: &Vec<i64>, a: usize, b: usize) -> (r: bool)
    requires
        0 <= pol <= 2,
        a < avail@.len(),
        b < avail@.len(),
        avail@.len() == w@.len(),
    ensures
        r == piece_before(
            pol as int,
            avail@.map_values(|v: i64| v as int),
            w@.map_values(|v: i64| v as int),
            a as int,
            b as int,
        ),
{
    if pol == 0 {
        avail[a] < avail[b] || (avail[a] == avail[b] && a < b)
    } else if pol == 1 {
        a < b
    } else {
        w[a] > w[b] || (w[a] == w[b] && (avail[a] < avail[b] || (avail[a] == avail[b] && a < b)))
    }
}

/// Select pieces to download: the pieces that `own_bitfield` lacks and
/// some peer has, in the order that `policy` gives (0 rarest first, 1
/// sequential, 2 priority weighted by `custom_weights`, each integer weight
/// compared as the double it converts to).
pub fn select_pieces(peer_bitfields: &K, own_bitfield: &K, policy: &K, custom_weights: Option<&K>) -> (r: K)
    requires
        peer_bitfields.wf(),
        own_bitfield.wf(),
        policy.wf(),
        custom_weights matches Some(w) ==> w.wf(),
        select_ok(peer_bitfields@, own_bitfield@, policy@, opt_kv(custom_weights)),
    ensures
        r.wf(),
        r@ is Vector,
        selection(
            policy@.ints()[0] as int,
            own_bitfield@.ints(),
            availability_of(peer_bitfields@, own_bitfield@.ints().len() as int),
            weights_of(
                if policy@.ints()[0] == 2 {
                    opt_kv(custom_weights)
                } else {
                    None
                },
                own_bitfield@.ints().len() as int,
            ),
            r@.ints(),
        ),
{
    proof {
        peer_bitfields.lemma_fields();
        own_bitfield.lemma_fields();
        policy.lemma_fields();
    }
    let pol = policy.ki_data()[0];
    let own = own_bitfield.ki_data();
    let num_pieces = own.len();
    let ghost n = num_pieces as int;
    let availability: Vec<i64> = match &peer_bitfields.data {
        KData::List(peers) => {
            proof {
                assert forall|p: int| 0 <= p < peers@.len() implies (#[trigger] kview(peers@[p])).is_num() by {
                    assert(peer_bitfields@.items()[p] == kview(peers@[p]));
                }
            }
            let c = count_availability(peers.as_slice(), num_pieces);
            assert(c@.map_values(|v: i64| v as int) =~= availability_of(peer_bitfields@, n));
            c
        },
        KData::Ints(pd) => {
            let mut counts: Vec<i64> = Vec::new();
            let mut i: usize = 0;
            while i < num_pieces
                invariant
                    i <= num_pieces,
                    counts@.len() == i,
                    forall|j: int|
                        0 <= j < i ==> #[trigger] counts@[j] == if j < pd@.len() {
                            pd@[j]
                        } else {
                            0
                        },
                decreases num_pieces - i,
            {
                if i < pd.len() {
                    counts.push(pd[i]);
                } else {
                    counts.push(0);
                }
                i += 1;
            }
            assert(counts@.map_values(|v: i64| v as int) =~= availability_of(peer_bitfields@, n));
            counts
        },
    };
    let ghost avail = availability@.map_values(|v: i64| v as int);
    let ghost sel = if pol == 2 {
        opt_kv(custom_weights)
    } else {
        None
    };
    let ghost wd = weights_of(sel, n);
    let mut weights: Vec<i64> = Vec::new();
    let mut i: usize = 0;
    let use_weights = pol == 2;
    while i < num_pieces
        invariant
            i <= num_pieces,
            weights@.len() == i,
            use_weights == (pol == 2),
            sel == (if use_weights {
                opt_kv(custom_weights)
            } else {
                None
            }),
            wd == weights_of(sel, n),
            custom_weights matches Some(w) ==> w.wf(),
            use_weights ==> (custom_weights matches Some(w) ==> w@.is_num()),
            forall|j: int| 0 <= j < i ==> #[trigger] weights@[j] as int == weight_key(wd[j]),
            forall|j: int|
                0 <= j < i ==> -0x8000_0000_0000_0000 <= #[trigger] wd[j] <= 0x8000_0000_0000_0000 && wd[j]
                    != i64::MAX,
            n == num_pieces,
        decreases num_pieces - i,
    {
        let mut wv: i64 = 0;
        if use_weights {
            match custom_weights {
                Some(w) => {
                    let wdata = w.ki_data();
                    if i < wdata.len() {
                        let d = nearest_double_of(wdata[i]);
                        wv = if d > i64::MAX as i128 {
                            i64::MAX
                        } else {
                            d as i64
                        };
                    }
                },
                None => {},
            }
        }
        weights.push(wv);
        i += 1;
    }
    let ghost wts = weights@.map_values(|v: i64| v as int);
    let mut order: Vec<i64> = Vec::new();
    let mut c: usize = 0;
    while c < num_pieces
        invariant
            c <= num_pieces,
            n == num_pieces,
            n == own@.len(),
            n <= i64::MAX,
            availability@.len() == n,
            weights@.len() == n,
            avail == availability@.map_values(|v: i64| v as int),
            wts == weights@.map_values(|v: i64| v as int),
            0 <= pol <= 2,
            order@.len() <= c,
            forall|k: int| 0 <= k < order@.len() ==> is_candidate(own@, avail, #[trigger] order@[k] as int),
            forall|k: int| 0 <= k < order@.len() ==> #[trigger] order@[k] < c,
            forall|j: int|
                0 <= j < c && is_candidate(own@, avail, j) ==> exists|k: int|
                    0 <= k < order@.len() && #[trigger] order@[k] == j,
            forall|k: int, l: int|
                0 <= k < l < order@.len() ==> piece_before(
                    pol as int,
                    avail,
                    wts,
                    #[trigger] order@[k] as int,
                    #[trigger] order@[l] as int,
                ),
        decreases num_pieces - c,
    {
        if own[c] == 0 && availability[c] > 0 {
            let mut p: usize = 0;
            let mut stop = false;
            while p < order.len() && !stop
                invariant
                    p <= order@.len(),
                    c < n,
                    n == own@.len(),
                    availability@.len() == n,
                    weights@.len() == n,
                    avail == availability@.map_values(|v: i64| v as int),
                    wts == weights@.map_values(|v: i64| v as int),
                    0 <= pol <= 2,
                    forall|k: int| 0 <= k < order@.len() ==> 0 <= #[trigger] order@[k] < c,
                    forall|k: int|
                        0 <= k < p ==> !piece_before(pol as int, avail, wts, c as int, #[trigger] order@[k] as int),
                    stop ==> p < order@.len() && piece_before(pol as int, avail, wts, c as int, order@[p as int] as int),
                decreases order@.len() - p, if stop { 0int } else { 1int },
            {
                let q = order[p] as usize;
                if before_piece(pol, &availability, &weights, c, q) {
                    stop = true;
                } else {
                    p += 1;
                }
            }
            let ghost old_order = order@;
            order.insert(p, c as i64);
            proof {
                assert forall|k: int| 0 <= k < order@.len() implies order@[k] == (if k < p {
                    old_order[k]
                } else if k == p {
                    c as i64
                } else {
                    old_order[k - 1]
                }) by {}
                assert forall|k: int| 0 <= k < order@.len() implies is_candidate(
                    own@,
                    avail,
                    #[trigger] order@[k] as int,
                ) by {
                    if k < p {
                        assert(is_candidate(own@, avail, old_order[k] as int));
                    } else if k > p {
                        assert(is_candidate(own@, avail, old_order[k - 1] as int));
                    }
                }
                assert forall|k: int| 0 <= k < order@.len() implies #[trigger] order@[k] < c + 1 by {
                    if k < p {
                        assert(old_order[k] < c);
                    } else if k > p {
                        assert(old_order[k - 1] < c);
                    }
                }
                assert forall|j: int|
                    0 <= j < c + 1 && is_candidate(own@, avail, j) implies exists|k: int|
                    0 <= k < order@.len() && #[trigger] order@[k] == j by {
                    if j == c {
                        assert(order@[p as int] == j);
                    } else {
                        let k0 = choose|k: int| 0 <= k < old_order.len() && old_order[k] == j;
                        if k0 < p {
                            assert(order@[k0] == j);
                        } else {
                            assert(order@[k0 + 1] == j);
                        }
                    }
                }
                assert forall|k: int, l: int| 0 <= k < l < order@.len() implies piece_before(
                    pol as int,
                    avail,
                    wts,
                    #[trigger] order@[k] as int,
                    #[trigger] order@[l] as int,
                ) by {
                    if l < p {
                        assert(piece_before(pol as int, avail, wts, old_order[k] as int, old_order[l] as int));
                    } else if l == p {
                        assert(0 <= old_order[k] < c);
                        assert(!piece_before(pol as int, avail, wts, c as int, old_order[k] as int));
                    } else if k < p {
                        assert(piece_before(pol as int, avail, wts, old_order[k] as int, old_order[l - 1] as int));
                    } else if k == p {
                        assert(0 <= old_order[l - 1] < c);
                        assert(piece_before(pol as int, avail, wts, c as int, old_order[p as int] as int));
                        if l - 1 > p {
                            assert(piece_before(
                                pol as int,
                                avail,
                                wts,
                                old_order[p as int] as int,
                                old_order[l - 1] as int,
                            ));
                        }
                    } else {
                        assert(piece_before(pol as int, avail, wts, old_order[k - 1] as int, old_order[l - 1] as int));
                    }
                }
            }
        } else {
            proof {
                assert(!is_candidate(own@, avail, c as int));
            }
        }
        c += 1;
    }
    proof {
        assert forall|k: int, l: int| 0 <= k < l < order@.len() implies piece_before(
            pol as int,
            avail,
            wd,
            #[trigger] order@[k] as int,
            #[trigger] order@[l] as int,
        ) by {
            let a = order@[k] as int;
            let b = order@[l] as int;
            assert(is_candidate(own@, avail, a) && is_candidate(own@, avail, b));
            assert(piece_before(pol as int, avail, wts, a, b));
            assert(wts[a] == weight_key(wd[a]) && wts[b] == weight_key(wd[b]));
        }
        assert(avail =~= availability_of(peer_bitfields@, n));
    }
    K::from_ints(order)
}

/// What a selection promises, policy by policy: every selected piece is
/// one we lack and some peer has, every such piece is selected, and the
/// pieces come rarest first (ties by index) under policy 0, by index under
/// policy 1, and by weight, highest first, then rarest, then by index under
/// policy 2. So no piece is selected twice.
pub proof fn lemma_selection_order(pol: int, own: Seq<i64>, avail: Seq<int>, w: Seq<int>, r: Seq<i64>)
    requires
        selection(pol, own, avail, w, r),
    ensures
        forall|k: int|
            0 <= k < r.len() ==> 0 <= #[trigger] r[k] < own.len() && own[r[k] as int] == 0 && avail[r[k] as int] > 0,
        forall|i: int|
            0 <= i < own.len() && own[i] == 0 && avail[i] > 0 ==> exists|k: int| 0 <= k < r.len() && #[trigger] r[k] == i,
        forall|k: int, l: int| 0 <= k < l < r.len() ==> #[trigger] r[k] != #[trigger] r[l],
        pol == 0 ==> forall|k: int, l: int|
            0 <= k < l < r.len() ==> avail[#[trigger] r[k] as int] < avail[#[trigger] r[l] as int] || (avail[r[k] as int]
                == avail[r[l] as int] && r[k] < r[l]),
        pol == 1 ==> forall|k: int, l: int| 0 <= k < l < r.len() ==> #[trigger] r[k] < #[trigger] r[l],
        pol != 0 && pol != 1 ==> forall|k: int, l: int|
            0 <= k < l < r.len() ==> w[#[trigger] r[k] as int] > w[#[trigger] r[l] as int] || (w[r[k] as int] == w[r[l] as int] && (
            avail[r[k] as int] < avail[r[l] as int] || (avail[r[k] as int] == avail[r[l] as int] && r[k] < r[l]))),
{
    assert forall|k: int| 0 <= k < r.len() implies 0 <= #[trigger] r[k] < own.len() && own[r[k] as int] == 0
        && avail[r[k] as int] > 0 by {
        assert(is_candidate(own, avail, r[k] as int));
    }
    assert forall|i: int| 0 <= i < own.len() && own[i] == 0 && avail[i] > 0 implies exists|k: int|
        0 <= k < r.len() && #[trigger] r[k] == i by {
        assert(is_candidate(own, avail, i));
    }
    assert forall|k: int, l: int| 0 <= k < l < r.len() implies #[trigger] r[k] != #[trigger] r[l] by {
        assert(piece_before(pol, avail, w, r[k] as int, r[l] as int));
    }
}

/// Availability counts peers: the count over two groups of peers is the
/// sum of their counts, and one peer counts for a piece exactly when its
/// bitfield has a positive entry there.
pub proof fn lemma_peers_having_concat(a: Seq<KV>, b: Seq<KV>, i: int)
    ensures
        peers_having(a + b, i) == peers_having(a, i) + peers_having(b, i),
        forall|p: KV| #[trigger] peers_having(seq![p], i) == (if i < p.ints().len() && p.ints()[i] > 0 {
            1int
        } else {
            0int
        }),
    decreases b.len(),
{
    if b.len() == 0 {
        assert(a + b =~= a);
    } else {
        lemma_peers_having_concat(a, b.drop_last(), i);
        assert((a + b).drop_last() =~= a + b.drop_last());
        assert((a + b).last() == b.last());
    }
    assert forall|p: KV| #[trigger] peers_having(seq![p], i) == (if i < p.ints().len() && p.ints()[i] > 0 {
        1int
    } else {
        0int
    }) by {
        assert(peers_having(Seq::<KV>::empty(), i) == 0);
        assert(seq![p].drop_last() =~= Seq::<KV>::empty());
        assert(seq![p].last() == p);
    }
}

} // verus!
