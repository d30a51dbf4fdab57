//! The route optimizer: a best-first maximizing search over the pool graph.
//!
//! Each pool is two directed edges between its token addresses; the search
//! keeps, per token, the greatest amount reachable so far and the token it
//! was reached from, and relaxes edges from a max-priority queue. Because
//! the pricing policy never creates value and is monotonic, the search finds
//! the path that maximizes the output amount, which is proved here: the
//! returned route achieves its output amount, and no path achieves more.

use vstd::prelude::*;

use crate::pool::{Pool, PoolView};
use crate::pricing::{
    calculate_amount_out, lemma_output_le_input, lemma_output_monotonic, spec_output_amount,
};
use crate::registry::pool_views;

verus! {

/// A route: the token addresses from the input token to the output token,
/// and the amount that comes out of the last hop.
pub struct Route {
    pub path: Vec<String>,
    pub output_amount: u128,
}

/// The views of a sequence of token address strings.
pub open spec fn token_views(ts: Seq<String>) -> Seq<Seq<char>> {
    ts.map(|i: int, s: String| s@)
}

/// Some position of `tv` holds the address `a`.
pub open spec fn has_addr(tv: Seq<Seq<char>>, a: Seq<char>) -> bool {
    exists|k: int| 0 <= k < tv.len() && tv[k] == a
}

/// All positions of `tv` hold pairwise different addresses.
pub open spec fn distinct_seqs(tv: Seq<Seq<char>>) -> bool {
    forall|k1: int, k2: int| 0 <= k1 < k2 < tv.len() ==> tv[k1] != tv[k2]
}

/// Pool `i` joins the addresses `from` and `to`, in either orientation.
pub open spec fn edge(pools: Seq<PoolView>, i: int, from: Seq<char>, to: Seq<char>) -> bool {
    &&& 0 <= i < pools.len()
    &&& ((pools[i].token0.address == from && pools[i].token1.address == to) || (
    pools[i].token1.address == from && pools[i].token0.address == to))
}

/// Entering the path's first token with amount `a` and choosing, hop by hop,
/// some pool that joins the consecutive tokens yields exactly `v` at the
/// path's last token.
pub open spec fn achieves(pools: Seq<PoolView>, path: Seq<Seq<char>>, a: int, v: int) -> bool
    decreases path.len(),
{
    if path.len() == 0 {
        false
    } else if path.len() == 1 {
        v == a
    } else {
        exists|i: int|
            #[trigger] edge(pools, i, path[0], path[1]) && achieves(
                pools,
                path.skip(1),
                spec_output_amount(pools[i].fee as int, a),
                v,
            )
    }
}

/// `path` runs from `src` to `dst`, achieves exactly `out`, and no path
/// from `src` to `dst` achieves more.
pub open spec fn best_route(
    pools: Seq<PoolView>,
    src: Seq<char>,
    dst: Seq<char>,
    a: int,
    path: Seq<Seq<char>>,
    out: int,
) -> bool {
    &&& path.len() >= 1
    &&& path[0] == src
    &&& path.last() == dst
    &&& achieves(pools, path, a, out)
    &&& forall|p: Seq<Seq<char>>, v: int|
        p.len() >= 1 && p[0] == src && p.last() == dst && #[trigger] achieves(pools, p, a, v)
            ==> v <= out
}

/// The whole contract of the search. A route is returned exactly when the
/// destination is the source itself or some chain of pools carries a
/// positive amount to it; the returned route is a best one. No route is a
/// normal outcome, not an error: it says that the destination differs from
/// the source and that every chain of pools to it yields nothing.
pub open spec fn find_route_post(
    pools: Seq<PoolView>,
    src: Seq<char>,
    dst: Seq<char>,
    a: int,
    r: Option<Route>,
) -> bool {
    match r {
        Some(route) => best_route(pools, src, dst, a, token_views(route.path@), route.output_amount as int),
        None => {
            &&& dst != src
            &&& forall|p: Seq<Seq<char>>, v: int|
                p.len() >= 1 && p[0] == src && p.last() == dst && #[trigger] achieves(
                    pools,
                    p,
                    a,
                    v,
                ) ==> v <= 0
        },
    }
}

/// Law: where no chain of pools joins the source to a different
/// destination, the search returns the empty result — a normal outcome,
/// never an error. It follows from the search contract: a returned route
/// from the source to a different destination would itself be such a
/// chain.
pub proof fn lemma_no_chain_means_no_route(
    pools: Seq<PoolView>,
    src: Seq<char>,
    dst: Seq<char>,
    a: int,
    r: Option<Route>,
)
    requires
        find_route_post(pools, src, dst, a, r),
        dst != src,
        forall|p: Seq<Seq<char>>, v: int|
            p.len() >= 2 && p[0] == src && p.last() == dst ==> !(#[trigger] achieves(
                pools,
                p,
                a,
                v,
            )),
    ensures
        r is None,
{
    match r {
        Some(route) => {
            let path = token_views(route.path@);
            assert(achieves(pools, path, a, route.output_amount as int));
            assert(path.len() >= 2);
        },
        None => {},
    }
}

/// Some amount at least `target` is achievable along `path` when entering
/// it with `b`.
pub open spec fn can_reach(pools: Seq<PoolView>, path: Seq<Seq<char>>, b: int, target: int) -> bool {
    exists|w: int| target <= w && #[trigger] achieves(pools, path, b, w)
}

/// Entering `path` with any amount of at least `lo` reaches at least
/// `target` at its end.
pub open spec fn suffix_reaches(
    pools: Seq<PoolView>,
    path: Seq<Seq<char>>,
    lo: int,
    target: int,
) -> bool {
    forall|b: int| lo <= b ==> #[trigger] can_reach(pools, path, b, target)
}

/// The recorded amount at token `t`: zero when none is recorded.
pub open spec fn dist_at(dist: Seq<Option<u128>>, t: int) -> u128 {
    match dist[t] {
        Some(v) => v,
        None => 0,
    }
}

/// The recorded amount as a mathematical integer.
pub open spec fn dor0(dist: Seq<Option<u128>>, t: int) -> int {
    dist_at(dist, t) as int
}

/// Every pool endpoint is indexed among the token addresses.
pub open spec fn endpoints_indexed(pv: Seq<PoolView>, tv: Seq<Seq<char>>) -> bool {
    forall|i: int|
        0 <= i < pv.len() ==> has_addr(tv, (#[trigger] pv[i]).token0.address) && has_addr(
            tv,
            pv[i].token1.address,
        )
}

/// Every edge of a pool with index below `bound` that leaves token `t` is
/// relaxed: the amount it would deliver does not beat the recorded amount.
pub open spec fn settled_upto(
    pv: Seq<PoolView>,
    tv: Seq<Seq<char>>,
    dist: Seq<Option<u128>>,
    t: int,
    bound: int,
) -> bool {
    forall|i: int, u: int|
        0 <= i < bound && 0 <= u < tv.len() && #[trigger] edge(pv, i, tv[t], tv[u])
            ==> spec_output_amount(pv[i].fee as int, dor0(dist, t)) <= dor0(dist, u)
}

/// Every edge leaving token `t` is relaxed.
pub open spec fn settled(
    pv: Seq<PoolView>,
    tv: Seq<Seq<char>>,
    dist: Seq<Option<u128>>,
    t: int,
) -> bool {
    settled_upto(pv, tv, dist, t, pv.len() as int)
}

/// The queue holds an entry of value `v` for token `t`.
pub open spec fn in_queue(q: Seq<(u128, usize)>, v: u128, t: int) -> bool {
    exists|j: int| 0 <= j < q.len() && q[j] == (v, t as usize)
}

/// Every queue entry names an indexed token with a recorded amount, and
/// does not overstate that amount.
pub open spec fn queue_wf(q: Seq<(u128, usize)>, dist: Seq<Option<u128>>) -> bool {
    forall|j: int|
        0 <= j < q.len() ==> 0 <= (#[trigger] q[j]).1 < dist.len() && dist[q[j].1 as int] is Some
            && q[j].0 <= dist_at(dist, q[j].1 as int)
}

/// Every token with a recorded amount, except `skip_t`, either still has
/// its current amount pending in the queue or is settled.
pub open spec fn pending_or_settled(
    pv: Seq<PoolView>,
    tv: Seq<Seq<char>>,
    dist: Seq<Option<u128>>,
    q: Seq<(u128, usize)>,
    skip_t: int,
) -> bool {
    forall|t: int|
        0 <= t < dist.len() && t != skip_t && #[trigger] dist[t] is Some ==> in_queue(
            q,
            dist_at(dist, t),
            t,
        ) || settled(pv, tv, dist, t)
}

/// The predecessor record of token `t` is consistent: it names another
/// token with a recorded amount, reached over some pool whose edge delivers
/// at least `t`'s recorded amount from the predecessor's recorded amount,
/// and either the predecessor was recorded earlier or it strictly beats `t`.
pub open spec fn pred_edge_ok(
    pv: Seq<PoolView>,
    tv: Seq<Seq<char>>,
    dist: Seq<Option<u128>>,
    pred: Seq<Option<usize>>,
    stamps: Seq<nat>,
    t: int,
) -> bool {
    match pred[t] {
        Some(pt) => {
            let p = pt as int;
            &&& t != 0
            &&& dist[t] is Some
            &&& 0 <= p < tv.len()
            &&& p != t
            &&& dist[p] is Some
            &&& dor0(dist, t) <= dor0(dist, p)
            &&& exists|i: int|
                #[trigger] edge(pv, i, tv[p], tv[t]) && dor0(dist, t) <= spec_output_amount(
                    pv[i].fee as int,
                    dor0(dist, p),
                )
            &&& (stamps[p] < stamps[t] || dor0(dist, t) < dor0(dist, p))
        },
        None => true,
    }
}

/// The search invariant: the shape of the tables, the seed at the source
/// token, the bounds on recorded amounts, and the consistency of every
/// predecessor record.
pub open spec fn search_inv(
    pv: Seq<PoolView>,
    tv: Seq<Seq<char>>,
    a: u128,
    dist: Seq<Option<u128>>,
    pred: Seq<Option<usize>>,
    stamps: Seq<nat>,
    clock: nat,
) -> bool {
    let n = tv.len() as int;
    &&& dist.len() == n
    &&& pred.len() == n
    &&& stamps.len() == n
    &&& n >= 1
    &&& distinct_seqs(tv)
    &&& endpoints_indexed(pv, tv)
    &&& dist[0] == Some(a)
    &&& pred[0] is None
    &&& (forall|t: int| 0 <= t < n && #[trigger] dist[t] is Some ==> dist_at(dist, t) <= a)
    &&& (forall|t: int|
        0 < t < n && #[trigger] dist[t] is Some ==> dist_at(dist, t) > 0 && pred[t] is Some)
    &&& (forall|t: int| 0 <= t < n ==> #[trigger] pred_edge_ok(pv, tv, dist, pred, stamps, t))
    &&& (forall|t: int| 0 <= t < n ==> #[trigger] stamps[t] <= clock)
}

/// How far the recorded amount at one token still is from the input amount.
pub open spec fn gap(d: Option<u128>, a: u128) -> nat {
    match d {
        Some(v) => if v <= a {
            (a - v) as nat
        } else {
            0
        },
        None => a as nat,
    }
}

/// The sum of all gaps: every relaxation strictly shrinks it, which bounds
/// the search.
pub open spec fn potential(dist: Seq<Option<u128>>, a: u128) -> nat
    decreases dist.len(),
{
    if dist.len() == 0 {
        0
    } else {
        potential(dist.drop_last(), a) + gap(dist.last(), a)
    }
}

/// Raising one recorded amount strictly shrinks the potential.
proof fn lemma_potential_update(dist: Seq<Option<u128>>, u: int, nv: u128, a: u128)
    requires
        0 <= u < dist.len(),
        dor0(dist, u) < nv as int,
        nv <= a,
    ensures
        potential(dist.update(u, Some(nv)), a) < potential(dist, a),
    decreases dist.len(),
{
    let d2 = dist.update(u, Some(nv));
    if u == dist.len() - 1 {
        assert(d2.drop_last() =~= dist.drop_last());
        assert(gap(d2.last(), a) < gap(dist.last(), a));
    } else {
        assert(d2.drop_last() =~= dist.drop_last().update(u, Some(nv)));
        assert(d2.last() == dist.last());
        lemma_potential_update(dist.drop_last(), u, nv, a);
    }
}

/// The last token of a path of at least one hop is a pool endpoint, so it
/// is indexed.
proof fn lemma_path_last_indexed(
    pv: Seq<PoolView>,
    tv: Seq<Seq<char>>,
    path: Seq<Seq<char>>,
    a: int,
    v: int,
)
    requires
        endpoints_indexed(pv, tv),
        achieves(pv, path, a, v),
        path.len() >= 2,
    ensures
        has_addr(tv, path.last()),
    decreases path.len(),
{
    let i = choose|i: int|
        #[trigger] edge(pv, i, path[0], path[1]) && achieves(
            pv,
            path.skip(1),
            spec_output_amount(pv[i].fee as int, a),
            v,
        );
    if path.len() == 2 {
        assert(path.last() == path[1]);
    } else {
        lemma_path_last_indexed(pv, tv, path.skip(1), spec_output_amount(pv[i].fee as int, a), v);
        assert(path.skip(1).last() == path.last());
    }
}

/// Once every token with a recorded amount is settled, no path can beat
/// the recorded amounts: whatever a path achieves at its last token is at
/// most that token's recorded amount.
proof fn lemma_path_bounded(
    pv: Seq<PoolView>,
    tv: Seq<Seq<char>>,
    dist: Seq<Option<u128>>,
    path: Seq<Seq<char>>,
    a: int,
    v: int,
    t0: int,
)
    requires
        endpoints_indexed(pv, tv),
        distinct_seqs(tv),
        dist.len() == tv.len(),
        forall|t: int|
            0 <= t < dist.len() && #[trigger] dist[t] is Some ==> settled(pv, tv, dist, t),
        0 <= t0 < tv.len(),
        path.len() >= 1,
        path[0] == tv[t0],
        achieves(pv, path, a, v),
        0 <= a,
        a <= dor0(dist, t0),
    ensures
        forall|u: int| 0 <= u < tv.len() && tv[u] == path.last() ==> v <= dor0(dist, u),
    decreases path.len(),
{
    if path.len() == 1 {
        assert(path.last() == tv[t0]);
        assert forall|u: int| 0 <= u < tv.len() && tv[u] == path.last() implies v <= dor0(
            dist,
            u,
        ) by {
            assert(u == t0);
        }
    } else {
        let i = choose|i: int|
            #[trigger] edge(pv, i, path[0], path[1]) && achieves(
                pv,
                path.skip(1),
                spec_output_amount(pv[i].fee as int, a),
                v,
            );
        let fee = pv[i].fee as int;
        let w = spec_output_amount(fee, a);
        assert(has_addr(tv, path[1]));
        let t1 = choose|t1: int| 0 <= t1 < tv.len() && tv[t1] == path[1];
        lemma_output_le_input(fee, a);
        if dist[t0] is Some {
            lemma_output_monotonic(fee, a, dor0(dist, t0));
            assert(settled(pv, tv, dist, t0));
            assert(spec_output_amount(fee, dor0(dist, t0)) <= dor0(dist, t1));
        } else {
            assert(a == 0);
            assert(w == 0);
        }
        assert(path.skip(1)[0] == path[1]);
        assert(path.skip(1).last() == path.last());
        lemma_path_bounded(pv, tv, dist, path.skip(1), w, v, t1);
    }
}

/// Relaxing an edge keeps the whole search invariant: the updated tables
/// stay consistent, the new amount goes pending in the queue, and the
/// potential strictly shrinks.
proof fn lemma_relax(
    pv: Seq<PoolView>,
    tv: Seq<Seq<char>>,
    a: u128,
    dist: Seq<Option<u128>>,
    pred: Seq<Option<usize>>,
    stamps: Seq<nat>,
    clock: nat,
    q: Seq<(u128, usize)>,
    ti: int,
    nt: int,
    pi: int,
    out: u128,
)
    requires
        search_inv(pv, tv, a, dist, pred, stamps, clock),
        queue_wf(q, dist),
        pending_or_settled(pv, tv, dist, q, ti),
        tv.len() <= usize::MAX,
        0 <= ti < tv.len(),
        0 <= nt < tv.len(),
        dist[ti] is Some,
        edge(pv, pi, tv[ti], tv[nt]),
        out == spec_output_amount(pv[pi].fee as int, dor0(dist, ti)),
        out as int > dor0(dist, nt),
    ensures
        ({
            let dist2 = dist.update(nt, Some(out));
            let pred2 = pred.update(nt, Some(ti as usize));
            let stamps2 = stamps.update(nt, (clock + 1) as nat);
            let q2 = q.push((out, nt as usize));
            &&& nt != ti
            &&& nt != 0
            &&& search_inv(pv, tv, a, dist2, pred2, stamps2, (clock + 1) as nat)
            &&& queue_wf(q2, dist2)
            &&& pending_or_settled(pv, tv, dist2, q2, ti)
            &&& potential(dist2, a) < potential(dist, a)
            &&& dist2[ti] == dist[ti]
            &&& (forall|t: int| 0 <= t < dist.len() ==> dor0(dist, t) <= dor0(dist2, t))
        }),
{
    let fee = pv[pi].fee as int;
    lemma_output_le_input(fee, dor0(dist, ti));
    assert(out as int <= dor0(dist, ti));
    assert(nt != ti);
    assert(nt != 0);
    let dist2 = dist.update(nt, Some(out));
    let pred2 = pred.update(nt, Some(ti as usize));
    let stamps2 = stamps.update(nt, (clock + 1) as nat);
    let q2 = q.push((out, nt as usize));
    lemma_potential_update(dist, nt, out, a);
    assert forall|t: int| 0 <= t < tv.len() implies #[trigger] pred_edge_ok(
        pv,
        tv,
        dist2,
        pred2,
        stamps2,
        t,
    ) by {
        if t == nt {
            assert(edge(pv, pi, tv[ti], tv[nt]));
            assert(dor0(dist2, nt) <= spec_output_amount(pv[pi].fee as int, dor0(dist2, ti)));
        } else {
            assert(pred_edge_ok(pv, tv, dist, pred, stamps, t));
            match pred[t] {
                Some(pt) => {
                    let p = pt as int;
                    let i0 = choose|i0: int|
                        #[trigger] edge(pv, i0, tv[p], tv[t]) && dor0(dist, t)
                            <= spec_output_amount(pv[i0].fee as int, dor0(dist, p));
                    if p == nt {
                        lemma_output_monotonic(pv[i0].fee as int, dor0(dist, p), dor0(dist2, p));
                        assert(edge(pv, i0, tv[p], tv[t]) && dor0(dist2, t) <= spec_output_amount(
                            pv[i0].fee as int,
                            dor0(dist2, p),
                        ));
                        assert(dor0(dist2, t) < dor0(dist2, p));
                    } else {
                        assert(edge(pv, i0, tv[p], tv[t]) && dor0(dist2, t) <= spec_output_amount(
                            pv[i0].fee as int,
                            dor0(dist2, p),
                        ));
                    }
                },
                None => {},
            }
        }
    }
    assert forall|t: int|
        0 <= t < dist2.len() && t != ti && #[trigger] dist2[t] is Some implies in_queue(
        q2,
        dist_at(dist2, t),
        t,
    ) || settled(pv, tv, dist2, t) by {
        if t == nt {
            assert(q2[q2.len() - 1] == (out, nt as usize));
            assert(in_queue(q2, dist_at(dist2, nt), nt));
        } else {
            assert(dist[t] is Some);
            if in_queue(q, dist_at(dist, t), t) {
                let j = choose|j: int| 0 <= j < q.len() && q[j] == (dist_at(dist, t), t as usize);
                assert(q2[j] == (dist_at(dist2, t), t as usize));
                assert(in_queue(q2, dist_at(dist2, t), t));
            } else {
                assert(settled(pv, tv, dist, t));
                assert forall|i2: int, u: int|
                    0 <= i2 < pv.len() && 0 <= u < tv.len() && #[trigger] edge(
                        pv,
                        i2,
                        tv[t],
                        tv[u],
                    ) implies spec_output_amount(pv[i2].fee as int, dor0(dist2, t)) <= dor0(
                    dist2,
                    u,
                ) by {
                    assert(spec_output_amount(pv[i2].fee as int, dor0(dist, t)) <= dor0(dist, u));
                }
            }
        }
    }
}

/// Removing one queue entry by a swap with the last keeps every other
/// token's pending entry, so the pending-or-settled claim survives, with
/// the removed entry's token excused when it was not merely stale.
proof fn lemma_swap_remove_pending(
    pv: Seq<PoolView>,
    tv: Seq<Seq<char>>,
    dist: Seq<Option<u128>>,
    q: Seq<(u128, usize)>,
    m: int,
    skip_t: int,
)
    requires
        0 <= m < q.len(),
        dist.len() <= usize::MAX,
        pending_or_settled(pv, tv, dist, q, -1),
        q[m].1 == skip_t || (q[m].0 as int) < dor0(dist, q[m].1 as int),
    ensures
        pending_or_settled(pv, tv, dist, q.update(m, q.last()).drop_last(), skip_t),
{
    let q2 = q.update(m, q.last()).drop_last();
    assert forall|t: int|
        0 <= t < dist.len() && t != skip_t && #[trigger] dist[t] is Some implies in_queue(
        q2,
        dist_at(dist, t),
        t,
    ) || settled(pv, tv, dist, t) by {
        if in_queue(q, dist_at(dist, t), t) && !settled(pv, tv, dist, t) {
            let j = choose|j: int| 0 <= j < q.len() && q[j] == (dist_at(dist, t), t as usize);
            if j == m {
                assert(false);
            } else if j == q.len() - 1 {
                assert(q2[m] == q[j]);
                assert(in_queue(q2, dist_at(dist, t), t));
            } else {
                assert(q2[j] == q[j]);
                assert(in_queue(q2, dist_at(dist, t), t));
            }
        }
    }
}

/// A settled token stays settled while recorded amounts only grow and its
/// own stays put.
proof fn lemma_settled_upto_monotone(
    pv: Seq<PoolView>,
    tv: Seq<Seq<char>>,
    d1: Seq<Option<u128>>,
    d2: Seq<Option<u128>>,
    t: int,
    bound: int,
)
    requires
        settled_upto(pv, tv, d1, t, bound),
        d1.len() == tv.len(),
        d2.len() == tv.len(),
        0 <= t < tv.len(),
        dor0(d2, t) == dor0(d1, t),
        forall|u: int| 0 <= u < d1.len() ==> dor0(d1, u) <= dor0(d2, u),
    ensures
        settled_upto(pv, tv, d2, t, bound),
{
    assert forall|i: int, u: int|
        0 <= i < bound && 0 <= u < tv.len() && #[trigger] edge(pv, i, tv[t], tv[u]) implies
    spec_output_amount(pv[i].fee as int, dor0(d2, t)) <= dor0(d2, u) by {
        assert(spec_output_amount(pv[i].fee as int, dor0(d1, t)) <= dor0(d1, u));
    }
}

/// The position of `addr` among the indexed token addresses, if any.
fn find_token(tokens: &Vec<String>, addr: &String) -> (r: Option<usize>)
    ensures
        match r {
            Some(k) => 0 <= (k as int) < tokens@.len() && token_views(tokens@)[k as int] == addr@,
            None => !has_addr(token_views(tokens@), addr@),
        },
{
    let mut k: usize = 0;
    while k < tokens.len()
        invariant
            0 <= k <= tokens@.len(),
            forall|t: int| 0 <= t < k ==> token_views(tokens@)[t] != addr@,
        decreases tokens@.len() - k,
    {
        if tokens[k] == *addr {
            return Some(k);
        }
        k = k + 1;
    }
    None
}

/// Indexes `addr` if it is not indexed yet, keeping the existing positions.
fn add_token(tokens: &mut Vec<String>, addr: &String)
    requires
        distinct_seqs(token_views(old(tokens)@)),
    ensures
        distinct_seqs(token_views(final(tokens)@)),
        has_addr(token_views(final(tokens)@), addr@),
        old(tokens)@.len() <= final(tokens)@.len() <= old(tokens)@.len() + 1,
        forall|t: int|
            0 <= t < old(tokens)@.len() ==> token_views(final(tokens)@)[t] == token_views(
                old(tokens)@,
            )[t],
{
    match find_token(tokens, addr) {
        Some(_) => {},
        None => {
            tokens.push(addr.clone());
            proof {
                let tv_old = token_views(old(tokens)@);
                let tv = token_views(tokens@);
                assert(tv[tokens@.len() - 1] == addr@);
                assert forall|k1: int, k2: int| 0 <= k1 < k2 < tv.len() implies tv[k1]
                    != tv[k2] by {
                    if k2 == tv.len() - 1 {
                        assert(tv[k1] == tv_old[k1]);
                        assert(!has_addr(tv_old, addr@));
                    } else {
                        assert(tv[k1] == tv_old[k1] && tv[k2] == tv_old[k2]);
                    }
                }
            }
        },
    }
}

/// The best-first maximizing search: from the snapshot's pool graph, the
/// route from `token_in` to `token_out` that maximizes what comes out of
/// `amount_in`, or nothing when no chain of pools carries a positive
/// amount there.
pub fn find_route(
    pools: &Vec<Pool>,
    token_in: &String,
    token_out: &String,
    amount_in: u128,
) -> (r: Option<Route>)
    ensures
        find_route_post(pool_views(pools@), token_in@, token_out@, amount_in as int, r),
{
    let ghost pv = pool_views(pools@);
    // Index the source token and every pool endpoint.
    let mut tokens: Vec<String> = Vec::new();
    tokens.push(token_in.clone());
    let mut bi: usize = 0;
    while bi < pools.len()
        invariant
            0 <= bi <= pools@.len(),
            pv == pool_views(pools@),
            tokens@.len() >= 1,
            token_views(tokens@)[0] == token_in@,
            distinct_seqs(token_views(tokens@)),
            forall|i: int|
                0 <= i < bi ==> has_addr(token_views(tokens@), (#[trigger] pv[i]).token0.address)
                    && has_addr(token_views(tokens@), pv[i].token1.address),
        decreases pools@.len() - bi,
    {
        let ghost tv_before = token_views(tokens@);
        proof {
            assert(pv[bi as int] == pools@[bi as int]@);
        }
        add_token(&mut tokens, &pools[bi].token0.address);
        let ghost tv_mid = token_views(tokens@);
        add_token(&mut tokens, &pools[bi].token1.address);
        proof {
            let tv_now = token_views(tokens@);
            assert forall|x: Seq<char>| has_addr(tv_mid, x) implies has_addr(tv_now, x) by {
                let k = choose|k: int| 0 <= k < tv_mid.len() && tv_mid[k] == x;
                assert(tv_now[k] == x);
            }
            assert forall|x: Seq<char>| has_addr(tv_before, x) implies has_addr(tv_mid, x) by {
                let k = choose|k: int| 0 <= k < tv_before.len() && tv_before[k] == x;
                assert(tv_mid[k] == x);
            }
        }
        bi = bi + 1;
    }
    let ghost tv = token_views(tokens@);
    let n = tokens.len();
    // Per-token tables: greatest amount reached so far, and reached from.
    let mut dist: Vec<Option<u128>> = Vec::new();
    let mut pred: Vec<Option<usize>> = Vec::new();
    let mut t0: usize = 0;
    while t0 < n
        invariant
            0 <= t0 <= n,
            dist@.len() == t0,
            pred@.len() == t0,
            forall|t: int| 0 <= t < t0 ==> #[trigger] dist@[t] is None,
            forall|t: int| 0 <= t < t0 ==> #[trigger] pred@[t] is None,
        decreases n - t0,
    {
        dist.push(None);
        pred.push(None);
        t0 = t0 + 1;
    }
    let elem = vstd::std_specs::vec::vec_index_mut(&mut dist, 0);
    *elem = Some(amount_in);
    let mut qv: Vec<(u128, usize)> = Vec::new();
    qv.push((amount_in, 0));
    let ghost mut stamps: Seq<nat> = Seq::new(tv.len(), |i: int| 0nat);
    let ghost mut clock: nat = 0;
    proof {
        assert(qv@[0] == (amount_in, 0usize));
        assert(in_queue(qv@, amount_in, 0));
    }
    // Pop the largest pending amount and relax every edge that leaves it.
    while qv.len() > 0
        invariant
            pv == pool_views(pools@),
            tv == token_views(tokens@),
            tv[0] == token_in@,
            n == tokens@.len(),
            search_inv(pv, tv, amount_in, dist@, pred@, stamps, clock),
            queue_wf(qv@, dist@),
            pending_or_settled(pv, tv, dist@, qv@, -1),
        decreases potential(dist@, amount_in), qv@.len(),
    {
        // The queue entry with the largest amount.
        let mut m: usize = 0;
        let mut mi: usize = 1;
        while mi < qv.len()
            invariant
                0 <= m < qv@.len(),
                1 <= mi <= qv@.len(),
                forall|j: int| 0 <= j < mi ==> (#[trigger] qv@[j]).0 <= qv@[m as int].0,
            decreases qv@.len() - mi,
        {
            if qv[mi].0 > qv[m].0 {
                m = mi;
            }
            mi = mi + 1;
        }
        let ghost q_old = qv@;
        let (amt, ti) = qv.swap_remove(m);
        proof {
            assert(q_old[m as int] == (amt, ti));
            assert(dist@[ti as int] is Some);
        }
        let cur = match dist[ti] {
            Some(v) => v,
            None => vstd::pervasive::unreached(),
        };
        if amt < cur {
            // Stale entry: a better amount for this token was already
            // recorded and is pending or settled on its own account.
            proof {
                lemma_swap_remove_pending(pv, tv, dist@, q_old, m as int, -1);
            }
        } else {
            proof {
                lemma_swap_remove_pending(pv, tv, dist@, q_old, m as int, ti as int);
            }
            let ghost pot0 = potential(dist@, amount_in);
            let ghost qlen0 = qv@.len();
            let mut pi: usize = 0;
            while pi < pools.len()
                invariant
                    pv == pool_views(pools@),
                    tv == token_views(tokens@),
                    n == tokens@.len(),
                    0 <= pi <= pools@.len(),
                    0 <= (ti as int) < tv.len(),
                    search_inv(pv, tv, amount_in, dist@, pred@, stamps, clock),
                    queue_wf(qv@, dist@),
                    pending_or_settled(pv, tv, dist@, qv@, ti as int),
                    dist@[ti as int] == Some(amt),
                    settled_upto(pv, tv, dist@, ti as int, pi as int),
                    potential(dist@, amount_in) <= pot0,
                    potential(dist@, amount_in) == pot0 ==> qv@.len() == qlen0,
                decreases pools@.len() - pi,
            {
                let ghost dist_entry = dist@;
                proof {
                    assert(pv[pi as int] == pools@[pi as int]@);
                }
                let p = &pools[pi];
                let m0 = p.token0.address == tokens[ti];
                let m1 = p.token1.address == tokens[ti];
                let ghost mut relax0: int = -1;
                if m0 {
                    let out = calculate_amount_out(p, amt);
                    let nt = match find_token(&tokens, &p.token1.address) {
                        Some(k) => k,
                        None => vstd::pervasive::unreached(),
                    };
                    proof {
                        relax0 = nt as int;
                        assert(edge(pv, pi as int, tv[ti as int], tv[nt as int]));
                    }
                    let better = match dist[nt] {
                        Some(dv) => out > dv,
                        None => out > 0,
                    };
                    if better {
                        proof {
                            lemma_relax(
                                pv,
                                tv,
                                amount_in,
                                dist@,
                                pred@,
                                stamps,
                                clock,
                                qv@,
                                ti as int,
                                nt as int,
                                pi as int,
                                out,
                            );
                            stamps = stamps.update(nt as int, clock + 1);
                            clock = clock + 1;
                        }
                        let e1 = vstd::std_specs::vec::vec_index_mut(&mut dist, nt);
                        *e1 = Some(out);
                        let e2 = vstd::std_specs::vec::vec_index_mut(&mut pred, nt);
                        *e2 = Some(ti);
                        qv.push((out, nt));
                    }
                    proof {
                        assert(spec_output_amount(pv[pi as int].fee as int, amt as int) <= dor0(
                            dist@,
                            nt as int,
                        ));
                    }
                }
                let ghost dist_mid = dist@;
                proof {
                    if m0 {
                        assert(spec_output_amount(pv[pi as int].fee as int, amt as int) <= dor0(
                            dist_mid,
                            relax0,
                        ));
                    }
                }
                if m1 {
                    let out = calculate_amount_out(p, amt);
                    let nt = match find_token(&tokens, &p.token0.address) {
                        Some(k) => k,
                        None => vstd::pervasive::unreached(),
                    };
                    proof {
                        assert(edge(pv, pi as int, tv[ti as int], tv[nt as int]));
                    }
                    let better = match dist[nt] {
                        Some(dv) => out > dv,
                        None => out > 0,
                    };
                    if better {
                        proof {
                            lemma_relax(
                                pv,
                                tv,
                                amount_in,
                                dist@,
                                pred@,
                                stamps,
                                clock,
                                qv@,
                                ti as int,
                                nt as int,
                                pi as int,
                                out,
                            );
                            stamps = stamps.update(nt as int, clock + 1);
                            clock = clock + 1;
                        }
                        let e1 = vstd::std_specs::vec::vec_index_mut(&mut dist, nt);
                        *e1 = Some(out);
                        let e2 = vstd::std_specs::vec::vec_index_mut(&mut pred, nt);
                        *e2 = Some(ti);
                        qv.push((out, nt));
                    }
                    proof {
                        assert(spec_output_amount(pv[pi as int].fee as int, amt as int) <= dor0(
                            dist@,
                            nt as int,
                        ));
                    }
                }
                proof {
                    let pvi = pv[pi as int];
                    lemma_settled_upto_monotone(
                        pv,
                        tv,
                        dist_entry,
                        dist@,
                        ti as int,
                        pi as int,
                    );
                    assert forall|i2: int, u: int|
                        0 <= i2 < pi + 1 && 0 <= u < tv.len() && #[trigger] edge(
                            pv,
                            i2,
                            tv[ti as int],
                            tv[u],
                        ) implies spec_output_amount(pv[i2].fee as int, dor0(dist@, ti as int))
                        <= dor0(dist@, u) by {
                        if i2 == pi {
                            if pvi.token0.address == tv[ti as int] && pvi.token1.address == tv[u] {
                                assert(u == relax0);
                                assert(dor0(dist_mid, u) <= dor0(dist@, u));
                            } else {
                                assert(pvi.token1.address == tv[ti as int] && pvi.token0.address
                                    == tv[u]);
                            }
                        }
                    }
                }
                pi = pi + 1;
            }
            proof {
                assert forall|t: int|
                    0 <= t < dist@.len() && #[trigger] dist@[t] is Some implies in_queue(
                    qv@,
                    dist_at(dist@, t),
                    t,
                ) || settled(pv, tv, dist@, t) by {
                    if t == ti as int {
                        assert(settled(pv, tv, dist@, t));
                    }
                }
            }
        }
    }
    // The queue is empty: every recorded token is settled, so the recorded
    // amounts bound every path.
    proof {
        assert forall|t: int|
            0 <= t < dist@.len() && #[trigger] dist@[t] is Some implies settled(
            pv,
            tv,
            dist@,
            t,
        ) by {
            assert(!in_queue(qv@, dist_at(dist@, t), t));
        }
    }
    let oi = match find_token(&tokens, token_out) {
        Some(k) => k,
        None => {
            // The destination appears in no pool: no chain reaches it, and
            // it is not the source either.
            proof {
                assert(token_out@ != tv[0]);
                assert forall|p: Seq<Seq<char>>, v: int|
                    p.len() >= 1 && p[0] == token_in@ && p.last() == token_out@
                        && #[trigger] achieves(pv, p, amount_in as int, v) implies v <= 0 by {
                    if p.len() >= 2 {
                        lemma_path_last_indexed(pv, tv, p, amount_in as int, v);
                    }
                }
            }
            return None;
        },
    };
    let best = match dist[oi] {
        Some(v) => v,
        None => {
            // Recorded nowhere: every chain to the destination yields
            // nothing.
            proof {
                assert(oi != 0);
                assert(token_out@ != tv[0]);
                assert forall|p: Seq<Seq<char>>, v: int|
                    p.len() >= 1 && p[0] == token_in@ && p.last() == token_out@
                        && #[trigger] achieves(pv, p, amount_in as int, v) implies v <= 0 by {
                    lemma_path_bounded(pv, tv, dist@, p, amount_in as int, v, 0);
                }
            }
            return None;
        },
    };
    // Walk the predecessor records back from the destination; the suffix
    // walked so far delivers at least `best` from any amount at least the
    // current token's recorded amount.
    let mut rev: Vec<String> = Vec::new();
    let mut cur: usize = oi;
    let ghost mut suffix: Seq<Seq<char>> = seq![tv[oi as int]];
    proof {
        assert forall|b: int| dor0(dist@, oi as int) <= b implies #[trigger] can_reach(
            pv,
            suffix,
            b,
            best as int,
        ) by {
            assert(achieves(pv, suffix, b, b));
        }
    }
    while pred[cur].is_some()
        invariant
            pv == pool_views(pools@),
            tv == token_views(tokens@),
            n == tokens@.len(),
            search_inv(pv, tv, amount_in, dist@, pred@, stamps, clock),
            0 <= (cur as int) < tv.len(),
            dist@[cur as int] is Some,
            suffix.len() >= 1,
            suffix[0] == tv[cur as int],
            suffix.last() == tv[oi as int],
            suffix_reaches(pv, suffix, dor0(dist@, cur as int), best as int),
            rev@.len() + 1 == suffix.len(),
            forall|j: int|
                0 <= j < rev@.len() ==> (#[trigger] rev@[j])@ == suffix[suffix.len() - 1 - j],
        decreases (amount_in as int) - dor0(dist@, cur as int), stamps[cur as int],
    {
        let pn = match pred[cur] {
            Some(p) => p,
            None => vstd::pervasive::unreached(),
        };
        rev.push(tokens[cur].clone());
        let ghost suffix_old = suffix;
        proof {
            assert(pred_edge_ok(pv, tv, dist@, pred@, stamps, cur as int));
            suffix = seq![tv[pn as int]] + suffix_old;
            let i0 = choose|i0: int|
                #[trigger] edge(pv, i0, tv[pn as int], tv[cur as int]) && dor0(dist@, cur as int)
                    <= spec_output_amount(pv[i0].fee as int, dor0(dist@, pn as int));
            assert forall|b: int| dor0(dist@, pn as int) <= b implies #[trigger] can_reach(
                pv,
                suffix,
                b,
                best as int,
            ) by {
                lemma_output_monotonic(pv[i0].fee as int, dor0(dist@, pn as int), b);
                let w0 = spec_output_amount(pv[i0].fee as int, b);
                assert(dor0(dist@, cur as int) <= w0);
                assert(can_reach(pv, suffix_old, w0, best as int));
                let w = choose|w: int| best as int <= w && #[trigger] achieves(pv, suffix_old, w0, w);
                assert(suffix.skip(1) =~= suffix_old);
                assert(suffix[0] == tv[pn as int] && suffix[1] == suffix_old[0]);
                assert(edge(pv, i0, suffix[0], suffix[1]));
                assert(achieves(pv, suffix, b, w));
            }
            assert forall|j: int| 0 <= j < rev@.len() implies (#[trigger] rev@[j])@ == suffix[
            suffix.len() - 1 - j] by {
                if j < rev@.len() - 1 {
                    assert(rev@[j]@ == suffix_old[suffix_old.len() - 1 - j]);
                    assert(suffix[suffix.len() - 1 - j] == suffix_old[suffix_old.len() - 1 - j]);
                } else {
                    assert(rev@[j]@ == tv[cur as int]);
                    assert(suffix[suffix.len() - 1 - j] == suffix[1]);
                    assert(suffix[1] == suffix_old[0]);
                }
            }
        }
        cur = pn;
    }
    proof {
        assert(cur as int == 0);
    }
    rev.push(tokens[0].clone());
    // The walk collected the route back to front; straighten it.
    let mut path: Vec<String> = Vec::new();
    let mut j = rev.len();
    while j > 0
        invariant
            0 <= j <= rev@.len(),
            rev@.len() == suffix.len(),
            path@.len() == rev@.len() - j,
            forall|t: int|
                0 <= t < path@.len() ==> (#[trigger] path@[t])@ == rev@[rev@.len() - 1 - t]@,
        decreases j,
    {
        j = j - 1;
        path.push(rev[j].clone());
    }
    proof {
        // The straightened path is exactly the walked suffix, which runs
        // from the source to the destination.
        assert forall|t: int| 0 <= t < path@.len() implies (#[trigger] token_views(path@)[t])
            == suffix[t] by {
            let jj = rev@.len() - 1 - t;
            if jj == rev@.len() - 1 {
                assert(rev@[jj]@ == tv[0]);
                assert(suffix[0] == tv[0]);
            } else {
                assert(rev@[jj]@ == suffix[suffix.len() - 1 - jj]);
            }
        }
        assert(token_views(path@) =~= suffix);
        // The suffix achieves some amount of at least `best` from the full
        // input, and no path beats `best`, so it achieves `best` exactly.
        assert(can_reach(pv, suffix, amount_in as int, best as int));
        let w = choose|w: int|
            best as int <= w && #[trigger] achieves(pv, suffix, amount_in as int, w);
        lemma_path_bounded(pv, tv, dist@, suffix, amount_in as int, w, 0);
        assert(w <= dor0(dist@, oi as int));
        assert(w == best as int);
        assert forall|p: Seq<Seq<char>>, v: int|
            p.len() >= 1 && p[0] == token_in@ && p.last() == token_out@ && #[trigger] achieves(
                pv,
                p,
                amount_in as int,
                v,
            ) implies v <= best as int by {
            lemma_path_bounded(pv, tv, dist@, p, amount_in as int, v, 0);
        }
    }
    Some(Route { path, output_amount: best })
}

} // verus!
