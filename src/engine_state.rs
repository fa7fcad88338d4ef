//! The invariant that holds between rounds, and why the final engagements
//! are the proposer-optimal stable matching.
use vstd::prelude::*;
use crate::model::{
    rank, lemma_rank_at, prefers, blocks, is_matching, is_stable, is_proposer_optimal,
};
use crate::tables::{
    well_formed_tables, table, reaches, lemma_pigeonhole, lemma_ranking_covers,
    lemma_rank_distinct,
};
use crate::round::{
    is_injective_engagement, is_taken, partner_of, lemma_partner, is_candidate, receives_offer,
    is_resolved, pops, is_round, is_valid_offer, is_round_ready,
};

verus! {

/// Responder `w` is engaged to a proposer it ranks at least as high as `m`.
pub open spec fn holds_at_least(pw: Seq<Seq<usize>>, e: Seq<Option<usize>>, w: int, m: int) -> bool {
    is_taken(e, w) && rank(pw[w], partner_of(e, w) as usize) <= rank(pw[w], m as usize)
}

/// How many responders have rejected `m`: those it proposed to, less the one
/// it is engaged to.
pub open spec fn rejections(
    pm: Seq<Seq<usize>>,
    q: Seq<Seq<usize>>,
    e: Seq<Option<usize>>,
    m: int,
) -> int {
    (pm[m].len() - q[m].len()) - if e[m] is Some {
        1int
    } else {
        0int
    }
}

/// No proposer has been rejected by a partner it has in any stable matching.
pub open spec fn keeps_stable_partners(
    pm: Seq<Seq<usize>>,
    pw: Seq<Seq<usize>>,
    q: Seq<Seq<usize>>,
    e: Seq<Option<usize>>,
) -> bool {
    forall|t: Map<usize, usize>, m: int, k: int|
        #![trigger is_stable(table(pm), table(pw), t), pm[m][k]]
        is_stable(table(pm), table(pw), t) && 0 <= m < pm.len() && 0 <= k < rejections(pm, q, e, m)
            ==> t[m as usize] != pm[m][k]
}

/// The invariant of deferred acceptance between rounds, for the preference
/// tables `pm` and `pw`, the remaining queues `q` and the engagements `e`:
/// each queue is what is left of its proposer's list after the responders it
/// proposed to; an engaged proposer is engaged to the last of those; no
/// responder holds two proposers; every responder proposed to by `m` holds
/// someone it ranks at least as high as `m`; and no proposer has been
/// rejected by a partner it has in some stable matching.
pub open spec fn is_engine_state(
    pm: Seq<Seq<usize>>,
    pw: Seq<Seq<usize>>,
    q: Seq<Seq<usize>>,
    e: Seq<Option<usize>>,
) -> bool {
    let n = pm.len() as int;
    &&& well_formed_tables(pm, pw)
    &&& q.len() == n
    &&& e.len() == n
    &&& forall|m: int|
        0 <= m < n ==> (#[trigger] q[m]).len() <= n && q[m] == pm[m].subrange(n - q[m].len(), n)
    &&& forall|m: int|
        0 <= m < n && (#[trigger] e[m]) is Some ==> q[m].len() < n && e[m]->0 == pm[m][n
            - q[m].len() - 1]
    &&& is_injective_engagement(e)
    &&& forall|m: int, k: int|
        0 <= m < n && 0 <= k < n - q[m].len() ==> #[trigger] holds_at_least(pw, e, pm[m][k] as int, m)
    &&& keeps_stable_partners(pm, pw, q, e)
}

/// An unengaged proposer has not exhausted its queue: otherwise every responder
/// would hold another proposer, one responder for each of the other `n - 1`.
pub(crate) proof fn lemma_unengaged_has_options(
    pm: Seq<Seq<usize>>,
    pw: Seq<Seq<usize>>,
    q: Seq<Seq<usize>>,
    e: Seq<Option<usize>>,
    m: int,
)
    requires
        is_engine_state(pm, pw, q, e),
        0 <= m < pm.len(),
        e[m] is None,
    ensures
        q[m].len() > 0,
{
    let n = pm.len() as int;
    if q[m].len() == 0 {
        lemma_ranking_covers(pm[m], n as nat);
        let f = |w: int| partner_of(e, w);
        assert forall|w: int| 0 <= w < n implies #[trigger] is_taken(e, w) by {
            let k = rank(pm[m], w as usize);
            assert(pm[m][k] == w as usize);
            assert(holds_at_least(pw, e, pm[m][k] as int, m));
        }
        assert forall|w: int| 0 <= w < n implies 0 <= #[trigger] f(w) < n by {
            assert(is_taken(e, w));
        }
        assert forall|i: int, j: int| 0 <= i < n && 0 <= j < n && i != j implies #[trigger] f(i)
            != #[trigger] f(j) by {
            assert(is_taken(e, i) && is_taken(e, j));
            assert(e[f(i)] == Some(i as usize));
            assert(e[f(j)] == Some(j as usize));
        }
        lemma_pigeonhole(f, n);
        assert(reaches(f, n, m));
        let w = choose|w: int| 0 <= w < n && #[trigger] f(w) == m;
        assert(is_taken(e, w));
        assert(e[m] == Some(w as usize));
    }
}

/// The engine invariant provides what a round needs.
pub(crate) proof fn lemma_state_ready(
    pm: Seq<Seq<usize>>,
    pw: Seq<Seq<usize>>,
    q: Seq<Seq<usize>>,
    e: Seq<Option<usize>>,
)
    requires
        is_engine_state(pm, pw, q, e),
    ensures
        is_round_ready(q, pw, e),
{
    let n = pm.len() as int;
    assert forall|m: int| 0 <= m < n && (#[trigger] e[m]) is None implies q[m].len() > 0 && (
    q[m][0] as int) < n by {
        lemma_unengaged_has_options(pm, pw, q, e, m);
        assert(q[m][0] == pm[m][n - q[m].len()]);
    }
}

/// A round keeps the queues and engagements consistent, and every responder
/// that was ever proposed to still holds someone at least as good.
pub(crate) proof fn lemma_round_keeps_holdings(
    pm: Seq<Seq<usize>>,
    pw: Seq<Seq<usize>>,
    q: Seq<Seq<usize>>,
    e: Seq<Option<usize>>,
    offer: spec_fn(int, int) -> bool,
    q2: Seq<Seq<usize>>,
    e2: Seq<Option<usize>>,
)
    requires
        is_engine_state(pm, pw, q, e),
        is_valid_offer(q, e, offer),
        is_round(pw, q, e, offer, q2, e2),
    ensures
        forall|m: int|
            0 <= m < pm.len() ==> (#[trigger] q2[m]).len() <= pm.len() && q2[m] == pm[m].subrange(
                pm.len() - q2[m].len(),
                pm.len() as int,
            ),
        forall|m: int|
            0 <= m < pm.len() && (#[trigger] e2[m]) is Some ==> q2[m].len() < pm.len() && e2[m]->0
                == pm[m][pm.len() - q2[m].len() - 1],
        forall|m: int, k: int|
            0 <= m < pm.len() && 0 <= k < pm.len() - q2[m].len() ==> #[trigger] holds_at_least(
                pw,
                e2,
                pm[m][k] as int,
                m,
            ),
{
    let n = pm.len() as int;
    assert forall|m: int| 0 <= m < n implies (#[trigger] q2[m]).len() <= n && q2[m]
        == pm[m].subrange(n - q2[m].len(), n) by {
        if pops(q, offer, m) {
            assert(q2[m] =~= pm[m].subrange(n - q2[m].len(), n));
        }
    }
    assert forall|m: int| 0 <= m < n && (#[trigger] e2[m]) is Some implies q2[m].len() < n
        && e2[m]->0 == pm[m][n - q2[m].len() - 1] by {
        let w = e2[m]->0 as int;
        assert(is_candidate(e, offer, w, m));
        if offer(m, w) {
            assert(q[m][0] == pm[m][n - q[m].len()]);
        } else {
            if pops(q, offer, m) {
                assert(offer(m, q[m][0] as int));
            }
        }
    }
    assert forall|m: int, k: int| 0 <= m < n && 0 <= k < n - q2[m].len() implies #[trigger] holds_at_least(
        pw,
        e2,
        pm[m][k] as int,
        m,
    ) by {
        let w = pm[m][k] as int;
        assert(is_resolved(pw, e, offer, e2, w));
        if k < n - q[m].len() {
            assert(holds_at_least(pw, e, w, m));
            let p = partner_of(e, w);
            assert(e[p] == Some(w as usize));
            if receives_offer(n, offer, w) {
                assert(is_candidate(e, offer, w, p));
            } else {
                assert(e2[p] == Some(w as usize));
                lemma_partner(e2, w, p);
            }
        } else {
            assert(pops(q, offer, m));
            assert(q[m][0] == pm[m][n - q[m].len()]);
            assert(offer(m, w));
            assert(receives_offer(n, offer, w));
            assert(is_candidate(e, offer, w, m));
        }
    }
}

/// A round rejects no proposer by a partner it has in some stable matching:
/// the responder's choice and that matching would form a blocking pair.
pub(crate) proof fn lemma_round_keeps_stable_partners(
    pm: Seq<Seq<usize>>,
    pw: Seq<Seq<usize>>,
    q: Seq<Seq<usize>>,
    e: Seq<Option<usize>>,
    offer: spec_fn(int, int) -> bool,
    q2: Seq<Seq<usize>>,
    e2: Seq<Option<usize>>,
)
    requires
        is_engine_state(pm, pw, q, e),
        is_valid_offer(q, e, offer),
        is_round(pw, q, e, offer, q2, e2),
    ensures
        keeps_stable_partners(pm, pw, q2, e2),
{
    let n = pm.len() as int;
    let tp = table(pm);
    let tw = table(pw);
    assert forall|t: Map<usize, usize>, m: int, k: int|
        #![trigger is_stable(table(pm), table(pw), t), pm[m][k]]
        is_stable(table(pm), table(pw), t) && 0 <= m < n && 0 <= k < rejections(pm, q2, e2, m) implies t[m as usize]
        != pm[m][k] by {
        if k >= rejections(pm, q, e, m) {
            // `m` was rejected in this round by `w`, which chose `p` instead.
            let w = pm[m][k] as int;
            if e[m] is Some {
                if pops(q, offer, m) {
                    assert(offer(m, q[m][0] as int));
                }
                assert(e[m] == Some(w as usize));
                if !receives_offer(n, offer, w) {
                    assert(is_resolved(pw, e, offer, e2, w));
                    assert(e2[m] == Some(w as usize));
                }
            } else {
                if !pops(q, offer, m) && e2[m] is Some {
                    assert(is_candidate(e, offer, e2[m]->0 as int, m));
                    assert(offer(m, e2[m]->0 as int));
                }
                assert(pops(q, offer, m));
                assert(q[m][0] == pm[m][n - q[m].len()]);
            }
            assert(is_candidate(e, offer, w, m));
            assert(receives_offer(n, offer, w));
            assert(is_resolved(pw, e, offer, e2, w));
            let p = partner_of(e2, w);
            assert(e2[p] == Some(w as usize));
            assert(p != m);
            lemma_rank_distinct(pw[w], n as nat, p, m);
            assert(rank(pw[w], p as usize) < rank(pw[w], m as usize));
            if t[m as usize] == w as usize {
                // `p` reached `w` without being rejected by its partner in `t`.
                let r = rejections(pm, q, e, p);
                assert(is_candidate(e, offer, w, p));
                if offer(p, w) {
                    assert(q[p][0] == pm[p][n - q[p].len()]);
                }
                assert(pm[p][r] == w as usize);
                lemma_rank_at(pm[p], r);
                assert(tp[p as usize] == pm[p]);
                assert(tw[w as usize] == pw[w]);
                assert(t.dom().contains(p as usize));
                assert(t.values().contains(t[p as usize]));
                let tpw = t[p as usize];
                assert(tpw != w as usize);
                lemma_ranking_covers(pm[p], n as nat);
                let j = rank(pm[p], tpw);
                assert(pm[p][j] == tpw);
                assert(j > r) by {
                    if j < r {
                        assert(t[p as usize] != pm[p][j]);
                    }
                }
                assert(blocks(tp, tw, t, p as usize, m as usize));
            }
        }
    }
}

/// A round keeps the engine invariant.
pub(crate) proof fn lemma_round_keeps_state(
    pm: Seq<Seq<usize>>,
    pw: Seq<Seq<usize>>,
    q: Seq<Seq<usize>>,
    e: Seq<Option<usize>>,
    offer: spec_fn(int, int) -> bool,
    q2: Seq<Seq<usize>>,
    e2: Seq<Option<usize>>,
)
    requires
        is_engine_state(pm, pw, q, e),
        is_valid_offer(q, e, offer),
        is_round(pw, q, e, offer, q2, e2),
    ensures
        is_engine_state(pm, pw, q2, e2),
{
    lemma_round_keeps_holdings(pm, pw, q, e, offer, q2, e2);
    lemma_round_keeps_stable_partners(pm, pw, q, e, offer, q2, e2);
}

/// The engagements, once every proposer has one, as a map.
pub open spec fn engagement_map(e: Seq<Option<usize>>) -> Map<usize, usize> {
    Map::new(|m: usize| (m as int) < e.len(), |m: usize| e[m as int]->0)
}

/// When every proposer is engaged, the engagements pair the proposers
/// one-to-one with all responders.
pub(crate) proof fn lemma_all_engaged_is_matching(
    pm: Seq<Seq<usize>>,
    pw: Seq<Seq<usize>>,
    q: Seq<Seq<usize>>,
    e: Seq<Option<usize>>,
)
    requires
        is_engine_state(pm, pw, q, e),
        forall|m: int| 0 <= m < e.len() ==> (#[trigger] e[m]) is Some,
    ensures
        is_matching(table(pm), table(pw), engagement_map(e)),
        forall|m: int|
            0 <= m < pm.len() ==> (#[trigger] e[m])->0 < pm.len() && rank(pm[m], e[m]->0) == pm.len()
                - q[m].len() - 1,
{
    let n = pm.len() as int;
    let tp = table(pm);
    let tw = table(pw);
    let s = engagement_map(e);
    assert(s.dom() =~= tp.dom());
    assert forall|m: int| 0 <= m < n implies (#[trigger] e[m])->0 < n && rank(pm[m], e[m]->0)
        == n - q[m].len() - 1 by {
        lemma_rank_at(pm[m], n - q[m].len() - 1);
    }
    let f = |m: int| e[m]->0 as int;
    assert forall|i: int, j: int| 0 <= i < n && 0 <= j < n && i != j implies #[trigger] f(i)
        != #[trigger] f(j) by {
        assert(e[i] is Some);
    }
    assert forall|i: int| 0 <= i < n implies 0 <= #[trigger] f(i) < n by {
        assert(e[i] is Some);
    }
    lemma_pigeonhole(f, n);
    assert forall|w: usize| s.values().contains(w) <==> tw.dom().contains(w) by {
        if tw.dom().contains(w) {
            assert(reaches(f, n, w as int));
            let m = choose|m: int| 0 <= m < n && #[trigger] f(m) == w as int;
            assert(s[m as usize] == w);
        }
        if s.values().contains(w) {
            let m = choose|m: usize| s.dom().contains(m) && s[m] == w;
            assert(e[m as int] is Some);
        }
    }
    assert(s.values() =~= tw.dom());
}

/// When every proposer is engaged, no pair blocks the engagements: a responder
/// a proposer prefers has rejected it for someone better.
pub(crate) proof fn lemma_all_engaged_no_block(
    pm: Seq<Seq<usize>>,
    pw: Seq<Seq<usize>>,
    q: Seq<Seq<usize>>,
    e: Seq<Option<usize>>,
    m1: usize,
    m2: usize,
)
    requires
        is_engine_state(pm, pw, q, e),
        forall|m: int| 0 <= m < e.len() ==> (#[trigger] e[m]) is Some,
        (m1 as int) < pm.len(),
        (m2 as int) < pm.len(),
    ensures
        !blocks(table(pm), table(pw), engagement_map(e), m1, m2),
{
    let n = pm.len() as int;
    let tp = table(pm);
    let s = engagement_map(e);
    lemma_all_engaged_is_matching(pm, pw, q, e);
    let w = s[m2];
    assert(e[m2 as int] is Some);
    assert(e[m1 as int] is Some);
    if prefers(tp, m1, w, s[m1]) {
        lemma_ranking_covers(pm[m1 as int], n as nat);
        let k = rank(pm[m1 as int], w);
        assert(pm[m1 as int][k] == w);
        assert(holds_at_least(pw, e, pm[m1 as int][k] as int, m1 as int));
        lemma_partner(e, w as int, m2 as int);
    }
}

/// When every proposer is engaged, no stable matching gives proposer `m` a
/// responder it prefers: that responder rejected `m`.
pub(crate) proof fn lemma_all_engaged_not_improved(
    pm: Seq<Seq<usize>>,
    pw: Seq<Seq<usize>>,
    q: Seq<Seq<usize>>,
    e: Seq<Option<usize>>,
    t: Map<usize, usize>,
    m: usize,
)
    requires
        is_engine_state(pm, pw, q, e),
        forall|m: int| 0 <= m < e.len() ==> (#[trigger] e[m]) is Some,
        is_stable(table(pm), table(pw), t),
        (m as int) < pm.len(),
    ensures
        !prefers(table(pm), m, t[m], engagement_map(e)[m]),
{
    let n = pm.len() as int;
    let c = n - q[m as int].len();
    assert(e[m as int] is Some);
    lemma_rank_at(pm[m as int], c - 1);
    assert(table(pm).dom().contains(m));
    assert(t.dom().contains(m));
    assert(t.values().contains(t[m]));
    assert(table(pw).dom().contains(t[m]));
    lemma_ranking_covers(pm[m as int], n as nat);
    let j = rank(pm[m as int], t[m]);
    assert(pm[m as int][j] == t[m]);
    if j < c - 1 {
        assert(rejections(pm, q, e, m as int) == c - 1);
        assert(t[m] != pm[m as int][j]);
    }
}

/// When every proposer is engaged, the engagements are the proposer-optimal
/// stable matching.
pub(crate) proof fn lemma_all_engaged_is_optimal(
    pm: Seq<Seq<usize>>,
    pw: Seq<Seq<usize>>,
    q: Seq<Seq<usize>>,
    e: Seq<Option<usize>>,
)
    requires
        is_engine_state(pm, pw, q, e),
        forall|m: int| 0 <= m < e.len() ==> (#[trigger] e[m]) is Some,
    ensures
        is_proposer_optimal(table(pm), table(pw), engagement_map(e)),
{
    let tp = table(pm);
    let tw = table(pw);
    let s = engagement_map(e);
    lemma_all_engaged_is_matching(pm, pw, q, e);
    assert forall|m1: usize, m2: usize|
        s.dom().contains(m1) && s.dom().contains(m2) implies !#[trigger] blocks(tp, tw, s, m1, m2) by {
        lemma_all_engaged_no_block(pm, pw, q, e, m1, m2);
    }
    assert forall|t: Map<usize, usize>, m: usize|
        is_stable(tp, tw, t) && tp.dom().contains(m) implies !#[trigger] prefers(tp, m, t[m], s[m]) by {
        lemma_all_engaged_not_improved(pm, pw, q, e, t, m);
    }
}

/// The total length of the remaining queues.
pub open spec fn queued(q: Seq<Seq<usize>>) -> nat
    decreases q.len(),
{
    if q.len() == 0 {
        0
    } else {
        queued(q.drop_last()) + q.last().len()
    }
}

/// Queues that do not grow keep the total from growing.
pub(crate) proof fn lemma_queued_le(q: Seq<Seq<usize>>, q2: Seq<Seq<usize>>)
    requires
        q2.len() == q.len(),
        forall|m: int| 0 <= m < q.len() ==> (#[trigger] q2[m]).len() <= q[m].len(),
    ensures
        queued(q2) <= queued(q),
    decreases q.len(),
{
    if q.len() > 0 {
        let d = q.drop_last();
        let d2 = q2.drop_last();
        assert forall|m: int| 0 <= m < d.len() implies (#[trigger] d2[m]).len() <= d[m].len() by {
            assert(q2[m].len() <= q[m].len());
        }
        lemma_queued_le(d, d2);
    }
}

/// Queues that do not grow, one of which shrinks, shrink the total.
pub(crate) proof fn lemma_queued_lt(q: Seq<Seq<usize>>, q2: Seq<Seq<usize>>, m0: int)
    requires
        q2.len() == q.len(),
        forall|m: int| 0 <= m < q.len() ==> (#[trigger] q2[m]).len() <= q[m].len(),
        0 <= m0 < q.len(),
        q2[m0].len() < q[m0].len(),
    ensures
        queued(q2) < queued(q),
    decreases q.len(),
{
    let d = q.drop_last();
    let d2 = q2.drop_last();
    assert forall|m: int| 0 <= m < d.len() implies (#[trigger] d2[m]).len() <= d[m].len() by {
        assert(q2[m].len() <= q[m].len());
    }
    if m0 == q.len() - 1 {
        lemma_queued_le(d, d2);
    } else {
        assert(d2[m0].len() < d[m0].len());
        lemma_queued_lt(d, d2, m0);
    }
}

} // verus!
