//! One round of deferred acceptance, stated over engagements and proposals.
use vstd::prelude::*;
use crate::model::rank;
use crate::tables::is_index_ranking;

verus! {

/// No responder is engaged to two proposers.
pub open spec fn is_injective_engagement(e: Seq<Option<usize>>) -> bool {
    forall|m1: int, m2: int|
        0 <= m1 < e.len() && 0 <= m2 < e.len() && m1 != m2 && #[trigger] e[m1] is Some
            ==> e[m1] != #[trigger] e[m2]
}

/// Responder `w` is tentatively engaged to some proposer.
pub open spec fn is_taken(e: Seq<Option<usize>>, w: int) -> bool {
    exists|m: int| 0 <= m < e.len() && #[trigger] e[m] == Some(w as usize)
}

/// The proposer tentatively engaged to responder `w`.
pub open spec fn partner_of(e: Seq<Option<usize>>, w: int) -> int {
    choose|m: int| 0 <= m < e.len() && #[trigger] e[m] == Some(w as usize)
}

/// The engagement of a responder is held by exactly one proposer.
pub(crate) proof fn lemma_partner(e: Seq<Option<usize>>, w: int, m: int)
    requires
        is_injective_engagement(e),
        0 <= m < e.len(),
        e[m] == Some(w as usize),
    ensures
        is_taken(e, w),
        partner_of(e, w) == m,
{
    let p = partner_of(e, w);
    assert(e[p] == Some(w as usize));
}

/// Proposer `m` has `w` at the front of its remaining queue.
pub open spec fn fronts(q: Seq<Seq<usize>>, w: usize) -> spec_fn(usize) -> bool {
    |m: usize| q[m as int].len() > 0 && q[m as int][0] == w
}

/// A proposal of `m` to `w` is listed in the groups `props`.
pub open spec fn offers_in(props: Seq<Seq<usize>>) -> spec_fn(int, int) -> bool {
    |m: int, w: int| 0 <= m < props.len() && 0 <= w < props.len() && props[w].contains(m as usize)
}

/// Proposer `m` is weighed by responder `w` in a round: it proposes to `w`,
/// or is tentatively engaged to `w`.
pub open spec fn is_candidate(
    e: Seq<Option<usize>>,
    offer: spec_fn(int, int) -> bool,
    w: int,
    m: int,
) -> bool {
    offer(m, w) || e[m] == Some(w as usize)
}

/// Some proposer proposes to `w` in the round.
pub open spec fn receives_offer(n: int, offer: spec_fn(int, int) -> bool, w: int) -> bool {
    exists|m: int| 0 <= m < n && #[trigger] offer(m, w)
}

/// The same proposers are engaged to `w` in `e1` and `e2`.
pub open spec fn same_holders(e1: Seq<Option<usize>>, e2: Seq<Option<usize>>, w: int) -> bool {
    forall|m: int| 0 <= m < e1.len() ==> (#[trigger] e2[m] == Some(w as usize)) == (e1[m] == Some(
        w as usize,
    ))
}

/// After the round `e2`, responder `w` holds the candidate it ranks highest,
/// or keeps its partner when nobody proposed to it.
pub open spec fn is_resolved(
    pw: Seq<Seq<usize>>,
    e: Seq<Option<usize>>,
    offer: spec_fn(int, int) -> bool,
    e2: Seq<Option<usize>>,
    w: int,
) -> bool {
    if receives_offer(e.len() as int, offer, w) {
        &&& is_taken(e2, w)
        &&& is_candidate(e, offer, w, partner_of(e2, w))
        &&& forall|x: int|
            0 <= x < e.len() && #[trigger] is_candidate(e, offer, w, x) ==> rank(
                pw[w],
                partner_of(e2, w) as usize,
            ) <= rank(pw[w], x as usize)
    } else {
        same_holders(e, e2, w)
    }
}

/// The queue of `m` loses its front in the round: `m` proposes.
pub open spec fn pops(q: Seq<Seq<usize>>, offer: spec_fn(int, int) -> bool, m: int) -> bool {
    q[m].len() > 0 && offer(m, q[m][0] as int)
}

/// `(q2, e2)` follows `(q, e)` by one round in which proposer `m` proposes to
/// responder `w` exactly when `offer(m, w)`.
pub open spec fn is_round(
    pw: Seq<Seq<usize>>,
    q: Seq<Seq<usize>>,
    e: Seq<Option<usize>>,
    offer: spec_fn(int, int) -> bool,
    q2: Seq<Seq<usize>>,
    e2: Seq<Option<usize>>,
) -> bool {
    let n = q.len() as int;
    &&& q2.len() == n
    &&& e2.len() == n
    &&& forall|m: int|
        0 <= m < n ==> #[trigger] q2[m] == if pops(q, offer, m) {
            q[m].drop_first()
        } else {
            q[m]
        }
    &&& is_injective_engagement(e2)
    &&& forall|m: int|
        0 <= m < n && (#[trigger] e2[m]) is Some ==> is_candidate(e, offer, e2[m]->0 as int, m)
    &&& forall|w: int| 0 <= w < n ==> #[trigger] is_resolved(pw, e, offer, e2, w)
}

/// Each proposal comes from an unengaged proposer, to the front of its queue.
pub open spec fn is_valid_offer(
    q: Seq<Seq<usize>>,
    e: Seq<Option<usize>>,
    offer: spec_fn(int, int) -> bool,
) -> bool {
    forall|m: int, w: int|
        0 <= m < q.len() && #[trigger] offer(m, w) ==> {
            &&& e[m] is None
            &&& q[m].len() > 0
            &&& q[m][0] == w
        }
}

/// Groups of proposals, one per responder, each listing distinct proposers
/// that are unengaged and have that responder at the front of their queue.
pub open spec fn is_valid_proposals(
    q: Seq<Seq<usize>>,
    e: Seq<Option<usize>>,
    props: Seq<Seq<usize>>,
) -> bool {
    &&& props.len() == q.len()
    &&& forall|w: int, i: int|
        0 <= w < props.len() && 0 <= i < props[w].len() ==> {
            let m = #[trigger] props[w][i] as int;
            &&& m < q.len()
            &&& e[m] is None
            &&& q[m].len() > 0
            &&& q[m][0] == w
        }
    &&& forall|w: int, i: int, j: int|
        0 <= w < props.len() && 0 <= i < j < props[w].len() ==> #[trigger] props[w][i]
            != #[trigger] props[w][j]
}

/// Every unengaged proposer proposes to the front of its queue.
pub open spec fn unengaged_offers(q: Seq<Seq<usize>>, e: Seq<Option<usize>>) -> spec_fn(int, int) -> bool {
    |m: int, w: int| 0 <= m < q.len() && e[m] is None && q[m].len() > 0 && q[m][0] == w
}

/// What a round needs: tables of one size `n`, responder rankings, an injective
/// engagement, and a nonempty queue of responder indices for each unengaged proposer.
pub open spec fn is_round_ready(
    q: Seq<Seq<usize>>,
    pw: Seq<Seq<usize>>,
    e: Seq<Option<usize>>,
) -> bool {
    let n = pw.len();
    &&& q.len() == n
    &&& e.len() == n
    &&& forall|w: int| 0 <= w < n ==> is_index_ranking(#[trigger] pw[w], n)
    &&& is_injective_engagement(e)
    &&& forall|m: int| 0 <= m < n && (#[trigger] e[m]) is None ==> q[m].len() > 0 && (q[m][0] as int) < n
}

/// Resolution carries over to a later state with the same holders of `w`.
pub(crate) proof fn lemma_resolved_kept(
    pw: Seq<Seq<usize>>,
    e: Seq<Option<usize>>,
    offer: spec_fn(int, int) -> bool,
    e2: Seq<Option<usize>>,
    e3: Seq<Option<usize>>,
    w: int,
)
    requires
        e2.len() == e.len(),
        e3.len() == e.len(),
        is_injective_engagement(e2),
        is_injective_engagement(e3),
        is_resolved(pw, e, offer, e2, w),
        same_holders(e2, e3, w),
    ensures
        is_resolved(pw, e, offer, e3, w),
{
    if receives_offer(e.len() as int, offer, w) {
        let p = partner_of(e2, w);
        assert(e3[p] == Some(w as usize));
        let p3 = partner_of(e3, w);
        assert(e2[p3] == Some(w as usize));
        assert(p3 == p);
    } else {
        assert forall|m: int| 0 <= m < e.len() implies (#[trigger] e3[m] == Some(w as usize)) == (
        e[m] == Some(w as usize)) by {
            assert(e2[m] == Some(w as usize) <==> e[m] == Some(w as usize));
        }
    }
}

/// Filtering keeps a sequence strictly increasing.
pub(crate) proof fn lemma_filter_increasing(s: Seq<usize>, p: spec_fn(usize) -> bool)
    requires
        forall|i: int, j: int| 0 <= i < j < s.len() ==> s[i] < s[j],
    ensures
        forall|i: int, j: int| 0 <= i < j < s.filter(p).len() ==> s.filter(p)[i] < s.filter(p)[j],
    decreases s.len(),
{
    broadcast use vstd::seq_lib::group_filter_ensures;

    if s.len() > 0 {
        let d = s.drop_last();
        let last = s.last();
        lemma_filter_increasing(d, p);
        assert(s =~= d.push(last));
        d.lemma_filter_push(last, p);
        let f = d.filter(p);
        assert forall|i: int| 0 <= i < f.len() implies f[i] < last by {
            assert(f.contains(f[i]));
            d.lemma_filter_contains_rev(p, f[i]);
        }
    }
}

} // verus!
