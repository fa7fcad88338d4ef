//! The matching engine on dense indices `0..n`.
//!
//! Proposers and responders are both numbered `0..n`. Each proposer keeps a
//! queue: its preference list, from which the responders it has proposed to
//! are removed at the front. The engagements are a vector indexed by
//! proposer, holding the responder it is tentatively engaged to.
use vstd::prelude::*;
use std::collections::HashMap;
use crate::model::{rank, lemma_rank_at, is_proposer_optimal};
use crate::tables::{lists, is_index_ranking, well_formed_tables, table, lemma_ranking_covers};
use crate::round::{
    is_injective_engagement, is_taken, partner_of, fronts, offers_in, is_candidate, receives_offer,
    is_resolved, pops, is_round, is_valid_proposals, unengaged_offers, is_round_ready,
    lemma_resolved_kept, lemma_filter_increasing,
};
use crate::engine_state::{
    is_engine_state, lemma_unengaged_has_options, lemma_state_ready, lemma_round_keeps_state,
    engagement_map, lemma_all_engaged_is_optimal, queued, lemma_queued_lt,
};

verus! {

/// Position of `item` in the preference list of `preferences_of`, if both exist.
pub fn get_rank(preferences: &Vec<Vec<usize>>, preferences_of: &usize, item: &usize) -> (r:
    Option<usize>)
    ensures
        match r {
            Some(k) => {
                &&& (*preferences_of as int) < preferences@.len()
                &&& (k as int) < preferences@[*preferences_of as int]@.len()
                &&& preferences@[*preferences_of as int]@[k as int] == *item
                &&& forall|j: int|
                    0 <= j < k ==> preferences@[*preferences_of as int]@[j] != *item
            },
            None => (*preferences_of as int) >= preferences@.len() || !preferences@[
                *preferences_of as int
            ]@.contains(*item),
        },
{
    if *preferences_of >= preferences.len() {
        return None;
    }
    let list = &preferences[*preferences_of];
    let mut k: usize = 0;
    while k < list.len()
        invariant
            (*preferences_of as int) < preferences@.len(),
            list@ == preferences@[*preferences_of as int]@,
            k <= list@.len(),
            forall|j: int| 0 <= j < k ==> list@[j] != *item,
        decreases list@.len() - k,
    {
        if list[k] == *item {
            return Some(k);
        }
        k = k + 1;
    }
    None
}

/// The first proposer engaged to `woman`, if any.
pub fn get_currently_engaged_man(engaged_man_woman: &Vec<Option<usize>>, woman: &usize) -> (r:
    Option<usize>)
    ensures
        match r {
            Some(m) => {
                &&& (m as int) < engaged_man_woman@.len()
                &&& engaged_man_woman@[m as int] == Some(*woman)
                &&& forall|j: int| 0 <= j < m ==> engaged_man_woman@[j] != Some(*woman)
            },
            None => forall|j: int|
                0 <= j < engaged_man_woman@.len() ==> engaged_man_woman@[j] != Some(*woman),
        },
{
    let mut m: usize = 0;
    while m < engaged_man_woman.len()
        invariant
            m <= engaged_man_woman@.len(),
            forall|j: int| 0 <= j < m ==> engaged_man_woman@[j] != Some(*woman),
        decreases engaged_man_woman@.len() - m,
    {
        if let Some(w) = engaged_man_woman[m] {
            if w == *woman {
                return Some(m);
            }
        }
        m = m + 1;
    }
    None
}

/// Engages `man` to `woman`, replacing any engagement `man` had.
pub fn make_engagement(engaged_man_woman: &mut Vec<Option<usize>>, man: usize, woman: usize)
    requires
        (man as int) < old(engaged_man_woman)@.len(),
    ensures
        final(engaged_man_woman)@ == old(engaged_man_woman)@.update(man as int, Some(woman)),
{
    engaged_man_woman.set(man, Some(woman));
}

/// Leaves `man` unengaged.
pub fn break_engagement(engaged_man_woman: &mut Vec<Option<usize>>, man: usize)
    requires
        (man as int) < old(engaged_man_woman)@.len(),
    ensures
        final(engaged_man_woman)@ == old(engaged_man_woman)@.update(man as int, None),
{
    engaged_man_woman.set(man, None);
}

/// Whether `x` occurs in `list`.
fn list_contains(list: &Vec<usize>, x: usize) -> (r: bool)
    ensures
        r == list@.contains(x),
{
    let mut i: usize = 0;
    while i < list.len()
        invariant
            i <= list@.len(),
            forall|j: int| 0 <= j < i ==> list@[j] != x,
        decreases list@.len() - i,
    {
        if list[i] == x {
            return true;
        }
        i = i + 1;
    }
    false
}

/// The proposer among `interested_men` that `woman` ranks highest.
pub fn get_best_man_from_men_interested_in_a_woman(
    woman: usize,
    women_preferences: &Vec<Vec<usize>>,
    interested_men: &Vec<usize>,
) -> (r: Option<usize>)
    requires
        (woman as int) < women_preferences@.len(),
    ensures
        ({
            let list = women_preferences@[woman as int]@;
            match r {
                Some(b) => exists|k: int|
                    {
                        &&& 0 <= k < list.len()
                        &&& #[trigger] list[k] == b
                        &&& interested_men@.contains(b)
                        &&& forall|j: int| 0 <= j < k ==> !interested_men@.contains(list[j])
                    },
                None => forall|j: int| 0 <= j < list.len() ==> !interested_men@.contains(list[j]),
            }
        }),
{
    let list = &women_preferences[woman];
    let mut k: usize = 0;
    while k < list.len()
        invariant
            list@ == women_preferences@[woman as int]@,
            k <= list@.len(),
            forall|j: int| 0 <= j < k ==> !interested_men@.contains(list@[j]),
        decreases list@.len() - k,
    {
        if list_contains(interested_men, list[k]) {
            assert(list@[k as int] == list[k as int]);
            return Some(list[k]);
        }
        k = k + 1;
    }
    None
}

/// The proposers not engaged to anyone, in increasing order.
pub fn get_unengaged_men(
    men_preferences: &Vec<Vec<usize>>,
    engaged_man_woman: &Vec<Option<usize>>,
) -> (r: Vec<usize>)
    requires
        engaged_man_woman@.len() == men_preferences@.len(),
    ensures
        forall|i: int, j: int| 0 <= i < j < r@.len() ==> r@[i] < r@[j],
        forall|m: usize|
            r@.contains(m) <==> (m as int) < men_preferences@.len()
                && engaged_man_woman@[m as int] is None,
{
    let mut r: Vec<usize> = Vec::new();
    let mut m: usize = 0;
    while m < men_preferences.len()
        invariant
            engaged_man_woman@.len() == men_preferences@.len(),
            m <= men_preferences@.len(),
            forall|i: int| 0 <= i < r@.len() ==> r@[i] < m,
            forall|i: int, j: int| 0 <= i < j < r@.len() ==> r@[i] < r@[j],
            forall|x: usize|
                r@.contains(x) <==> x < m && engaged_man_woman@[x as int] is None,
        decreases men_preferences@.len() - m,
    {
        let ghost before = r@;
        if engaged_man_woman[m].is_none() {
            r.push(m);
        }
        assert forall|x: usize|
            r@.contains(x) <==> x < m + 1 && engaged_man_woman@[x as int] is None by {
            if r@.contains(x) {
                let i = choose|i: int| 0 <= i < r@.len() && r@[i] == x;
                if i < before.len() {
                    assert(before.contains(x));
                }
            }
            if x < m + 1 && engaged_man_woman@[x as int] is None {
                if x == m {
                    assert(r@[r@.len() - 1] == x);
                } else {
                    assert(before.contains(x));
                    let i = choose|i: int| 0 <= i < before.len() && before[i] == x;
                    assert(r@[i] == x);
                }
            }
        }
        m = m + 1;
    }
    r
}

/// Groups the proposals of `unengaged_men` by the responder at the front of
/// each one's queue, keeping their order.
pub fn create_proposals(men_preferences: &Vec<Vec<usize>>, unengaged_men: Vec<usize>) -> (r: Vec<
    Vec<usize>,
>)
    requires
        forall|i: int|
            0 <= i < unengaged_men@.len() ==> {
                let m = #[trigger] unengaged_men@[i] as int;
                &&& m < men_preferences@.len()
                &&& men_preferences@[m]@.len() > 0
                &&& (men_preferences@[m]@[0] as int) < men_preferences@.len()
            },
    ensures
        r@.len() == men_preferences@.len(),
        forall|w: int|
            0 <= w < r@.len() ==> #[trigger] r@[w]@ == unengaged_men@.filter(
                fronts(lists(men_preferences@), w as usize),
            ),
{
    let n = men_preferences.len();
    let mut r: Vec<Vec<usize>> = Vec::new();
    let mut w: usize = 0;
    while w < n
        invariant
            n == men_preferences@.len(),
            w <= n,
            r@.len() == w,
            forall|v: int| 0 <= v < w ==> (#[trigger] r@[v])@.len() == 0,
        decreases n - w,
    {
        r.push(Vec::new());
        w = w + 1;
    }
    let mut i: usize = 0;
    while i < unengaged_men.len()
        invariant
            n == men_preferences@.len(),
            r@.len() == n,
            i <= unengaged_men@.len(),
            forall|j: int|
                0 <= j < unengaged_men@.len() ==> {
                    let m = #[trigger] unengaged_men@[j] as int;
                    &&& m < men_preferences@.len()
                    &&& men_preferences@[m]@.len() > 0
                    &&& (men_preferences@[m]@[0] as int) < men_preferences@.len()
                },
            forall|v: int|
                0 <= v < n ==> #[trigger] r@[v]@ == unengaged_men@.take(i as int).filter(
                    fronts(lists(men_preferences@), v as usize),
                ),
        decreases unengaged_men@.len() - i,
    {
        let m = unengaged_men[i];
        let front = men_preferences[m][0];
        let ghost before = r@;
        r[front].push(m);
        proof {
            let q = lists(men_preferences@);
            assert(unengaged_men@.take(i + 1) =~= unengaged_men@.take(i as int).push(m));
            assert forall|v: int| 0 <= v < n implies #[trigger] r@[v]@ == unengaged_men@.take(
                i + 1,
            ).filter(fronts(q, v as usize)) by {
                unengaged_men@.take(i as int).lemma_filter_push(m, fronts(q, v as usize));
                assert(before[v]@ == unengaged_men@.take(i as int).filter(fronts(q, v as usize)));
            }
        }
        i = i + 1;
    }
    proof {
        assert(unengaged_men@.take(unengaged_men@.len() as int) =~= unengaged_men@);
    }
    r
}

/// Each responder keeps the most preferred of its proposers and its current
/// partner and rejects the others; every proposer's queue loses its front.
pub fn accept_or_reject_proposals(
    men_preferences: &mut Vec<Vec<usize>>,
    women_preferences: &Vec<Vec<usize>>,
    engaged_man_woman: &mut Vec<Option<usize>>,
    proposals: Vec<Vec<usize>>,
)
    requires
        old(men_preferences)@.len() == women_preferences@.len(),
        old(engaged_man_woman)@.len() == women_preferences@.len(),
        forall|w: int|
            0 <= w < women_preferences@.len() ==> is_index_ranking(
                #[trigger] lists(women_preferences@)[w],
                women_preferences@.len(),
            ),
        is_injective_engagement(old(engaged_man_woman)@),
        is_valid_proposals(lists(old(men_preferences)@), old(engaged_man_woman)@, lists(proposals@)),
    ensures
        is_round(
            lists(women_preferences@),
            lists(old(men_preferences)@),
            old(engaged_man_woman)@,
            offers_in(lists(proposals@)),
            lists(final(men_preferences)@),
            final(engaged_man_woman)@,
        ),
{
    let n = women_preferences.len();
    let ghost q0 = lists(men_preferences@);
    let ghost e0 = engaged_man_woman@;
    let ghost props = lists(proposals@);
    let ghost offer = offers_in(props);
    let ghost pw = lists(women_preferences@);
    let mut w: usize = 0;
    while w < n
        invariant
            n == women_preferences@.len(),
            pw == lists(women_preferences@),
            props == lists(proposals@),
            offer == offers_in(props),
            q0.len() == n,
            e0.len() == n,
            forall|v: int| 0 <= v < n ==> is_index_ranking(#[trigger] pw[v], n as nat),
            is_injective_engagement(e0),
            is_valid_proposals(q0, e0, props),
            w <= n,
            men_preferences@.len() == n,
            engaged_man_woman@.len() == n,
            forall|m: int|
                0 <= m < n ==> #[trigger] lists(men_preferences@)[m] == if pops(q0, offer, m)
                    && q0[m][0] < w {
                    q0[m].drop_first()
                } else {
                    q0[m]
                },
            is_injective_engagement(engaged_man_woman@),
            forall|m: int|
                0 <= m < n && (#[trigger] engaged_man_woman@[m]) is Some
                    && engaged_man_woman@[m]->0 < w ==> is_candidate(
                    e0,
                    offer,
                    engaged_man_woman@[m]->0 as int,
                    m,
                ),
            forall|m: int|
                0 <= m < n && (#[trigger] engaged_man_woman@[m]) is Some
                    && engaged_man_woman@[m]->0 >= w ==> engaged_man_woman@[m] == e0[m],
            forall|m: int|
                0 <= m < n && (#[trigger] e0[m]) is Some && e0[m]->0 >= w
                    ==> engaged_man_woman@[m] == e0[m],
            forall|v: int| 0 <= v < w ==> #[trigger] is_resolved(pw, e0, offer, engaged_man_woman@, v),
        decreases n - w,
    {
        let interested = &proposals[w];
        assert(interested@ == props[w as int]);
        if interested.len() > 0 {
            let ghost eb = engaged_man_woman@;
            proof {
                lemma_ranking_covers(pw[w as int], n as nat);
                let m0 = interested@[0];
                assert(props[w as int][0] == m0);
                assert(interested@.contains(m0));
                assert(pw[w as int][rank(pw[w as int], m0)] == m0);
            }
            let best = get_best_man_from_men_interested_in_a_woman(w, women_preferences, interested).unwrap();
            let ghost kb = choose|k: int|
                {
                    &&& 0 <= k < pw[w as int].len()
                    &&& #[trigger] pw[w as int][k] == best
                    &&& interested@.contains(best)
                    &&& forall|j: int| 0 <= j < k ==> !interested@.contains(pw[w as int][j])
                };
            proof {
                lemma_rank_at(pw[w as int], kb);
                let ib = choose|i: int| 0 <= i < interested@.len() && interested@[i] == best;
                assert(props[w as int][ib] == best);
                assert(offer(best as int, w as int));
                assert(eb[best as int] is None) by {
                    if eb[best as int] is Some {
                        let v = eb[best as int]->0;
                        if v < w {
                            assert(is_candidate(e0, offer, v as int, best as int));
                        }
                    }
                }
                assert forall|x: int|
                    0 <= x < n && #[trigger] offer(x, w as int) implies rank(
                    pw[w as int],
                    best,
                ) <= rank(pw[w as int], x as usize) by {
                    let r = rank(pw[w as int], x as usize);
                    assert(pw[w as int][r] == x as usize);
                    if r < kb {
                        assert(interested@.contains(pw[w as int][r]));
                    }
                }
            }
            let cur = get_currently_engaged_man(engaged_man_woman, &w);
            match cur {
                Some(c) => {
                    proof {
                        assert(pw[w as int][rank(pw[w as int], c)] == c);
                        assert(women_preferences@[w as int]@.contains(c));
                    }
                    let rb = get_rank(women_preferences, &w, &best).unwrap();
                    let rc = get_rank(women_preferences, &w, &c).unwrap();
                    proof {
                        lemma_rank_at(pw[w as int], rb as int);
                        lemma_rank_at(pw[w as int], rc as int);
                    }
                    if rb < rc {
                        break_engagement(engaged_man_woman, c);
                        make_engagement(engaged_man_woman, best, w);
                    }
                },
                None => {
                    make_engagement(engaged_man_woman, best, w);
                },
            }
            let ghost ea = engaged_man_woman@;
            proof {
                assert(receives_offer(n as int, offer, w as int)) by {
                    assert(offer(best as int, w as int));
                }
                let winner: int = if ea[best as int] == Some(w) {
                    best as int
                } else {
                    cur->0 as int
                };
                assert(ea[winner] == Some(w));
                assert(is_taken(ea, w as int));
                assert forall|m1: int, m2: int|
                    0 <= m1 < n && 0 <= m2 < n && m1 != m2 && #[trigger] ea[m1] is Some
                        implies ea[m1] != #[trigger] ea[m2] by {
                    if ea[m1] == ea[m2] {
                        if ea[m1] == Some(w) {
                            if m1 != winner && m2 != winner {
                                assert(eb[m1] == ea[m1]);
                                assert(eb[m2] == ea[m2]);
                            } else if m1 == winner {
                                assert(eb[m2] == ea[m2]);
                            } else {
                                assert(eb[m1] == ea[m1]);
                            }
                        } else {
                            assert(eb[m1] == ea[m1]);
                            assert(eb[m2] == ea[m2]);
                        }
                    }
                }
                assert(partner_of(ea, w as int) == winner);
                assert(is_candidate(e0, offer, w as int, winner));
                assert forall|x: int|
                    0 <= x < n && #[trigger] is_candidate(e0, offer, w as int, x) implies rank(
                    pw[w as int],
                    partner_of(ea, w as int) as usize,
                ) <= rank(pw[w as int], x as usize) by {
                    if !offer(x, w as int) {
                        assert(eb[x] == Some(w));
                    }
                }
                assert(is_resolved(pw, e0, offer, ea, w as int));
                assert forall|v: int| 0 <= v < w + 1 implies #[trigger] is_resolved(
                    pw,
                    e0,
                    offer,
                    ea,
                    v,
                ) by {
                    if v < w {
                        lemma_resolved_kept(pw, e0, offer, eb, ea, v);
                    }
                }
            }
            let mut i: usize = 0;
            while i < interested.len()
                invariant
                    interested@ == props[w as int],
                    0 <= w < n,
                    n == women_preferences@.len(),
                    offer == offers_in(props),
                    q0.len() == n,
                    is_valid_proposals(q0, e0, props),
                    men_preferences@.len() == n,
                    i <= interested@.len(),
                    forall|m: int|
                        0 <= m < n ==> #[trigger] lists(men_preferences@)[m] == if (pops(q0, offer, m)
                            && q0[m][0] < w) || interested@.take(i as int).contains(m as usize) {
                            q0[m].drop_first()
                        } else {
                            q0[m]
                        },
                decreases interested@.len() - i,
            {
                let m = interested[i];
                proof {
                    assert(props[w as int][i as int] == m);
                    assert(!interested@.take(i as int).contains(m)) by {
                        if interested@.take(i as int).contains(m) {
                            let j = choose|j: int| 0 <= j < i && #[trigger] interested@.take(i as int)[j] == m;
                            assert(props[w as int][j] == props[w as int][i as int]);
                        }
                    }
                    assert(interested@.take(i + 1) =~= interested@.take(i as int).push(m));
                    assert(lists(men_preferences@)[m as int] == q0[m as int]);
                    assert(men_preferences@[m as int]@ == lists(men_preferences@)[m as int]);
                }
                let ghost before = lists(men_preferences@);
                men_preferences[m].remove(0);
                proof {
                    assert forall|x: int| 0 <= x < n implies #[trigger] lists(men_preferences@)[x]
                        == if (pops(q0, offer, x) && q0[x][0] < w) || interested@.take(
                        i + 1,
                    ).contains(x as usize) {
                        q0[x].drop_first()
                    } else {
                        q0[x]
                    } by {
                        if x == m as int {
                            assert(lists(men_preferences@)[x] =~= before[x].drop_first());
                            assert(interested@.take(i + 1)[i as int] == m);
                        } else {
                            assert(lists(men_preferences@)[x] == before[x]);
                            if interested@.take(i + 1).contains(x as usize) {
                                let j = choose|j: int| 0 <= j < i + 1 && #[trigger] interested@.take(i + 1)[j] == x as usize;
                                assert(interested@.take(i as int)[j] == x as usize);
                            }
                        }
                    }
                }
                i = i + 1;
            }
            proof {
                assert(interested@.take(interested@.len() as int) =~= interested@);
                assert forall|m: int| 0 <= m < n implies #[trigger] lists(men_preferences@)[m] == if pops(q0, offer, m)
                    && q0[m][0] < w + 1 {
                    q0[m].drop_first()
                } else {
                    q0[m]
                } by {
                    if interested@.contains(m as usize) {
                        let j = choose|j: int| 0 <= j < interested@.len() && interested@[j] == m as usize;
                        assert(props[w as int][j] == m as usize);
                    }
                    if pops(q0, offer, m) && q0[m][0] == w {
                        assert(offer(m, w as int));
                    }
                }
            }
        } else {
            proof {
                assert(!receives_offer(n as int, offer, w as int));
                assert(is_resolved(pw, e0, offer, engaged_man_woman@, w as int));
                assert forall|m: int| 0 <= m < n implies #[trigger] lists(men_preferences@)[m] == if pops(q0, offer, m)
                    && q0[m][0] < w + 1 {
                    q0[m].drop_first()
                } else {
                    q0[m]
                } by {
                    if pops(q0, offer, m) && q0[m][0] == w {
                        assert(offer(m, w as int));
                    }
                }
            }
        }
        w = w + 1;
    }
    proof {
        assert forall|m: int| 0 <= m < n implies #[trigger] lists(men_preferences@)[m] == if pops(q0, offer, m) {
            q0[m].drop_first()
        } else {
            q0[m]
        } by {
            if pops(q0, offer, m) {
                assert(offer(m, q0[m][0] as int));
            }
        }
    }
}

/// One round: every unengaged proposer proposes to its most preferred
/// remaining responder, and each responder resolves its proposals.
pub fn play_round(
    men_preferences: &mut Vec<Vec<usize>>,
    women_preferences: &Vec<Vec<usize>>,
    engaged_man_woman: &mut Vec<Option<usize>>,
)
    requires
        is_round_ready(lists(old(men_preferences)@), lists(women_preferences@), old(engaged_man_woman)@),
    ensures
        is_round(
            lists(women_preferences@),
            lists(old(men_preferences)@),
            old(engaged_man_woman)@,
            unengaged_offers(lists(old(men_preferences)@), old(engaged_man_woman)@),
            lists(final(men_preferences)@),
            final(engaged_man_woman)@,
        ),
{
    let ghost q = lists(men_preferences@);
    let ghost e = engaged_man_woman@;
    let nn = women_preferences.len();
    let ghost n = women_preferences@.len();
    let unengaged_men = get_unengaged_men(men_preferences, engaged_man_woman);
    proof {
        assert forall|i: int| 0 <= i < unengaged_men@.len() implies {
            let m = #[trigger] unengaged_men@[i] as int;
            &&& m < men_preferences@.len()
            &&& men_preferences@[m]@.len() > 0
            &&& (men_preferences@[m]@[0] as int) < men_preferences@.len()
        } by {
            assert(unengaged_men@.contains(unengaged_men@[i]));
            assert(q[unengaged_men@[i] as int] == men_preferences@[unengaged_men@[i] as int]@);
        }
    }
    let ghost unengaged = unengaged_men@;
    let proposals = create_proposals(men_preferences, unengaged_men);
    let ghost props = lists(proposals@);
    proof {
        broadcast use vstd::seq_lib::group_filter_ensures;

        assert forall|w: int, i: int| 0 <= w < props.len() && 0 <= i < props[w].len() implies {
            let m = #[trigger] props[w][i] as int;
            &&& m < q.len()
            &&& e[m] is None
            &&& q[m].len() > 0
            &&& q[m][0] == w
        } by {
            assert(w < nn);
            assert(proposals@[w]@ == unengaged.filter(fronts(q, w as usize)));
            let m = props[w][i];
            assert(unengaged.filter(fronts(q, w as usize))[i] == m);
            assert(fronts(q, w as usize)(m));
            assert(unengaged.filter(fronts(q, w as usize)).contains(m));
            unengaged.lemma_filter_contains_rev(fronts(q, w as usize), m);
            assert(unengaged.contains(m));
        }
        assert forall|w: int, i: int, j: int|
            0 <= w < props.len() && 0 <= i < j < props[w].len() implies #[trigger] props[w][i]
            != #[trigger] props[w][j] by {
            assert(proposals@[w]@ == unengaged.filter(fronts(q, w as usize)));
            lemma_filter_increasing(unengaged, fronts(q, w as usize));
        }
        assert(is_valid_proposals(q, e, props));
    }
    accept_or_reject_proposals(men_preferences, women_preferences, engaged_man_woman, proposals);
    proof {
        broadcast use vstd::seq_lib::group_filter_ensures;

        assert forall|m: int, w: int| #[trigger] offers_in(props)(m, w) == unengaged_offers(q, e)(m, w) by {
            if 0 <= m < n && 0 <= w < n {
                assert(m < nn && w < nn);
                let p = fronts(q, w as usize);
                assert(proposals@[w]@ == unengaged.filter(p));
                if unengaged.filter(p).contains(m as usize) {
                    unengaged.lemma_filter_contains_rev(p, m as usize);
                    let k = choose|k: int| 0 <= k < unengaged.filter(p).len() && unengaged.filter(p)[k] == m as usize;
                    assert(p(unengaged.filter(p)[k]));
                }
                if unengaged_offers(q, e)(m, w) {
                    assert(unengaged.contains(m as usize));
                    let k = choose|k: int| 0 <= k < unengaged.len() && unengaged[k] == m as usize;
                    unengaged.lemma_filter_contains(p, k);
                }
            }
        }
        assert(offers_in(props) =~= unengaged_offers(q, e));
    }
}

/// Runs deferred acceptance to completion on index tables and returns the
/// engagement of each proposer.
pub fn gale_shapley_internal(
    men_preferences: &Vec<Vec<usize>>,
    women_preferences: &Vec<Vec<usize>>,
) -> (r: HashMap<usize, usize>)
    requires
        well_formed_tables(lists(men_preferences@), lists(women_preferences@)),
    ensures
        is_proposer_optimal(table(lists(men_preferences@)), table(lists(women_preferences@)), r@),
{
    let ghost pm = lists(men_preferences@);
    let ghost pw = lists(women_preferences@);
    let n = men_preferences.len();
    let mut queues = men_preferences.clone();
    assert(lists(queues@) =~= pm);
    let mut engaged: Vec<Option<usize>> = Vec::new();
    let mut i: usize = 0;
    while i < n
        invariant
            i <= n,
            engaged@.len() == i,
            forall|m: int| 0 <= m < i ==> (#[trigger] engaged@[m]) is None,
        decreases n - i,
    {
        engaged.push(None);
        i = i + 1;
    }
    proof {
        let q = lists(queues@);
        assert forall|m: int| 0 <= m < n implies (#[trigger] q[m]).len() <= n && q[m]
            == pm[m].subrange(n - q[m].len(), n as int) by {
            assert(pm[m].subrange(0, n as int) =~= pm[m]);
        }
    }
    loop
        invariant
            n == pm.len(),
            pm == lists(men_preferences@),
            pw == lists(women_preferences@),
            is_engine_state(pm, pw, lists(queues@), engaged@),
        ensures
            is_engine_state(pm, pw, lists(queues@), engaged@),
            forall|m: int| 0 <= m < n ==> (#[trigger] engaged@[m]) is Some,
        decreases queued(lists(queues@)),
    {
        let unengaged = get_unengaged_men(&queues, &engaged);
        if unengaged.len() == 0 {
            proof {
                assert forall|m: int| 0 <= m < n implies (#[trigger] engaged@[m]) is Some by {
                    if engaged@[m] is None {
                        assert(unengaged@.contains(m as usize));
                    }
                }
            }
            break;
        }
        let ghost q = lists(queues@);
        let ghost e = engaged@;
        proof {
            lemma_state_ready(pm, pw, q, e);
        }
        play_round(&mut queues, women_preferences, &mut engaged);
        proof {
            let offer = unengaged_offers(q, e);
            lemma_round_keeps_state(pm, pw, q, e, offer, lists(queues@), engaged@);
            let m0 = unengaged@[0] as int;
            assert(unengaged@.contains(unengaged@[0]));
            lemma_unengaged_has_options(pm, pw, q, e, m0);
            assert(pops(q, offer, m0));
            assert forall|m: int| 0 <= m < q.len() implies (#[trigger] lists(queues@)[m]).len()
                <= q[m].len() by {
                if pops(q, offer, m) {
                }
            }
            lemma_queued_lt(q, lists(queues@), m0);
        }
    }
    let mut r: HashMap<usize, usize> = HashMap::new();
    let mut m: usize = 0;
    while m < n
        invariant
            n == engaged@.len(),
            m <= n,
            forall|j: int| 0 <= j < n ==> (#[trigger] engaged@[j]) is Some,
            r@ == engagement_map(engaged@.take(m as int)),
        decreases n - m,
    {
        let w = engaged[m].unwrap();
        r.insert(m, w);
        proof {
            assert(engagement_map(engaged@.take(m + 1)) =~= engagement_map(engaged@.take(m as int)).insert(m, w));
        }
        m = m + 1;
    }
    proof {
        assert(engaged@.take(n as int) =~= engaged@);
        lemma_all_engaged_is_optimal(pm, pw, lists(queues@), engaged@);
    }
    r
}

} // verus!
