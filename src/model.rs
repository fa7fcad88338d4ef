//! The mathematical model: preference tables, matchings, stability and
//! proposer-optimality, stated over any key type.
use vstd::prelude::*;

verus! {

/// Position of `x` in the preference order `s`; a lower rank is more preferred.
pub open spec fn rank<K>(s: Seq<K>, x: K) -> int {
    choose|i: int| 0 <= i < s.len() && s[i] == x
}

/// Participant `who` strictly prefers `a` over `b` in the table `prefs`.
pub open spec fn prefers<K>(prefs: Map<K, Seq<K>>, who: K, a: K, b: K) -> bool {
    rank(prefs[who], a) < rank(prefs[who], b)
}

/// `s` is a strict total order over exactly the participants in `keys`.
pub open spec fn is_ranking_of<K>(s: Seq<K>, keys: Set<K>) -> bool {
    s.no_duplicates() && s.to_set() == keys
}

/// Two preference tables of equal size, each participant ranking every
/// member of the other group exactly once.
pub open spec fn well_formed<K>(pm: Map<K, Seq<K>>, pw: Map<K, Seq<K>>) -> bool {
    &&& pm.dom().finite()
    &&& pw.dom().finite()
    &&& pm.dom().len() == pw.dom().len()
    &&& forall|m: K| pm.dom().contains(m) ==> is_ranking_of(#[trigger] pm[m], pw.dom())
    &&& forall|w: K| pw.dom().contains(w) ==> is_ranking_of(#[trigger] pw[w], pm.dom())
}

/// `s` pairs every proposer with a distinct responder, covering all responders.
pub open spec fn is_matching<K>(pm: Map<K, Seq<K>>, pw: Map<K, Seq<K>>, s: Map<K, K>) -> bool {
    &&& s.dom() == pm.dom()
    &&& s.values() == pw.dom()
    &&& s.is_injective()
}

/// Proposer `m1` and the partner of proposer `m2` prefer each other over
/// their partners in `s`.
pub open spec fn blocks<K>(
    pm: Map<K, Seq<K>>,
    pw: Map<K, Seq<K>>,
    s: Map<K, K>,
    m1: K,
    m2: K,
) -> bool {
    prefers(pm, m1, s[m2], s[m1]) && prefers(pw, s[m2], m1, m2)
}

/// A matching with no blocking pair.
pub open spec fn is_stable<K>(pm: Map<K, Seq<K>>, pw: Map<K, Seq<K>>, s: Map<K, K>) -> bool {
    &&& is_matching(pm, pw, s)
    &&& forall|m1: K, m2: K|
        s.dom().contains(m1) && s.dom().contains(m2) ==> !#[trigger] blocks(pm, pw, s, m1, m2)
}

/// A stable matching that no other stable matching improves on for any proposer.
pub open spec fn is_proposer_optimal<K>(
    pm: Map<K, Seq<K>>,
    pw: Map<K, Seq<K>>,
    s: Map<K, K>,
) -> bool {
    &&& is_stable(pm, pw, s)
    &&& forall|t: Map<K, K>, m: K|
        is_stable(pm, pw, t) && pm.dom().contains(m) ==> !#[trigger] prefers(pm, m, t[m], s[m])
}

/// In a sequence without duplicates, the rank of the element at `i` is `i`.
pub proof fn lemma_rank_at<K>(s: Seq<K>, i: int)
    requires
        s.no_duplicates(),
        0 <= i < s.len(),
    ensures
        rank(s, s[i]) == i,
{
    let j = rank(s, s[i]);
    assert(0 <= j < s.len() && s[j] == s[i]);
}

/// A member of the ranked set stands at its rank.
pub proof fn lemma_rank_of_member<K>(s: Seq<K>, keys: Set<K>, x: K)
    requires
        is_ranking_of(s, keys),
        keys.contains(x),
    ensures
        0 <= rank(s, x) < s.len(),
        s[rank(s, x)] == x,
{
    assert(s.to_set().contains(x));
    let i = choose|i: int| 0 <= i < s.len() && s[i] == x;
    lemma_rank_at(s, i);
}

/// Determinism: an instance has at most one proposer-optimal stable
/// matching, so every run on the same preferences returns the same pairing.
pub proof fn lemma_optimal_unique<K>(
    pm: Map<K, Seq<K>>,
    pw: Map<K, Seq<K>>,
    s1: Map<K, K>,
    s2: Map<K, K>,
)
    requires
        well_formed(pm, pw),
        is_proposer_optimal(pm, pw, s1),
        is_proposer_optimal(pm, pw, s2),
    ensures
        s1 == s2,
{
    assert forall|m: K| #[trigger] pm.dom().contains(m) implies s1[m] == s2[m] by {
        assert(!prefers(pm, m, s2[m], s1[m]));
        assert(!prefers(pm, m, s1[m], s2[m]));
        assert(s1.values().contains(s1[m]));
        assert(s2.values().contains(s2[m]));
        lemma_rank_of_member(pm[m], pw.dom(), s1[m]);
        lemma_rank_of_member(pm[m], pw.dom(), s2[m]);
    }
    assert(s1 =~= s2);
}

/// `f` and `g` are mutually inverse bijections between `a` and `b`.
pub open spec fn is_bijection<K, J>(a: Set<K>, b: Set<J>, f: spec_fn(K) -> J, g: spec_fn(J) -> K) -> bool {
    &&& forall|x: K| a.contains(x) ==> b.contains(#[trigger] f(x)) && g(f(x)) == x
    &&& forall|y: J| b.contains(y) ==> a.contains(#[trigger] g(y)) && f(g(y)) == y
}

/// `(pm2, pw2)` is `(pm, pw)` with the proposers renamed by `f` (undone by
/// `finv`) and the responders renamed by `h` (undone by `hinv`).
pub open spec fn is_relabeling<K, J>(
    pm: Map<K, Seq<K>>,
    pw: Map<K, Seq<K>>,
    pm2: Map<J, Seq<J>>,
    pw2: Map<J, Seq<J>>,
    f: spec_fn(K) -> J,
    finv: spec_fn(J) -> K,
    h: spec_fn(K) -> J,
    hinv: spec_fn(J) -> K,
) -> bool {
    &&& is_bijection(pm.dom(), pm2.dom(), f, finv)
    &&& is_bijection(pw.dom(), pw2.dom(), h, hinv)
    &&& forall|m: K| pm.dom().contains(m) ==> #[trigger] pm2[f(m)] == pm[m].map_values(h)
    &&& forall|w: K| pw.dom().contains(w) ==> #[trigger] pw2[h(w)] == pw[w].map_values(f)
}

/// The matching `s` with proposers renamed by `f` and responders by `h`.
pub open spec fn relabel_matching<K, J>(
    s: Map<K, K>,
    f: spec_fn(K) -> J,
    finv: spec_fn(J) -> K,
    h: spec_fn(K) -> J,
) -> Map<J, J> {
    Map::new(|j: J| s.dom().contains(finv(j)) && f(finv(j)) == j, |j: J| h(s[finv(j)]))
}

/// Renaming the members of a ranking by an injection keeps every rank.
proof fn lemma_rank_renamed<K, J>(s: Seq<K>, keys: Set<K>, h: spec_fn(K) -> J, x: K)
    requires
        is_ranking_of(s, keys),
        keys.contains(x),
        forall|a: K, b: K| keys.contains(a) && keys.contains(b) && a != b ==> #[trigger] h(a) != #[trigger] h(b),
    ensures
        rank(s.map_values(h), h(x)) == rank(s, x),
{
    lemma_rank_of_member(s, keys, x);
    let t = s.map_values(h);
    assert forall|i: int, j: int| 0 <= i < t.len() && 0 <= j < t.len() && i != j implies t[i] != t[j] by {
        assert(s.to_set().contains(s[i]));
        assert(s.to_set().contains(s[j]));
    }
    lemma_rank_at(t, rank(s, x));
}

/// Renaming keeps preference tables well formed.
proof fn lemma_relabel_well_formed<K, J>(
    pm: Map<K, Seq<K>>,
    pw: Map<K, Seq<K>>,
    pm2: Map<J, Seq<J>>,
    pw2: Map<J, Seq<J>>,
    f: spec_fn(K) -> J,
    finv: spec_fn(J) -> K,
    h: spec_fn(K) -> J,
    hinv: spec_fn(J) -> K,
)
    requires
        well_formed(pm, pw),
        is_relabeling(pm, pw, pm2, pw2, f, finv, h, hinv),
    ensures
        well_formed(pm2, pw2),
{
    assert forall|y: J| pm.dom().map(f).contains(y) <==> pm2.dom().contains(y) by {
        if pm2.dom().contains(y) {
            assert(pm.dom().contains(finv(y)) && f(finv(y)) == y);
        }
    }
    assert forall|y: J| pw.dom().map(h).contains(y) <==> pw2.dom().contains(y) by {
        if pw2.dom().contains(y) {
            assert(pw.dom().contains(hinv(y)) && h(hinv(y)) == y);
        }
    }
    assert(pm.dom().map(f) =~= pm2.dom());
    assert(pw.dom().map(h) =~= pw2.dom());
    assert forall|x1: K, x2: K|
        pm.dom().contains(x1) && pm.dom().contains(x2) && #[trigger] f(x1) == #[trigger] f(x2) implies x1
        == x2 by {
        assert(finv(f(x1)) == x1 && finv(f(x2)) == x2);
    }
    assert forall|x1: K, x2: K|
        pw.dom().contains(x1) && pw.dom().contains(x2) && #[trigger] h(x1) == #[trigger] h(x2) implies x1
        == x2 by {
        assert(hinv(h(x1)) == x1 && hinv(h(x2)) == x2);
    }
    assert(vstd::relations::injective_on(f, pm.dom()));
    assert(vstd::relations::injective_on(h, pw.dom()));
    vstd::set_lib::lemma_map_size(pm.dom(), pm2.dom(), f);
    vstd::set_lib::lemma_map_size(pw.dom(), pw2.dom(), h);
    assert forall|j: J| pm2.dom().contains(j) implies is_ranking_of(#[trigger] pm2[j], pw2.dom()) by {
        let m = finv(j);
        let s = pm[m];
        assert(pm2[f(m)] == s.map_values(h));
        assert(is_ranking_of(s, pw.dom()));
        let t = s.map_values(h);
        assert forall|a: int, b: int| 0 <= a < t.len() && 0 <= b < t.len() && a != b implies t[a] != t[b] by {
            assert(s.to_set().contains(s[a]));
            assert(s.to_set().contains(s[b]));
            assert(s[a] != s[b]);
        }
        assert forall|y: J| t.to_set().contains(y) <==> pw2.dom().contains(y) by {
            if t.to_set().contains(y) {
                let a = choose|a: int| 0 <= a < t.len() && t[a] == y;
                assert(s.to_set().contains(s[a]));
            }
            if pw2.dom().contains(y) {
                lemma_rank_of_member(s, pw.dom(), hinv(y));
                assert(t[rank(s, hinv(y))] == y);
            }
        }
        assert(t.to_set() =~= pw2.dom());
    }
    assert forall|j: J| pw2.dom().contains(j) implies is_ranking_of(#[trigger] pw2[j], pm2.dom()) by {
        let w = hinv(j);
        let s = pw[w];
        assert(pw2[h(w)] == s.map_values(f));
        assert(is_ranking_of(s, pm.dom()));
        let t = s.map_values(f);
        assert forall|a: int, b: int| 0 <= a < t.len() && 0 <= b < t.len() && a != b implies t[a] != t[b] by {
            assert(s.to_set().contains(s[a]));
            assert(s.to_set().contains(s[b]));
            assert(s[a] != s[b]);
        }
        assert forall|y: J| t.to_set().contains(y) <==> pm2.dom().contains(y) by {
            if t.to_set().contains(y) {
                let a = choose|a: int| 0 <= a < t.len() && t[a] == y;
                assert(s.to_set().contains(s[a]));
            }
            if pm2.dom().contains(y) {
                lemma_rank_of_member(s, pm.dom(), finv(y));
                assert(t[rank(s, finv(y))] == y);
            }
        }
        assert(t.to_set() =~= pm2.dom());
    }
}

/// Undoing a renaming is a renaming.
proof fn lemma_relabel_inverse<K, J>(
    pm: Map<K, Seq<K>>,
    pw: Map<K, Seq<K>>,
    pm2: Map<J, Seq<J>>,
    pw2: Map<J, Seq<J>>,
    f: spec_fn(K) -> J,
    finv: spec_fn(J) -> K,
    h: spec_fn(K) -> J,
    hinv: spec_fn(J) -> K,
)
    requires
        well_formed(pm, pw),
        is_relabeling(pm, pw, pm2, pw2, f, finv, h, hinv),
    ensures
        is_relabeling(pm2, pw2, pm, pw, finv, f, hinv, h),
{
    assert forall|j: J| pm2.dom().contains(j) implies #[trigger] pm[finv(j)] == pm2[j].map_values(hinv) by {
        let m = finv(j);
        assert(pm2[f(m)] == pm[m].map_values(h));
        assert(is_ranking_of(pm[m], pw.dom()));
        assert forall|k: int| 0 <= k < pm[m].len() implies pm2[j].map_values(hinv)[k] == pm[m][k] by {
            assert(pm[m].to_set().contains(pm[m][k]));
        }
        assert(pm[m] =~= pm2[j].map_values(hinv));
    }
    assert forall|j: J| pw2.dom().contains(j) implies #[trigger] pw[hinv(j)] == pw2[j].map_values(finv) by {
        let w = hinv(j);
        assert(pw2[h(w)] == pw[w].map_values(f));
        assert(is_ranking_of(pw[w], pm.dom()));
        assert forall|k: int| 0 <= k < pw[w].len() implies pw2[j].map_values(finv)[k] == pw[w][k] by {
            assert(pw[w].to_set().contains(pw[w][k]));
        }
        assert(pw[w] =~= pw2[j].map_values(finv));
    }
}

/// Renaming carries a stable matching to a stable matching.
proof fn lemma_relabel_stable<K, J>(
    pm: Map<K, Seq<K>>,
    pw: Map<K, Seq<K>>,
    pm2: Map<J, Seq<J>>,
    pw2: Map<J, Seq<J>>,
    f: spec_fn(K) -> J,
    finv: spec_fn(J) -> K,
    h: spec_fn(K) -> J,
    hinv: spec_fn(J) -> K,
    s: Map<K, K>,
)
    requires
        well_formed(pm, pw),
        is_relabeling(pm, pw, pm2, pw2, f, finv, h, hinv),
        is_stable(pm, pw, s),
    ensures
        is_stable(pm2, pw2, relabel_matching(s, f, finv, h)),
{
    let s2 = relabel_matching(s, f, finv, h);
    assert(s2.dom() =~= pm2.dom());
    assert forall|y: J| s2.values().contains(y) <==> pw2.dom().contains(y) by {
        if s2.values().contains(y) {
            let j = choose|j: J| s2.dom().contains(j) && s2[j] == y;
            assert(s.values().contains(s[finv(j)]));
        }
        if pw2.dom().contains(y) {
            assert(s.values().contains(hinv(y)));
            let m = choose|m: K| s.dom().contains(m) && s[m] == hinv(y);
            assert(s2.dom().contains(f(m)));
            assert(s2[f(m)] == y);
        }
    }
    assert(s2.values() =~= pw2.dom());
    assert forall|j1: J, j2: J|
        j1 != j2 && s2.dom().contains(j1) && s2.dom().contains(j2) implies #[trigger] s2[j1]
        != #[trigger] s2[j2] by {
        let m1 = finv(j1);
        let m2 = finv(j2);
        assert(s.values().contains(s[m1]));
        assert(s.values().contains(s[m2]));
        if s2[j1] == s2[j2] {
            assert(hinv(h(s[m1])) == hinv(h(s[m2])));
        }
    }
    assert forall|a: K, b: K| pw.dom().contains(a) && pw.dom().contains(b) && a != b implies #[trigger] h(a)
        != #[trigger] h(b) by {
        assert(hinv(h(a)) == a && hinv(h(b)) == b);
    }
    assert forall|a: K, b: K| pm.dom().contains(a) && pm.dom().contains(b) && a != b implies #[trigger] f(a)
        != #[trigger] f(b) by {
        assert(finv(f(a)) == a && finv(f(b)) == b);
    }
    assert forall|j1: J, j2: J|
        s2.dom().contains(j1) && s2.dom().contains(j2) implies !#[trigger] blocks(pm2, pw2, s2, j1, j2) by {
        let m1 = finv(j1);
        let m2 = finv(j2);
        assert(!blocks(pm, pw, s, m1, m2));
        assert(s.values().contains(s[m1]));
        assert(s.values().contains(s[m2]));
        let w = s[m2];
        assert(pm2[f(m1)] == pm[m1].map_values(h));
        lemma_rank_renamed(pm[m1], pw.dom(), h, s[m2]);
        lemma_rank_renamed(pm[m1], pw.dom(), h, s[m1]);
        assert(pw2[h(w)] == pw[w].map_values(f));
        lemma_rank_renamed(pw[w], pm.dom(), f, m1);
        lemma_rank_renamed(pw[w], pm.dom(), f, m2);
    }
}

/// Relabeling: renaming every participant through bijections carries the
/// proposer-optimal stable matching to the proposer-optimal stable matching
/// of the renamed instance.
pub proof fn lemma_relabel_optimal<K, J>(
    pm: Map<K, Seq<K>>,
    pw: Map<K, Seq<K>>,
    pm2: Map<J, Seq<J>>,
    pw2: Map<J, Seq<J>>,
    f: spec_fn(K) -> J,
    finv: spec_fn(J) -> K,
    h: spec_fn(K) -> J,
    hinv: spec_fn(J) -> K,
    s: Map<K, K>,
)
    requires
        well_formed(pm, pw),
        is_relabeling(pm, pw, pm2, pw2, f, finv, h, hinv),
        is_proposer_optimal(pm, pw, s),
    ensures
        well_formed(pm2, pw2),
        is_proposer_optimal(pm2, pw2, relabel_matching(s, f, finv, h)),
{
    let s2 = relabel_matching(s, f, finv, h);
    lemma_relabel_well_formed(pm, pw, pm2, pw2, f, finv, h, hinv);
    lemma_relabel_stable(pm, pw, pm2, pw2, f, finv, h, hinv, s);
    lemma_relabel_inverse(pm, pw, pm2, pw2, f, finv, h, hinv);
    assert forall|a: K, b: K| pw.dom().contains(a) && pw.dom().contains(b) && a != b implies #[trigger] h(a)
        != #[trigger] h(b) by {
        assert(hinv(h(a)) == a && hinv(h(b)) == b);
    }
    assert forall|t2: Map<J, J>, j: J|
        is_stable(pm2, pw2, t2) && pm2.dom().contains(j) implies !#[trigger] prefers(pm2, j, t2[j], s2[j]) by {
        lemma_relabel_stable(pm2, pw2, pm, pw, finv, f, hinv, h, t2);
        let t = relabel_matching(t2, finv, f, hinv);
        let m = finv(j);
        assert(f(m) == j);
        assert(t.dom().contains(m));
        assert(!prefers(pm, m, t[m], s[m]));
        assert(t.values().contains(t[m]));
        assert(s.values().contains(s[m]));
        assert(t2.values().contains(t2[j]));
        assert(h(t[m]) == t2[j]);
        assert(pm2[f(m)] == pm[m].map_values(h));
        lemma_rank_renamed(pm[m], pw.dom(), h, t[m]);
        lemma_rank_renamed(pm[m], pw.dom(), h, s[m]);
    }
}

/// Relabeling and re-running agree: on an instance renamed through
/// bijections, the proposer-optimal stable matching is the one before renaming,
/// renamed the same way.
pub proof fn lemma_relabeling_commutes<K, J>(
    pm: Map<K, Seq<K>>,
    pw: Map<K, Seq<K>>,
    pm2: Map<J, Seq<J>>,
    pw2: Map<J, Seq<J>>,
    f: spec_fn(K) -> J,
    finv: spec_fn(J) -> K,
    h: spec_fn(K) -> J,
    hinv: spec_fn(J) -> K,
    s: Map<K, K>,
    s2: Map<J, J>,
)
    requires
        well_formed(pm, pw),
        is_relabeling(pm, pw, pm2, pw2, f, finv, h, hinv),
        is_proposer_optimal(pm, pw, s),
        is_proposer_optimal(pm2, pw2, s2),
    ensures
        s2 == relabel_matching(s, f, finv, h),
{
    lemma_relabel_optimal(pm, pw, pm2, pw2, f, finv, h, hinv, s);
    lemma_optimal_unique(pm2, pw2, s2, relabel_matching(s, f, finv, h));
}

} // verus!
