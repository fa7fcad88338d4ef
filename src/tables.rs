//! Preference tables on dense indices `0..n` and their ranking facts.
use vstd::prelude::*;
use crate::model::{rank, lemma_rank_at, is_ranking_of, well_formed};
use vstd::set_lib::{set_int_range, lemma_int_range, lemma_map_size, lemma_subset_equality};

verus! {

/// The contents of a table of index lists.
pub open spec fn lists(v: Seq<Vec<usize>>) -> Seq<Seq<usize>> {
    v.map_values(|l: Vec<usize>| l@)
}

/// `s` orders the indices `0..n`, each exactly once.
pub open spec fn is_index_ranking(s: Seq<usize>, n: nat) -> bool {
    &&& n <= usize::MAX
    &&& s.len() == n
    &&& s.no_duplicates()
    &&& forall|i: int| 0 <= i < s.len() ==> (#[trigger] s[i] as int) < n
}

/// Proposer and responder tables of size `n`, every list a ranking of the other side.
pub open spec fn well_formed_tables(pm: Seq<Seq<usize>>, pw: Seq<Seq<usize>>) -> bool {
    &&& pm.len() == pw.len()
    &&& forall|m: int| 0 <= m < pm.len() ==> is_index_ranking(#[trigger] pm[m], pw.len())
    &&& forall|w: int| 0 <= w < pw.len() ==> is_index_ranking(#[trigger] pw[w], pm.len())
}

/// An index table as a map from each participant index to its list.
pub open spec fn table(v: Seq<Seq<usize>>) -> Map<usize, Seq<usize>> {
    Map::new(|i: usize| (i as int) < v.len(), |i: usize| v[i as int])
}

/// Some index below `n` is mapped to `j` by `f`.
pub open spec fn reaches(f: spec_fn(int) -> int, n: int, j: int) -> bool {
    exists|i: int| 0 <= i < n && #[trigger] f(i) == j
}

/// An injective map from `0..n` into `0..n` reaches every value.
pub proof fn lemma_pigeonhole(f: spec_fn(int) -> int, n: int)
    requires
        0 <= n,
        forall|i: int| 0 <= i < n ==> 0 <= #[trigger] f(i) < n,
        forall|i: int, j: int| 0 <= i < n && 0 <= j < n && i != j ==> #[trigger] f(i) != #[trigger] f(j),
    ensures
        forall|j: int| 0 <= j < n ==> #[trigger] reaches(f, n, j),
{
    let r = set_int_range(0, n);
    lemma_int_range(0, n);
    let img = r.map(f);
    assert(vstd::relations::injective_on(f, r));
    lemma_map_size(r, img, f);
    assert(img.subset_of(r));
    lemma_subset_equality(img, r);
    assert forall|j: int| 0 <= j < n implies #[trigger] reaches(f, n, j) by {
        assert(r.contains(j));
        assert(img.contains(j));
    }
}

/// Every index below `n` has a rank in an index ranking, at which it stands.
pub proof fn lemma_ranking_covers(s: Seq<usize>, n: nat)
    requires
        is_index_ranking(s, n),
    ensures
        forall|j: usize| (j as int) < n ==> 0 <= #[trigger] rank(s, j) < n && s[rank(s, j)] == j,
{
    let f = |i: int| s[i] as int;
    assert forall|i: int, j: int| 0 <= i < n && 0 <= j < n && i != j implies #[trigger] f(i)
        != #[trigger] f(j) by {
        assert(s[i] != s[j]);
    }
    lemma_pigeonhole(f, n as int);
    assert forall|j: usize| (j as int) < n implies 0 <= #[trigger] rank(s, j) < n && s[rank(s, j)]
        == j by {
        assert(reaches(f, n as int, j as int));
        let i = choose|i: int| 0 <= i < n && #[trigger] f(i) == j;
        lemma_rank_at(s, i);
    }
}

/// Distinct indices below `n` have distinct ranks in an index ranking.
pub(crate) proof fn lemma_rank_distinct(s: Seq<usize>, n: nat, a: int, b: int)
    requires
        is_index_ranking(s, n),
        0 <= a < n,
        0 <= b < n,
        a != b,
    ensures
        rank(s, a as usize) != rank(s, b as usize),
{
    lemma_ranking_covers(s, n);
    assert(s[rank(s, a as usize)] == a as usize);
    assert(s[rank(s, b as usize)] == b as usize);
}

/// Well-formed index tables are well-formed preference tables.
pub proof fn lemma_tables_well_formed(pm: Seq<Seq<usize>>, pw: Seq<Seq<usize>>)
    requires
        well_formed_tables(pm, pw),
        pm.len() <= usize::MAX,
    ensures
        well_formed(table(pm), table(pw)),
{
    let n = pm.len() as int;
    let ids = set_int_range(0, n);
    let to_index = |i: int| i as usize;
    lemma_int_range(0, n);
    assert forall|x: usize| ids.map(to_index).contains(x) <==> (x as int) < n by {
        if (x as int) < n {
            assert(ids.contains(x as int) && to_index(x as int) == x);
        }
    }
    assert(ids.map(to_index) =~= table(pm).dom());
    assert(ids.map(to_index) =~= table(pw).dom());
    assert(vstd::relations::injective_on(to_index, ids));
    lemma_map_size(ids, table(pm).dom(), to_index);
    assert forall|m: usize| table(pm).dom().contains(m) implies is_ranking_of(
        #[trigger] table(pm)[m],
        table(pw).dom(),
    ) by {
        let s = pm[m as int];
        lemma_ranking_covers(s, n as nat);
        assert forall|x: usize| s.to_set().contains(x) <==> table(pw).dom().contains(x) by {
            if (x as int) < n {
                assert(s[rank(s, x)] == x);
            }
        }
        assert(s.to_set() =~= table(pw).dom());
    }
    assert forall|w: usize| table(pw).dom().contains(w) implies is_ranking_of(
        #[trigger] table(pw)[w],
        table(pm).dom(),
    ) by {
        let s = pw[w as int];
        lemma_ranking_covers(s, n as nat);
        assert forall|x: usize| s.to_set().contains(x) <==> table(pm).dom().contains(x) by {
            if (x as int) < n {
                assert(s[rank(s, x)] == x);
            }
        }
        assert(s.to_set() =~= table(pm).dom());
    }
}

} // verus!
