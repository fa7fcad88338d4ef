//! The key adapter: preferences keyed by any hashable type, encoded to dense
//! indices for the engine and decoded back.
use vstd::prelude::*;
use vstd::std_specs::hash::obeys_key_model;
use vstd::std_specs::iter::IteratorSpec;
use std::collections::HashMap;
use std::hash::Hash;
use crate::model::{
    is_ranking_of, well_formed, is_proposer_optimal, is_relabeling, relabel_matching,
    lemma_relabel_optimal,
};
use crate::tables::{lists, table, is_index_ranking, well_formed_tables, lemma_tables_well_formed};
use crate::engine::gale_shapley_internal;

verus! {

/// Why a preference input is refused.
#[derive(Clone, Copy, Debug, PartialEq, Eq)]
pub enum MatchError {
    /// The two groups differ in size.
    InputSizeMismatch,
    /// A preference list omits, repeats or names an unknown participant.
    IncompletePreferenceList,
}

/// The preference lists of a keyed table.
pub open spec fn pref_view<T>(m: Map<T, Vec<T>>) -> Map<T, Seq<T>> {
    m.map_values(|v: Vec<T>| v@)
}

/// The keys of `m`, each once, in the map's iteration order.
fn collect_keys<T: Copy + Eq + Hash>(m: &HashMap<T, Vec<T>>) -> (r: Vec<T>)
    requires
        obeys_key_model::<T>(),
    ensures
        r@.no_duplicates(),
        r@.to_set() == m@.dom(),
{
    let mut r: Vec<T> = Vec::new();
    let ghost ks = vstd::std_specs::hash::spec_keys_iter(m).remaining();
    proof {
        broadcast use vstd::std_specs::hash::axiom_spec_keys_iter;
        assert(ks.unref().to_set() == m@.dom());
    }
    for k in it: m.keys()
        invariant
            it.seq() == ks,
            r@ == it.seq().take(it.index() as int).unref(),
    {
        r.push(*k);
    }
    proof {
        assert(r@ =~= ks.unref());
    }
    r
}

/// The position of each key in `keys`.
fn index_keys<T: Copy + Eq + Hash>(keys: &Vec<T>) -> (r: HashMap<T, usize>)
    requires
        obeys_key_model::<T>(),
        keys@.no_duplicates(),
    ensures
        r@.dom() == keys@.to_set(),
        forall|i: int| 0 <= i < keys@.len() ==> r@[#[trigger] keys@[i]] == i,
{
    let mut r: HashMap<T, usize> = HashMap::new();
    let mut i: usize = 0;
    while i < keys.len()
        invariant
            obeys_key_model::<T>(),
            keys@.no_duplicates(),
            i <= keys@.len(),
            r@.dom() == keys@.take(i as int).to_set(),
            forall|j: int| 0 <= j < i ==> r@[#[trigger] keys@[j]] == j,
        decreases keys@.len() - i,
    {
        r.insert(keys[i], i);
        proof {
            assert(keys@.take(i + 1) =~= keys@.take(i as int).push(keys@[i as int]));
            keys@.take(i as int).lemma_push_to_set_commute(keys@[i as int]);
            assert forall|j: int| 0 <= j < i + 1 implies r@[#[trigger] keys@[j]] == j by {
                if j < i {
                    assert(keys@[j] != keys@[i as int]);
                }
            }
        }
        i = i + 1;
    }
    proof {
        assert(keys@.take(keys@.len() as int) =~= keys@);
    }
    r
}

/// `list` names each key of a set of `n` keys exactly once.
pub open spec fn names_each_once<T>(list: Seq<T>, keys: Set<T>, n: nat) -> bool {
    &&& list.len() == n
    &&& list.no_duplicates()
    &&& forall|k: int| 0 <= k < list.len() ==> keys.contains(#[trigger] list[k])
}

/// Encodes a list of keys as indices; `None` unless it names each of the
/// `n` indexed keys exactly once.
fn encode_list<T: Copy + Eq + Hash>(list: &Vec<T>, index: &HashMap<T, usize>, n: usize) -> (r:
    Option<Vec<usize>>)
    requires
        obeys_key_model::<T>(),
        forall|k: T| index@.dom().contains(k) ==> #[trigger] index@[k] < n,
        forall|a: T, b: T|
            index@.dom().contains(a) && index@.dom().contains(b) && a != b ==> #[trigger] index@[a]
                != #[trigger] index@[b],
    ensures
        match r {
            Some(v) => {
                &&& names_each_once(list@, index@.dom(), n as nat)
                &&& v@.len() == n
                &&& forall|k: int| 0 <= k < n ==> #[trigger] v@[k] == index@[list@[k]]
            },
            None => !names_each_once(list@, index@.dom(), n as nat),
        },
{
    if list.len() != n {
        return None;
    }
    let mut seen: Vec<bool> = vec![false; n];
    let mut out: Vec<usize> = Vec::new();
    let mut i: usize = 0;
    while i < n
        invariant
            obeys_key_model::<T>(),
            forall|k: T| index@.dom().contains(k) ==> #[trigger] index@[k] < n,
            forall|a: T, b: T|
                index@.dom().contains(a) && index@.dom().contains(b) && a != b ==> #[trigger] index@[a]
                    != #[trigger] index@[b],
            list@.len() == n,
            seen@.len() == n,
            i <= n,
            out@.len() == i,
            forall|k: int| 0 <= k < i ==> index@.dom().contains(#[trigger] list@[k]),
            forall|k: int| 0 <= k < i ==> #[trigger] out@[k] == index@[list@[k]],
            forall|j: int| 0 <= j < n ==> (#[trigger] seen@[j] <==> exists|k: int| 0 <= k < i && out@[k] == j),
            forall|a: int, b: int| 0 <= a < b < i ==> list@[a] != list@[b],
        decreases n - i,
    {
        let key = list[i];
        match index.get(&key) {
            None => {
                return None;
            },
            Some(j) => {
                let j = *j;
                if seen[j] {
                    proof {
                        let k = choose|k: int| 0 <= k < i && out@[k] == j;
                        assert(list@[k] == list@[i as int]);
                    }
                    return None;
                }
                let ghost seen0 = seen@;
                let ghost out0 = out@;
                seen.set(j, true);
                out.push(j);
                proof {
                    assert forall|x: int| 0 <= x < n implies (#[trigger] seen@[x] <==> exists|k: int|
                        0 <= k < i + 1 && out@[k] == x) by {
                        if x == j {
                            assert(out@[i as int] == x);
                        } else {
                            if seen@[x] {
                                assert(seen0[x]);
                                let k = choose|k: int| 0 <= k < i && out0[k] == x;
                                assert(out@[k] == x);
                            }
                            if exists|k: int| 0 <= k < i + 1 && out@[k] == x {
                                let k = choose|k: int| 0 <= k < i + 1 && out@[k] == x;
                                assert(out0[k] == x);
                            }
                        }
                    }
                    assert forall|a: int, b: int| 0 <= a < b < i + 1 implies list@[a] != list@[b] by {
                        if b == i && list@[a] == list@[b] {
                            assert(out@[a] == j);
                        }
                    }
                }
            },
        }
        i = i + 1;
    }
    Some(out)
}

/// Encodes the preference list of each of `keys`, in order; `None` unless
/// every list names each of the keys in `other_index` exactly once.
fn encode_table<T: Copy + Eq + Hash>(
    prefs: &HashMap<T, Vec<T>>,
    keys: &Vec<T>,
    other_index: &HashMap<T, usize>,
    n: usize,
) -> (r: Option<Vec<Vec<usize>>>)
    requires
        obeys_key_model::<T>(),
        keys@.to_set() == prefs@.dom(),
        forall|k: T| other_index@.dom().contains(k) ==> #[trigger] other_index@[k] < n,
        forall|a: T, b: T|
            other_index@.dom().contains(a) && other_index@.dom().contains(b) && a != b
                ==> #[trigger] other_index@[a] != #[trigger] other_index@[b],
    ensures
        match r {
            Some(t) => {
                &&& t@.len() == keys@.len()
                &&& forall|i: int|
                    0 <= i < keys@.len() ==> {
                        let list = #[trigger] prefs@[keys@[i]]@;
                        &&& names_each_once(list, other_index@.dom(), n as nat)
                        &&& t@[i]@.len() == n
                        &&& forall|k: int| 0 <= k < n ==> #[trigger] t@[i]@[k] == other_index@[list[k]]
                    }
            },
            None => exists|i: int|
                0 <= i < keys@.len() && !names_each_once(
                    #[trigger] prefs@[keys@[i]]@,
                    other_index@.dom(),
                    n as nat,
                ),
        },
{
    let mut t: Vec<Vec<usize>> = Vec::new();
    let mut i: usize = 0;
    while i < keys.len()
        invariant
            obeys_key_model::<T>(),
            keys@.to_set() == prefs@.dom(),
            forall|k: T| other_index@.dom().contains(k) ==> #[trigger] other_index@[k] < n,
            forall|a: T, b: T|
                other_index@.dom().contains(a) && other_index@.dom().contains(b) && a != b
                    ==> #[trigger] other_index@[a] != #[trigger] other_index@[b],
            i <= keys@.len(),
            t@.len() == i,
            forall|j: int|
                0 <= j < i ==> {
                    let list = #[trigger] prefs@[keys@[j]]@;
                    &&& names_each_once(list, other_index@.dom(), n as nat)
                    &&& t@[j]@.len() == n
                    &&& forall|k: int| 0 <= k < n ==> #[trigger] t@[j]@[k] == other_index@[list[k]]
                },
        decreases keys@.len() - i,
    {
        assert(keys@.to_set().contains(keys@[i as int]));
        let list = prefs.get(&keys[i]).unwrap();
        match encode_list(list, other_index, n) {
            None => {
                return None;
            },
            Some(v) => {
                t.push(v);
            },
        }
        i = i + 1;
    }
    Some(t)
}

/// A ranking of a finite set of keys is a list naming each of them once.
proof fn lemma_ranking_iff<T>(s: Seq<T>, keys: Set<T>)
    requires
        keys.finite(),
    ensures
        is_ranking_of(s, keys) <==> names_each_once(s, keys, keys.len()),
{
    if is_ranking_of(s, keys) {
        s.unique_seq_to_set();
        assert forall|k: int| 0 <= k < s.len() implies keys.contains(#[trigger] s[k]) by {
            assert(s.to_set().contains(s[k]));
        }
    }
    if names_each_once(s, keys, keys.len()) {
        s.unique_seq_to_set();
        assert(s.to_set().subset_of(keys));
        vstd::set_lib::lemma_subset_equality(s.to_set(), keys);
    }
}

/// Facts of a key index built from a duplicate-free key list.
proof fn lemma_index_facts<T>(keys: Seq<T>, index: Map<T, usize>)
    requires
        index.dom() == keys.to_set(),
        forall|i: int| 0 <= i < keys.len() ==> index[#[trigger] keys[i]] == i,
    ensures
        forall|k: T|
            #[trigger] index.dom().contains(k) ==> (index[k] as int) < keys.len() && keys[index[k] as int]
                == k,
        forall|a: T, b: T|
            index.dom().contains(a) && index.dom().contains(b) && a != b ==> #[trigger] index[a]
                != #[trigger] index[b],
{
    assert forall|k: T| #[trigger] index.dom().contains(k) implies (index[k] as int) < keys.len()
        && keys[index[k] as int] == k by {
        assert(keys.to_set().contains(k));
        let i = choose|i: int| 0 <= i < keys.len() && keys[i] == k;
        assert(index[keys[i]] == i);
    }
}

/// The key at index `value`, if there is one.
pub fn get_reference_from_usize<T: Copy>(references: &Vec<T>, value: usize) -> (r: Option<T>)
    ensures
        r == if (value as int) < references@.len() {
            Some(references@[value as int])
        } else {
            None::<T>
        },
{
    if value < references.len() {
        Some(references[value])
    } else {
        None
    }
}

/// The proposer-optimal stable matching of two keyed preference tables:
/// each proposer mapped to its responder.
///
/// Both tables must be the same size, and every list must rank each key of
/// the other table exactly once; otherwise the input is refused. The keys
/// are encoded as indices in the tables' iteration order, which does not
/// affect the result: the proposer-optimal stable matching is unique.
/// Keys are copied into the result; their `Eq` and `Hash` must behave as a
/// hash map requires (`obeys_key_model`, which vstd gives integers).
pub fn gale_shapley<T: Copy + Eq + Hash>(
    input_men_preferences: &HashMap<T, Vec<T>>,
    input_women_preferences: &HashMap<T, Vec<T>>,
) -> (r: Result<HashMap<T, T>, MatchError>)
    requires
        obeys_key_model::<T>(),
    ensures
        r is Ok <==> well_formed(pref_view(input_men_preferences@), pref_view(input_women_preferences@)),
        r matches Ok(s) ==> is_proposer_optimal(
            pref_view(input_men_preferences@),
            pref_view(input_women_preferences@),
            s@,
        ),
        r matches Err(MatchError::InputSizeMismatch) <==> input_men_preferences@.len()
            != input_women_preferences@.len(),
{
    let ghost pmk = pref_view(input_men_preferences@);
    let ghost pwk = pref_view(input_women_preferences@);
    assert(pmk.dom() =~= input_men_preferences@.dom());
    assert(pwk.dom() =~= input_women_preferences@.dom());
    if input_men_preferences.len() != input_women_preferences.len() {
        return Err(MatchError::InputSizeMismatch);
    }
    let n = input_men_preferences.len();
    let men_keys = collect_keys(input_men_preferences);
    let women_keys = collect_keys(input_women_preferences);
    proof {
        men_keys@.unique_seq_to_set();
        women_keys@.unique_seq_to_set();
    }
    let men_index = index_keys(&men_keys);
    let women_index = index_keys(&women_keys);
    proof {
        lemma_index_facts(men_keys@, men_index@);
        lemma_index_facts(women_keys@, women_index@);
    }
    let men_table = match encode_table(input_men_preferences, &men_keys, &women_index, n) {
        Some(t) => t,
        None => {
            proof {
                let i = choose|i: int|
                    0 <= i < men_keys@.len() && !names_each_once(
                        #[trigger] input_men_preferences@[men_keys@[i]]@,
                        women_index@.dom(),
                        n as nat,
                    );
                assert(men_keys@.to_set().contains(men_keys@[i]));
                lemma_ranking_iff(pmk[men_keys@[i]], pwk.dom());
            }
            return Err(MatchError::IncompletePreferenceList);
        },
    };
    let women_table = match encode_table(input_women_preferences, &women_keys, &men_index, n) {
        Some(t) => t,
        None => {
            proof {
                let i = choose|i: int|
                    0 <= i < women_keys@.len() && !names_each_once(
                        #[trigger] input_women_preferences@[women_keys@[i]]@,
                        men_index@.dom(),
                        n as nat,
                    );
                assert(women_keys@.to_set().contains(women_keys@[i]));
                lemma_ranking_iff(pwk[women_keys@[i]], pmk.dom());
            }
            return Err(MatchError::IncompletePreferenceList);
        },
    };
    let ghost im = lists(men_table@);
    let ghost iw = lists(women_table@);
    let ghost f = |k: T| men_index@[k];
    let ghost finv = |i: usize| men_keys@[i as int];
    let ghost h = |k: T| women_index@[k];
    let ghost hinv = |j: usize| women_keys@[j as int];
    proof {
        assert forall|i: int| 0 <= i < n implies is_index_ranking(#[trigger] im[i], n as nat) by {
            let list = input_men_preferences@[men_keys@[i]]@;
            assert forall|a: int, b: int| 0 <= a < b < n implies im[i][a] != im[i][b] by {
                assert(women_index@.dom().contains(list[a]));
                assert(women_index@.dom().contains(list[b]));
            }
            assert forall|a: int| 0 <= a < n implies (#[trigger] im[i][a] as int) < n by {
                assert(women_index@.dom().contains(list[a]));
            }
        }
        assert forall|j: int| 0 <= j < n implies is_index_ranking(#[trigger] iw[j], n as nat) by {
            let list = input_women_preferences@[women_keys@[j]]@;
            assert forall|a: int, b: int| 0 <= a < b < n implies iw[j][a] != iw[j][b] by {
                assert(men_index@.dom().contains(list[a]));
                assert(men_index@.dom().contains(list[b]));
            }
            assert forall|a: int| 0 <= a < n implies (#[trigger] iw[j][a] as int) < n by {
                assert(men_index@.dom().contains(list[a]));
            }
        }
        assert(well_formed_tables(im, iw));
        lemma_tables_well_formed(im, iw);
        assert forall|i: usize| table(im).dom().contains(i) implies #[trigger] pmk[finv(i)]
            == table(im)[i].map_values(hinv) by {
            let list = input_men_preferences@[men_keys@[i as int]]@;
            assert(men_keys@.to_set().contains(men_keys@[i as int]));
            assert forall|a: int| 0 <= a < n implies table(im)[i].map_values(hinv)[a] == list[a] by {
                assert(women_index@.dom().contains(list[a]));
            }
            assert(pmk[finv(i)] =~= table(im)[i].map_values(hinv));
        }
        assert forall|j: usize| table(iw).dom().contains(j) implies #[trigger] pwk[hinv(j)]
            == table(iw)[j].map_values(finv) by {
            let list = input_women_preferences@[women_keys@[j as int]]@;
            assert(women_keys@.to_set().contains(women_keys@[j as int]));
            assert forall|a: int| 0 <= a < n implies table(iw)[j].map_values(finv)[a] == list[a] by {
                assert(men_index@.dom().contains(list[a]));
            }
            assert(pwk[hinv(j)] =~= table(iw)[j].map_values(finv));
        }
        assert forall|i: usize| table(im).dom().contains(i) implies pmk.dom().contains(#[trigger] finv(i))
            && f(finv(i)) == i by {
            assert(men_keys@.to_set().contains(men_keys@[i as int]));
        }
        assert forall|j: usize| table(iw).dom().contains(j) implies pwk.dom().contains(#[trigger] hinv(j))
            && h(hinv(j)) == j by {
            assert(women_keys@.to_set().contains(women_keys@[j as int]));
        }
        assert(is_relabeling(table(im), table(iw), pmk, pwk, finv, f, hinv, h));
    }
    let engaged = gale_shapley_internal(&men_table, &women_table);
    proof {
        lemma_relabel_optimal(table(im), table(iw), pmk, pwk, finv, f, hinv, h, engaged@);
    }
    let ghost out = relabel_matching(engaged@, finv, f, hinv);
    let mut engagements: HashMap<T, T> = HashMap::new();
    let mut i: usize = 0;
    while i < n
        invariant
            obeys_key_model::<T>(),
            i <= n,
            men_keys@.len() == n,
            women_keys@.len() == n,
            men_keys@.no_duplicates(),
            engaged@.dom() == table(im).dom(),
            engaged@.values() == table(iw).dom(),
            im.len() == n,
            iw.len() == n,
            engagements@.dom() == men_keys@.take(i as int).to_set(),
            forall|j: int|
                0 <= j < i ==> engagements@[#[trigger] men_keys@[j]] == women_keys@[engaged@[j as usize] as int],
        decreases n - i,
    {
        assert(table(im).dom().contains(i));
        let j = *engaged.get(&i).unwrap();
        assert(engaged@.values().contains(j));
        let man = get_reference_from_usize(&men_keys, i).unwrap();
        let woman = get_reference_from_usize(&women_keys, j).unwrap();
        engagements.insert(man, woman);
        proof {
            assert(men_keys@.take(i + 1) =~= men_keys@.take(i as int).push(man));
            men_keys@.take(i as int).lemma_push_to_set_commute(man);
            assert forall|x: int| 0 <= x < i + 1 implies engagements@[#[trigger] men_keys@[x]]
                == women_keys@[engaged@[x as usize] as int] by {
                if x < i {
                    assert(men_keys@[x] != men_keys@[i as int]);
                }
            }
        }
        i = i + 1;
    }
    proof {
        assert(men_keys@.take(n as int) =~= men_keys@);
        assert forall|k: T| engagements@.dom().contains(k) <==> out.dom().contains(k) by {
            if pmk.dom().contains(k) {
                assert(men_index@.dom().contains(k));
            }
            if engagements@.dom().contains(k) {
                assert(men_keys@.to_set().contains(k));
            }
        }
        assert forall|k: T| #[trigger] engagements@.dom().contains(k) implies engagements@[k] == out[k] by {
            assert(men_keys@.to_set().contains(k));
            assert(men_index@.dom().contains(k));
            let x = men_index@[k] as int;
            assert(men_keys@[x] == k);
        }
        assert(engagements@ =~= out);
    }
    Ok(engagements)
}

} // verus!
