//! Ranking by a key.

use crate::text::{
    lemma_text_before_asymmetric, lemma_text_before_total, lemma_text_before_transitive,
    text_before, text_less,
};
use vstd::prelude::*;
use vstd::set_lib::{lemma_int_range, lemma_len_subset, lemma_subset_equality, set_int_range};

verus! {

/// Whether index `a` comes before index `b` when ranked by `keys`: by the
/// smaller key, and among equal keys by the smaller index.
pub open spec fn ranks_before(keys: Seq<nat>, a: int, b: int) -> bool {
    keys[a] < keys[b] || (keys[a] == keys[b] && a < b)
}

/// Whether `ranking` lists indices of `keys`, each before all that it ranks
/// before.
pub open spec fn is_ranked(keys: Seq<nat>, ranking: Seq<int>) -> bool {
    &&& forall|i: int| 0 <= i < ranking.len() ==> 0 <= #[trigger] ranking[i] < keys.len()
    &&& forall|i: int, j: int|
        0 <= i < j < ranking.len() ==> ranks_before(keys, #[trigger] ranking[i], #[trigger] ranking[j])
}

/// Whether `ranking` is the ranking of all indices of `keys`: every index
/// once, in ascending order of key, equal keys in ascending order of
/// index.
pub open spec fn is_ranking(keys: Seq<nat>, ranking: Seq<int>) -> bool {
    ranking.len() == keys.len() && is_ranked(keys, ranking)
}

/// A ranked list holds no index twice.
pub proof fn lemma_ranked_distinct(keys: Seq<nat>, ranking: Seq<int>)
    requires
        is_ranked(keys, ranking),
    ensures
        ranking.no_duplicates(),
{
    assert forall|i: int, j: int|
        0 <= i < ranking.len() && 0 <= j < ranking.len() && i != j implies ranking[i]
        != ranking[j] by {
        if i < j {
            assert(ranks_before(keys, ranking[i], ranking[j]));
        } else {
            assert(ranks_before(keys, ranking[j], ranking[i]));
        }
    }
}

/// The keys as mathematical integers.
pub open spec fn key_values(keys: Seq<usize>) -> Seq<nat> {
    Seq::new(keys.len(), |i: int| keys[i] as nat)
}

/// The indices as mathematical integers.
pub open spec fn index_values(indices: Seq<usize>) -> Seq<int> {
    Seq::new(indices.len(), |i: int| indices[i] as int)
}

/// Ranks the indices of `keys`: in ascending order of key, and among equal
/// keys in ascending order of index.
pub fn rank_by_key(keys: &Vec<usize>) -> (ranking: Vec<usize>)
    ensures
        is_ranking(key_values(keys@), index_values(ranking@)),
{
    let mut ranking: Vec<usize> = Vec::new();
    let mut next: usize = 0;
    while next < keys.len()
        invariant
            next <= keys.len(),
            ranking@.len() == next,
            is_ranked(key_values(keys@), index_values(ranking@)),
            forall|i: int| 0 <= i < ranking@.len() ==> #[trigger] ranking@[i] < next,
        decreases keys.len() - next,
    {
        let key = keys[next];
        let mut at: usize = ranking.len();
        while at > 0 && keys[ranking[at - 1]] > key
            invariant
                at <= ranking@.len(),
                next < keys.len(),
                key == keys@[next as int],
                forall|i: int| 0 <= i < ranking@.len() ==> #[trigger] ranking@[i] < next,
                forall|i: int| at <= i < ranking@.len() ==> keys@[#[trigger] ranking@[i] as int] > key,
            decreases at,
        {
            at -= 1;
        }
        let ghost before = index_values(ranking@);
        ranking.insert(at, next);
        proof {
            let now = index_values(ranking@);
            let k = key_values(keys@);
            assert(now =~= before.insert(at as int, next as int));
            assert forall|i: int, j: int| 0 <= i < j < now.len() implies ranks_before(
                k,
                #[trigger] now[i],
                #[trigger] now[j],
            ) by {
                if j < at {
                    assert(ranks_before(k, before[i], before[j]));
                } else if j == at {
                    if at > 0 {
                        assert(ranks_before(k, before[i], before[at - 1]) || i == at - 1);
                    }
                } else if i == at {
                    assert(before[j - 1] == ranking@[j] as int);
                } else if i < at {
                    assert(ranks_before(k, before[i], before[j - 1]));
                } else {
                    assert(ranks_before(k, before[i - 1], before[j - 1]));
                }
            }
        }
        next += 1;
    }
    ranking
}

/// The indices that `id` ranks before.
pub open spec fn above(keys: Seq<nat>, id: int) -> Set<int> {
    Set::new(|j: int| 0 <= j < keys.len() && ranks_before(keys, id, j))
}

/// Whether `id` is one of the `top_n` indices that rank last: fewer than
/// `top_n` indices rank after it.
pub open spec fn in_top(keys: Seq<nat>, top_n: nat, id: int) -> bool {
    0 <= id < keys.len() && above(keys, id).len() < top_n
}

/// A ranking holds every index.
pub proof fn lemma_ranking_complete(keys: Seq<nat>, ranking: Seq<int>)
    requires
        is_ranking(keys, ranking),
    ensures
        forall|i: int| 0 <= i < keys.len() ==> ranking.contains(i),
{
    lemma_ranked_distinct(keys, ranking);
    lemma_all_indices(keys.len(), ranking);
}

/// The index at place `a` of a ranking ranks before those at later
/// places, and before no other.
pub proof fn lemma_ranking_above(keys: Seq<nat>, ranking: Seq<int>, a: int)
    requires
        is_ranking(keys, ranking),
        0 <= a < ranking.len(),
    ensures
        above(keys, ranking[a]).finite(),
        above(keys, ranking[a]).len() == ranking.len() - 1 - a,
{
    let later = ranking.skip(a + 1);
    lemma_ranking_complete(keys, ranking);
    lemma_ranked_distinct(keys, ranking);
    assert(later.no_duplicates()) by {
        assert forall|i: int, j: int|
            0 <= i < later.len() && 0 <= j < later.len() && i != j implies later[i] != later[j] by {
            assert(later[i] == ranking[a + 1 + i]);
            assert(later[j] == ranking[a + 1 + j]);
        }
    }
    later.unique_seq_to_set();
    vstd::seq_lib::seq_to_set_is_finite(later);
    assert(above(keys, ranking[a]) =~= later.to_set()) by {
        assert forall|j: int| above(keys, ranking[a]).contains(j) implies later.to_set().contains(
            j,
        ) by {
            assert(ranking.contains(j));
            let b = choose|b: int| 0 <= b < ranking.len() && ranking[b] == j;
            if b < a {
                assert(ranks_before(keys, ranking[b], ranking[a]));
            }
            assert(later[b - a - 1] == j);
        }
        assert forall|j: int| later.to_set().contains(j) implies above(keys, ranking[a]).contains(
            j,
        ) by {
            let k = choose|k: int| 0 <= k < later.len() && later[k] == j;
            assert(later[k] == ranking[a + 1 + k]);
            assert(ranks_before(keys, ranking[a], ranking[a + 1 + k]));
            assert(0 <= ranking[a + 1 + k] < keys.len());
        }
    }
}

/// Marks the `top_n` indices that rank last by `keys`, or all if there are
/// fewer.
pub fn mark_top(keys: &Vec<usize>, top_n: usize) -> (marks: Vec<bool>)
    ensures
        marks@.len() == keys@.len(),
        forall|id: int|
            0 <= id < keys@.len() ==> #[trigger] marks@[id] == in_top(
                key_values(keys@),
                top_n as nat,
                id,
            ),
{
    let ranking = rank_by_key(keys);
    let n = keys.len();
    let mut marks: Vec<bool> = Vec::new();
    let mut i: usize = 0;
    while i < n
        invariant
            i <= n,
            n == keys@.len(),
            marks@.len() == i,
            forall|k: int| 0 <= k < i ==> !#[trigger] marks@[k],
        decreases n - i,
    {
        marks.push(false);
        i += 1;
    }
    let ghost r = index_values(ranking@);
    let ghost k = key_values(keys@);
    let mut a: usize = 0;
    while a < n
        invariant
            a <= n,
            n == keys@.len(),
            n == ranking@.len(),
            marks@.len() == n,
            r == index_values(ranking@),
            k == key_values(keys@),
            is_ranking(k, r),
            forall|b: int| 0 <= b < a ==> #[trigger] marks@[r[b]] == in_top(k, top_n as nat, r[b]),
            forall|b: int| a <= b < n ==> !#[trigger] marks@[r[b]],
        decreases n - a,
    {
        let id = ranking[a];
        proof {
            lemma_ranking_above(k, r, a as int);
            lemma_ranked_distinct(k, r);
            assert(r[a as int] == id);
        }
        if n - 1 - a < top_n {
            marks[id] = true;
        }
        a += 1;
    }
    proof {
        lemma_ranking_complete(k, r);
        assert forall|id: int| 0 <= id < keys@.len() implies #[trigger] marks@[id] == in_top(
            k,
            top_n as nat,
            id,
        ) by {
            assert(r.contains(id));
            let b = choose|b: int| 0 <= b < r.len() && r[b] == id;
            assert(marks@[r[b]] == in_top(k, top_n as nat, r[b]));
        }
    }
    marks
}

/// The indices that an index ranks before are finitely many.
pub proof fn lemma_above_finite(keys: Seq<nat>, id: int)
    ensures
        above(keys, id).finite(),
{
    lemma_int_range(0, keys.len() as int);
    assert(above(keys, id).subset_of(set_int_range(0, keys.len() as int)));
    vstd::set_lib::lemma_set_subset_finite(set_int_range(0, keys.len() as int), above(keys, id));
}

/// The top is the top: every index in it ranks after every index that is
/// not in it.
pub proof fn law_top_ranks_last(keys: Seq<nat>, top_n: nat, inside: int, outside: int)
    requires
        in_top(keys, top_n, inside),
        0 <= outside < keys.len(),
        !in_top(keys, top_n, outside),
    ensures
        ranks_before(keys, outside, inside),
{
    lemma_above_finite(keys, inside);
    lemma_above_finite(keys, outside);
    if !ranks_before(keys, outside, inside) {
        assert(ranks_before(keys, inside, outside));
        assert(above(keys, outside).subset_of(above(keys, inside)));
        lemma_len_subset(above(keys, outside), above(keys, inside));
    }
}

/// The first place of `ranking` from `from` on that holds an index with a
/// key greater than `key`; the length of `ranking` if there is none.
pub open spec fn first_greater(keys: Seq<nat>, ranking: Seq<int>, key: nat, from: int) -> int
    decreases ranking.len() - from,
{
    if from < 0 || from >= ranking.len() {
        ranking.len() as int
    } else if keys[ranking[from]] > key {
        from
    } else {
        first_greater(keys, ranking, key, from + 1)
    }
}

/// `first_greater` lies in the ranking, after the indices with keys that
/// are not greater.
proof fn lemma_first_greater(keys: Seq<nat>, ranking: Seq<int>, key: nat, from: int)
    requires
        0 <= from <= ranking.len(),
    ensures
        from <= first_greater(keys, ranking, key, from) <= ranking.len(),
        forall|i: int|
            from <= i < first_greater(keys, ranking, key, from) ==> keys[#[trigger] ranking[i]]
                <= key,
        first_greater(keys, ranking, key, from) < ranking.len() ==> keys[ranking[first_greater(
            keys,
            ranking,
            key,
            from,
        )]] > key,
    decreases ranking.len() - from,
{
    if from < ranking.len() && keys[ranking[from]] <= key {
        lemma_first_greater(keys, ranking, key, from + 1);
    }
}

/// Every sequence of keys has a ranking.
pub proof fn lemma_ranking_exists(keys: Seq<nat>) -> (ranking: Seq<int>)
    ensures
        is_ranking(keys, ranking),
    decreases keys.len(),
{
    if keys.len() == 0 {
        Seq::empty()
    } else {
        let fewer = keys.drop_last();
        let last = keys.len() - 1;
        let before = lemma_ranking_exists(fewer);
        let at = first_greater(fewer, before, keys[last], 0);
        lemma_first_greater(fewer, before, keys[last], 0);
        let ranking = before.insert(at, last);
        assert forall|i: int| 0 <= i < ranking.len() implies 0 <= #[trigger] ranking[i]
            < keys.len() by {
            if i < at {
                assert(ranking[i] == before[i]);
            } else if i > at {
                assert(ranking[i] == before[i - 1]);
            }
        }
        assert forall|i: int, j: int| 0 <= i < j < ranking.len() implies ranks_before(
            keys,
            #[trigger] ranking[i],
            #[trigger] ranking[j],
        ) by {
            let a = if i < at {
                before[i]
            } else {
                before[i - 1]
            };
            let b = if j < at {
                before[j]
            } else {
                before[j - 1]
            };
            if j < at {
                assert(ranks_before(fewer, before[i], before[j]));
                assert(fewer[before[i]] == keys[before[i]]);
                assert(fewer[before[j]] == keys[before[j]]);
            } else if j == at {
                assert(fewer[before[i]] == keys[before[i]]);
            } else if i == at {
                if at < j - 1 {
                    assert(ranks_before(fewer, before[at], before[j - 1]));
                }
                assert(fewer[before[at]] == keys[before[at]]);
                assert(fewer[before[j - 1]] == keys[before[j - 1]]);
            } else {
                assert(ranks_before(fewer, a, b));
                assert(fewer[a] == keys[a]);
                assert(fewer[b] == keys[b]);
            }
        }
        ranking
    }
}

/// The indices that are in the top.
pub open spec fn top(keys: Seq<nat>, top_n: nat) -> Set<int> {
    Set::new(|id: int| in_top(keys, top_n, id))
}

/// The top holds `top_n` indices, or all if there are fewer.
pub proof fn law_top_count(keys: Seq<nat>, top_n: nat)
    ensures
        top(keys, top_n).finite(),
        top(keys, top_n).len() == if top_n < keys.len() {
            top_n
        } else {
            keys.len()
        },
{
    let ranking = lemma_ranking_exists(keys);
    let n = keys.len() as int;
    let shown = if top_n < n {
        top_n as int
    } else {
        n
    };
    let last = ranking.skip(n - shown);
    lemma_ranked_distinct(keys, ranking);
    lemma_ranking_complete(keys, ranking);
    assert(last.no_duplicates()) by {
        assert forall|i: int, j: int|
            0 <= i < last.len() && 0 <= j < last.len() && i != j implies last[i] != last[j] by {
            assert(last[i] == ranking[n - shown + i]);
            assert(last[j] == ranking[n - shown + j]);
        }
    }
    last.unique_seq_to_set();
    vstd::seq_lib::seq_to_set_is_finite(last);
    assert(top(keys, top_n) =~= last.to_set()) by {
        assert forall|id: int| top(keys, top_n).contains(id) implies last.to_set().contains(
            id,
        ) by {
            assert(ranking.contains(id));
            let a = choose|a: int| 0 <= a < ranking.len() && ranking[a] == id;
            lemma_ranking_above(keys, ranking, a);
            assert(last[a - (n - shown)] == id);
        }
        assert forall|id: int| last.to_set().contains(id) implies top(keys, top_n).contains(
            id,
        ) by {
            let k = choose|k: int| 0 <= k < last.len() && last[k] == id;
            assert(last[k] == ranking[n - shown + k]);
            lemma_ranking_above(keys, ranking, n - shown + k);
        }
    }
}

/// There is one ranking only.
pub proof fn law_ranking_unique(keys: Seq<nat>, one: Seq<int>, other: Seq<int>)
    requires
        is_ranking(keys, one),
        is_ranking(keys, other),
    ensures
        one == other,
{
    lemma_ranking_complete(keys, other);
    assert forall|i: int| 0 <= i < one.len() implies one[i] == other[i] by {
        assert(other.contains(one[i]));
        let j = choose|j: int| 0 <= j < other.len() && other[j] == one[i];
        lemma_ranking_above(keys, one, i);
        lemma_ranking_above(keys, other, j);
    }
    assert(one =~= other);
}

/// Whether index `a` comes before index `b` when ranked by `keys` and
/// `names`: by the smaller key, and among equal keys by the name that comes
/// first in the order of texts.
pub open spec fn ranks_before_named(
    keys: Seq<nat>,
    names: Seq<Seq<char>>,
    a: int,
    b: int,
) -> bool {
    keys[a] < keys[b] || (keys[a] == keys[b] && text_before(names[a], names[b]))
}

/// Whether `ranking` lists indices of `keys`, each before all that it ranks
/// before by key and name.
pub open spec fn is_ranked_named(keys: Seq<nat>, names: Seq<Seq<char>>, ranking: Seq<int>) -> bool {
    &&& forall|i: int| 0 <= i < ranking.len() ==> 0 <= #[trigger] ranking[i] < keys.len()
    &&& forall|i: int, j: int|
        0 <= i < j < ranking.len() ==> ranks_before_named(
            keys,
            names,
            #[trigger] ranking[i],
            #[trigger] ranking[j],
        )
}

/// Whether `ranking` is the ranking of all indices of `keys` by key and
/// name: every index once, in ascending order of key, equal keys in the
/// order of their names.
pub open spec fn is_ranking_named(keys: Seq<nat>, names: Seq<Seq<char>>, ranking: Seq<int>) -> bool {
    ranking.len() == keys.len() && is_ranked_named(keys, names, ranking)
}

/// A list ranked by key and name holds no index twice.
pub proof fn lemma_ranked_named_distinct(keys: Seq<nat>, names: Seq<Seq<char>>, ranking: Seq<int>)
    requires
        is_ranked_named(keys, names, ranking),
    ensures
        ranking.no_duplicates(),
{
    assert forall|i: int, j: int|
        0 <= i < ranking.len() && 0 <= j < ranking.len() && i != j implies ranking[i]
        != ranking[j] by {
        lemma_text_before_asymmetric(names[ranking[i]], names[ranking[i]], 0);
        if i < j {
            assert(ranks_before_named(keys, names, ranking[i], ranking[j]));
        } else {
            assert(ranks_before_named(keys, names, ranking[j], ranking[i]));
        }
    }
}

/// A list of `n` indices below `n`, none twice, holds every index below
/// `n`.
pub proof fn lemma_all_indices(n: nat, ranking: Seq<int>)
    requires
        ranking.len() == n,
        ranking.no_duplicates(),
        forall|i: int| 0 <= i < ranking.len() ==> 0 <= #[trigger] ranking[i] < n,
    ensures
        forall|i: int| 0 <= i < n ==> ranking.contains(i),
{
    ranking.unique_seq_to_set();
    lemma_int_range(0, n as int);
    let all = set_int_range(0, n as int);
    assert(ranking.to_set().subset_of(all)) by {
        assert forall|x: int| ranking.to_set().contains(x) implies all.contains(x) by {
            let k = choose|k: int| 0 <= k < ranking.len() && ranking[k] == x;
            assert(0 <= ranking[k] < n);
        }
    }
    vstd::seq_lib::seq_to_set_is_finite(ranking);
    lemma_subset_equality(ranking.to_set(), all);
    assert forall|i: int| 0 <= i < n implies ranking.contains(i) by {
        assert(all.contains(i));
        assert(ranking.to_set().contains(i));
    }
}

/// Two rankings by key and name agree at the first `upto` places.
proof fn lemma_rankings_named_agree(
    keys: Seq<nat>,
    names: Seq<Seq<char>>,
    one: Seq<int>,
    other: Seq<int>,
    upto: int,
)
    requires
        is_ranking_named(keys, names, one),
        is_ranking_named(keys, names, other),
        0 <= upto <= keys.len(),
    ensures
        forall|i: int| 0 <= i < upto ==> one[i] == other[i],
    decreases upto,
{
    if upto > 0 {
        let i = upto - 1;
        lemma_rankings_named_agree(keys, names, one, other, i);
        lemma_ranked_named_distinct(keys, names, one);
        lemma_ranked_named_distinct(keys, names, other);
        lemma_all_indices(keys.len(), one);
        lemma_all_indices(keys.len(), other);
        let x = one[i];
        let y = other[i];
        if x != y {
            assert(one.contains(y));
            let p = choose|p: int| 0 <= p < one.len() && one[p] == y;
            assert(other.contains(x));
            let q = choose|q: int| 0 <= q < other.len() && other[q] == x;
            if p < i {
                assert(other[p] == one[p]);
            }
            if q < i {
                assert(one[q] == other[q]);
            }
            assert(ranks_before_named(keys, names, one[i], one[p]));
            assert(ranks_before_named(keys, names, other[i], other[q]));
            lemma_text_before_asymmetric(names[x], names[y], 0);
        }
    }
}

/// There is one ranking by key and name only.
pub proof fn law_ranking_named_unique(
    keys: Seq<nat>,
    names: Seq<Seq<char>>,
    one: Seq<int>,
    other: Seq<int>,
)
    requires
        is_ranking_named(keys, names, one),
        is_ranking_named(keys, names, other),
    ensures
        one == other,
{
    lemma_rankings_named_agree(keys, names, one, other, keys.len() as int);
    assert(one =~= other);
}

/// The names as mathematical values.
pub open spec fn name_values(names: Seq<Vec<char>>) -> Seq<Seq<char>> {
    Seq::new(names.len(), |i: int| names[i]@)
}

/// Whether index `a` comes before index `b` when ranked by `keys` and
/// `names`.
fn named_before(keys: &Vec<usize>, names: &Vec<Vec<char>>, a: usize, b: usize) -> (before: bool)
    requires
        keys@.len() == names@.len(),
        a < keys@.len(),
        b < keys@.len(),
    ensures
        before == ranks_before_named(key_values(keys@), name_values(names@), a as int, b as int),
{
    keys[a] < keys[b] || (keys[a] == keys[b] && text_less(&names[a], &names[b]))
}

/// Ranks the indices of `keys`: in ascending order of key, and among equal
/// keys in the order of their names, which are distinct.
pub fn rank_by_key_and_name(keys: &Vec<usize>, names: &Vec<Vec<char>>) -> (ranking: Vec<usize>)
    requires
        keys@.len() == names@.len(),
        name_values(names@).no_duplicates(),
    ensures
        is_ranking_named(key_values(keys@), name_values(names@), index_values(ranking@)),
{
    let ghost k = key_values(keys@);
    let ghost n = name_values(names@);
    let mut ranking: Vec<usize> = Vec::new();
    let mut next: usize = 0;
    while next < keys.len()
        invariant
            next <= keys.len(),
            keys@.len() == names@.len(),
            k == key_values(keys@),
            n == name_values(names@),
            n.no_duplicates(),
            ranking@.len() == next,
            is_ranked_named(k, n, index_values(ranking@)),
            forall|i: int| 0 <= i < ranking@.len() ==> #[trigger] ranking@[i] < next,
        decreases keys.len() - next,
    {
        let mut at: usize = ranking.len();
        while at > 0 && named_before(keys, names, next, ranking[at - 1])
            invariant
                at <= ranking@.len(),
                next < keys.len(),
                keys@.len() == names@.len(),
                k == key_values(keys@),
                n == name_values(names@),
                forall|i: int| 0 <= i < ranking@.len() ==> #[trigger] ranking@[i] < next,
                forall|i: int|
                    at <= i < ranking@.len() ==> ranks_before_named(
                        k,
                        n,
                        next as int,
                        #[trigger] ranking@[i] as int,
                    ),
            decreases at,
        {
            at -= 1;
        }
        let ghost before = index_values(ranking@);
        proof {
            if at > 0 {
                let last = before[at - 1];
                assert(last == ranking@[at - 1]);
                assert(n[last] != n[next as int]);
                lemma_text_before_total(n[last], n[next as int], 0);
                assert(ranks_before_named(k, n, last, next as int));
            }
        }
        ranking.insert(at, next);
        proof {
            let now = index_values(ranking@);
            assert(now =~= before.insert(at as int, next as int));
            assert forall|i: int, j: int| 0 <= i < j < now.len() implies ranks_before_named(
                k,
                n,
                #[trigger] now[i],
                #[trigger] now[j],
            ) by {
                if j < at {
                    assert(ranks_before_named(k, n, before[i], before[j]));
                } else if j == at {
                    if i < at - 1 {
                        assert(ranks_before_named(k, n, before[i], before[at - 1]));
                        if k[before[i]] == k[before[at - 1]] && k[before[at - 1]] == k[next as int] {
                            lemma_text_before_transitive(
                                n[before[i]],
                                n[before[at - 1]],
                                n[next as int],
                                0,
                            );
                        }
                    }
                } else if i == at {
                    assert(before[j - 1] == ranking@[j] as int);
                } else if i < at {
                    assert(ranks_before_named(k, n, before[i], before[j - 1]));
                } else {
                    assert(ranks_before_named(k, n, before[i - 1], before[j - 1]));
                }
            }
        }
        next += 1;
    }
    ranking
}

} // verus!
