//! The join of a fan-out stage: every task of the stage has settled, and the
//! stage either fails with the first task error or merges every result.
//!
//! Both stages fail fast and all-or-nothing: a single failed task makes the
//! whole stage fail with the error of the earliest failed task in stage
//! order, and the results of the other tasks are dropped.

use vstd::prelude::*;
use crate::error::StageError;
use crate::map::{keys_distinct, lemma_map_after_insert, lemma_pairs_to_map_contains, lemma_maps_equal_by_pairs, pairs_to_map, pairs_view, ExtensionMap};

verus! {

/// What each task found, by key, where it found something.
pub open spec fn found_pairs(tasks: Seq<(Seq<char>, Option<Seq<char>>)>) -> Seq<(Seq<char>, Seq<char>)>
    decreases tasks.len(),
{
    if tasks.len() == 0 {
        Seq::empty()
    } else {
        let earlier = found_pairs(tasks.drop_last());
        match tasks.last().1 {
            Some(v) => earlier.push((tasks.last().0, v)),
            None => earlier,
        }
    }
}

/// The merged result of a stage whose tasks all succeeded.
pub open spec fn merged(tasks: Seq<(Seq<char>, Option<Seq<char>>)>) -> Map<Seq<char>, Seq<char>> {
    pairs_to_map(found_pairs(tasks))
}

/// Whether a task failed.
pub open spec fn failed<T>(outcomes: Seq<Result<T, StageError>>, i: int) -> bool {
    outcomes[i] is Err
}

/// Some task failed.
pub open spec fn any_failed<T>(outcomes: Seq<Result<T, StageError>>) -> bool {
    exists|i: int| 0 <= i < outcomes.len() && failed(outcomes, i)
}

/// `e` is the error of the earliest failed task.
pub open spec fn is_first_error<T>(outcomes: Seq<Result<T, StageError>>, e: StageError) -> bool {
    exists|i: int|
        0 <= i < outcomes.len() && outcomes[i] == Err::<T, StageError>(e) && forall|j: int|
            0 <= j < i ==> !failed(outcomes, j)
}

/// The settled resolution tasks: each key with the link found for it.
pub open spec fn settled_links(keys: Seq<Seq<char>>, outcomes: Seq<Result<Option<String>, StageError>>) -> Seq<(Seq<char>, Option<Seq<char>>)> {
    Seq::new(
        keys.len(),
        |i: int|
            (keys[i], match outcomes[i] {
                Ok(Some(s)) => Some(s@),
                _ => None,
            }),
    )
}

/// The settled download tasks: each key with the file written for it.
pub open spec fn settled_files(keys: Seq<Seq<char>>, outcomes: Seq<Result<String, StageError>>) -> Seq<(Seq<char>, Option<Seq<char>>)> {
    Seq::new(
        keys.len(),
        |i: int|
            (keys[i], match outcomes[i] {
                Ok(s) => Some(s@),
                _ => None,
            }),
    )
}

/// The keys of a map's entries, in order.
pub open spec fn keys_of(m: &ExtensionMap) -> Seq<Seq<char>> {
    m.pairs().map_values(|p: (Seq<char>, Seq<char>)| p.0)
}

proof fn lemma_found_pairs_contains(tasks: Seq<(Seq<char>, Option<Seq<char>>)>, k: Seq<char>, v: Seq<char>)
    ensures
        found_pairs(tasks).contains((k, v)) <==> tasks.contains((k, Some(v))),
    decreases tasks.len(),
{
    if tasks.len() > 0 {
        let init = tasks.drop_last();
        lemma_found_pairs_contains(init, k, v);
        assert(tasks =~= init.push(tasks.last()));
        if tasks.contains((k, Some(v))) {
            let i = choose|i: int| 0 <= i < tasks.len() && tasks[i] == (k, Some(v));
            if i < init.len() {
                assert(init[i] == tasks[i]);
            }
        }
        if init.contains((k, Some(v))) {
            let i = choose|i: int| 0 <= i < init.len() && init[i] == (k, Some(v));
            assert(tasks[i] == init[i]);
        }
        let earlier = found_pairs(init);
        if let Some(w) = tasks.last().1 {
            let f = earlier.push((tasks.last().0, w));
            if f.contains((k, v)) {
                let i = choose|i: int| 0 <= i < f.len() && f[i] == (k, v);
                if i < earlier.len() {
                    assert(earlier[i] == f[i]);
                }
            }
            if earlier.contains((k, v)) {
                let i = choose|i: int| 0 <= i < earlier.len() && earlier[i] == (k, v);
                assert(f[i] == earlier[i]);
            }
            assert(f[earlier.len() as int] == (tasks.last().0, w));
        }
    }
}

proof fn lemma_found_pairs_distinct(tasks: Seq<(Seq<char>, Option<Seq<char>>)>)
    requires
        keys_distinct(tasks),
    ensures
        keys_distinct(found_pairs(tasks)),
    decreases tasks.len(),
{
    if tasks.len() > 0 {
        let init = tasks.drop_last();
        assert(keys_distinct(init)) by {
            assert forall|i: int, j: int| 0 <= i < init.len() && 0 <= j < init.len() && i != j implies init[i].0 != init[j].0 by {
                assert(init[i] == tasks[i] && init[j] == tasks[j]);
            }
        }
        lemma_found_pairs_distinct(init);
        let earlier = found_pairs(init);
        if let Some(w) = tasks.last().1 {
            let f = earlier.push((tasks.last().0, w));
            assert forall|i: int| 0 <= i < earlier.len() implies #[trigger] earlier[i].0 != tasks.last().0 by {
                assert(earlier.contains(earlier[i]));
                lemma_found_pairs_contains(init, earlier[i].0, earlier[i].1);
                let j = choose|j: int| 0 <= j < init.len() && init[j] == (earlier[i].0, Some(earlier[i].1));
                assert(tasks[j] == init[j]);
                assert(tasks[tasks.len() - 1] == tasks.last());
            }
            assert forall|i: int, j: int| 0 <= i < f.len() && 0 <= j < f.len() && i != j implies f[i].0 != f[j].0 by {
                if i < earlier.len() && j < earlier.len() {
                    assert(f[i] == earlier[i] && f[j] == earlier[j]);
                } else if i < earlier.len() {
                    assert(f[i] == earlier[i]);
                } else {
                    assert(f[j] == earlier[j]);
                }
            }
        }
    }
}

proof fn lemma_merge_same_tasks(a: Seq<(Seq<char>, Option<Seq<char>>)>, b: Seq<(Seq<char>, Option<Seq<char>>)>)
    requires
        keys_distinct(a),
        keys_distinct(b),
        forall|x: (Seq<char>, Option<Seq<char>>)| a.contains(x) <==> b.contains(x),
    ensures
        merged(a) == merged(b),
{
    lemma_found_pairs_distinct(a);
    lemma_found_pairs_distinct(b);
    assert forall|k: Seq<char>, v: Seq<char>| merged(a).contains_pair(k, v) <==> merged(b).contains_pair(k, v) by {
        lemma_pairs_to_map_contains(found_pairs(a), k, v);
        lemma_pairs_to_map_contains(found_pairs(b), k, v);
        lemma_found_pairs_contains(a, k, v);
        lemma_found_pairs_contains(b, k, v);
        assert(a.contains((k, Some(v))) <==> b.contains((k, Some(v))));
    }
    lemma_maps_equal_by_pairs(merged(a), merged(b));
}

/// Order does not matter: two orderings of the same settled tasks, each with
/// one task per key, merge to the same map.
pub proof fn lemma_merge_order_independent(a: Seq<(Seq<char>, Option<Seq<char>>)>, b: Seq<(Seq<char>, Option<Seq<char>>)>)
    requires
        keys_distinct(a),
        keys_distinct(b),
        a.to_multiset() == b.to_multiset(),
    ensures
        merged(a) == merged(b),
{
    broadcast use vstd::seq_lib::group_to_multiset_ensures;
    assert forall|x: (Seq<char>, Option<Seq<char>>)| a.contains(x) <==> b.contains(x) by {
        assert(a.contains(x) <==> a.to_multiset().count(x) > 0);
        assert(b.contains(x) <==> b.to_multiset().count(x) > 0);
    }
    lemma_merge_same_tasks(a, b);
}

/// `perm` is a reordering of the positions `0..n`.
pub open spec fn is_permutation(perm: Seq<int>, n: int) -> bool {
    &&& perm.len() == n
    &&& forall|i: int| 0 <= i < n ==> 0 <= #[trigger] perm[i] < n
    &&& forall|i: int, j: int| 0 <= i < n && 0 <= j < n && i != j ==> perm[i] != perm[j]
    &&& forall|j: int| 0 <= j < n ==> #[trigger] perm.contains(j)
}

proof fn lemma_merge_permuted(a: Seq<(Seq<char>, Option<Seq<char>>)>, b: Seq<(Seq<char>, Option<Seq<char>>)>, perm: Seq<int>)
    requires
        keys_distinct(a),
        is_permutation(perm, a.len() as int),
        b.len() == a.len(),
        forall|i: int| 0 <= i < b.len() ==> #[trigger] b[i] == a[perm[i]],
    ensures
        merged(a) == merged(b),
{
    assert(keys_distinct(b)) by {
        assert forall|i: int, j: int| 0 <= i < b.len() && 0 <= j < b.len() && i != j implies b[i].0 != b[j].0 by {
            assert(b[i] == a[perm[i]] && b[j] == a[perm[j]]);
            assert(0 <= perm[i] < a.len() && 0 <= perm[j] < a.len());
        }
    }
    assert forall|x: (Seq<char>, Option<Seq<char>>)| a.contains(x) <==> b.contains(x) by {
        if a.contains(x) {
            let j = choose|j: int| 0 <= j < a.len() && a[j] == x;
            assert(perm.contains(j));
            let i = choose|i: int| 0 <= i < perm.len() && perm[i] == j;
            assert(b[i] == x);
        }
        if b.contains(x) {
            let i = choose|i: int| 0 <= i < b.len() && b[i] == x;
            assert(0 <= perm[i] < a.len());
            assert(a[perm[i]] == x);
        }
    }
    lemma_merge_same_tasks(a, b);
}

/// Order does not matter for the resolution stage: resolving the same
/// extensions in another order, each task giving the same outcome as
/// before, merges to the same map of download links.
pub proof fn lemma_resolution_order_independent(
    keys1: Seq<Seq<char>>,
    outcomes1: Seq<Result<Option<String>, StageError>>,
    keys2: Seq<Seq<char>>,
    outcomes2: Seq<Result<Option<String>, StageError>>,
    perm: Seq<int>,
)
    requires
        keys1.no_duplicates(),
        outcomes1.len() == keys1.len(),
        is_permutation(perm, keys1.len() as int),
        keys2.len() == keys1.len(),
        outcomes2.len() == keys1.len(),
        forall|i: int| 0 <= i < keys2.len() ==> #[trigger] keys2[i] == keys1[perm[i]] && outcomes2[i] == outcomes1[perm[i]],
    ensures
        merged(settled_links(keys1, outcomes1)) == merged(settled_links(keys2, outcomes2)),
{
    let a = settled_links(keys1, outcomes1);
    let b = settled_links(keys2, outcomes2);
    assert forall|i: int| 0 <= i < b.len() implies #[trigger] b[i] == a[perm[i]] by {
        assert(keys2[i] == keys1[perm[i]]);
    }
    lemma_merge_permuted(a, b, perm);
}

/// Order does not matter for the download stage: downloading the same
/// targets in another order, each task giving the same outcome as before,
/// merges to the same map of written files.
pub proof fn lemma_download_order_independent(
    keys1: Seq<Seq<char>>,
    outcomes1: Seq<Result<String, StageError>>,
    keys2: Seq<Seq<char>>,
    outcomes2: Seq<Result<String, StageError>>,
    perm: Seq<int>,
)
    requires
        keys1.no_duplicates(),
        outcomes1.len() == keys1.len(),
        is_permutation(perm, keys1.len() as int),
        keys2.len() == keys1.len(),
        outcomes2.len() == keys1.len(),
        forall|i: int| 0 <= i < keys2.len() ==> #[trigger] keys2[i] == keys1[perm[i]] && outcomes2[i] == outcomes1[perm[i]],
    ensures
        merged(settled_files(keys1, outcomes1)) == merged(settled_files(keys2, outcomes2)),
{
    let a = settled_files(keys1, outcomes1);
    let b = settled_files(keys2, outcomes2);
    assert forall|i: int| 0 <= i < b.len() implies #[trigger] b[i] == a[perm[i]] by {
        assert(keys2[i] == keys1[perm[i]]);
    }
    lemma_merge_permuted(a, b, perm);
}

/// The position of the earliest failed task, if any failed.
pub fn first_failure<T>(outcomes: &Vec<Result<T, StageError>>) -> (r: Option<usize>)
    ensures
        match r {
            Some(i) => i < outcomes@.len() && failed(outcomes@, i as int) && forall|j: int| 0 <= j < i ==> !failed(outcomes@, j),
            None => !any_failed(outcomes@),
        },
{
    let mut i: usize = 0;
    while i < outcomes.len()
        invariant
            i <= outcomes@.len(),
            forall|j: int| 0 <= j < i ==> !failed(outcomes@, j),
        decreases outcomes@.len() - i,
    {
        if outcomes[i].is_err() {
            return Some(i);
        }
        i = i + 1;
    }
    None
}

proof fn lemma_merged_push(tasks: Seq<(Seq<char>, Option<Seq<char>>)>, x: (Seq<char>, Option<Seq<char>>))
    requires
        keys_distinct(tasks.push(x)),
    ensures
        merged(tasks.push(x)) == match x.1 {
            Some(v) => merged(tasks).insert(x.0, v),
            None => merged(tasks),
        },
{
    let all = tasks.push(x);
    assert(all.drop_last() =~= tasks);
    if let Some(v) = x.1 {
        let before = found_pairs(tasks);
        let after = found_pairs(all);
        assert(after == before.push((x.0, v)));
        lemma_found_pairs_distinct(all);
        assert(keys_distinct(before)) by {
            assert forall|i: int, j: int| 0 <= i < before.len() && 0 <= j < before.len() && i != j implies before[i].0 != before[j].0 by {
                assert(after[i] == before[i] && after[j] == before[j]);
            }
        }
        assert forall|y: (Seq<char>, Seq<char>)| #[trigger] after.contains(y) <==> (y == (x.0, v) || (before.contains(y) && y.0 != x.0)) by {
            if after.contains(y) {
                let i = choose|i: int| 0 <= i < after.len() && after[i] == y;
                if i < before.len() {
                    assert(before[i] == y);
                    assert(after[before.len() as int] == (x.0, v));
                }
            }
            if before.contains(y) {
                let i = choose|i: int| 0 <= i < before.len() && before[i] == y;
                assert(after[i] == y);
                assert(after[before.len() as int] == (x.0, v));
            }
            assert(after[before.len() as int] == (x.0, v));
        }
        lemma_map_after_insert(before, after, x.0, v);
    }
}

proof fn lemma_prefix_distinct<V>(s: Seq<(Seq<char>, V)>, n: int)
    requires
        keys_distinct(s),
        0 <= n <= s.len(),
    ensures
        keys_distinct(s.subrange(0, n)),
{
    let p = s.subrange(0, n);
    assert forall|i: int, j: int| 0 <= i < p.len() && 0 <= j < p.len() && i != j implies p[i].0 != p[j].0 by {
        assert(p[i] == s[i] && p[j] == s[j]);
    }
}

/// Joins the resolution stage: `outcomes[i]` is what the task for the `i`-th
/// verified extension gave (a link, no link on its page, or an error). The
/// stage fails with the first error if any task failed; otherwise each
/// extension for which a link was found is mapped to it.
pub fn join_resolutions(verified: &ExtensionMap, outcomes: Vec<Result<Option<String>, StageError>>) -> (r: Result<ExtensionMap, StageError>)
    requires
        verified.wf(),
        verified@ != Map::<Seq<char>, Seq<char>>::empty(),
        outcomes@.len() == verified.pairs().len(),
    ensures
        r is Err <==> any_failed(outcomes@),
        r matches Err(e) ==> is_first_error(outcomes@, e),
        r matches Ok(t) ==> t.wf() && t@ == merged(settled_links(keys_of(verified), outcomes@)),
{
    let mut outcomes = outcomes;
    if let Some(i) = first_failure(&outcomes) {
        let failure = outcomes.remove(i);
        return match failure {
            Err(e) => Err(e),
            Ok(_) => vstd::pervasive::unreached(),
        };
    }
    let ghost tasks = settled_links(keys_of(verified), outcomes@);
    assert(keys_distinct(tasks)) by {
        assert forall|i: int, j: int| 0 <= i < tasks.len() && 0 <= j < tasks.len() && i != j implies tasks[i].0 != tasks[j].0 by {}
    }
    let entries = verified.entries();
    let mut targets = ExtensionMap::new();
    let mut i: usize = 0;
    while i < outcomes.len()
        invariant
            i <= outcomes@.len(),
            outcomes@.len() == verified.pairs().len(),
            pairs_view(entries@) == verified.pairs(),
            tasks == settled_links(keys_of(verified), outcomes@),
            keys_distinct(tasks),
            targets.wf(),
            targets@ == merged(tasks.subrange(0, i as int)),
        decreases outcomes@.len() - i,
    {
        assert(tasks.subrange(0, i + 1) =~= tasks.subrange(0, i as int).push(tasks[i as int]));
        proof {
            lemma_prefix_distinct(tasks, i + 1);
            lemma_merged_push(tasks.subrange(0, i as int), tasks[i as int]);
        }
        if let Ok(Some(link)) = &outcomes[i] {
            assert(entries@[i as int].0@ == tasks[i as int].0);
            targets.insert(entries[i].0.clone(), link.clone());
        }
        i = i + 1;
    }
    assert(tasks.subrange(0, outcomes@.len() as int) =~= tasks);
    Ok(targets)
}

/// Joins the download stage: `outcomes[i]` is what the task for the `i`-th
/// target gave (the name of the file written, or an error). The stage fails
/// with the first error if any task failed; otherwise each extension is
/// mapped to the name of its file.
pub fn join_downloads(targets: &ExtensionMap, outcomes: Vec<Result<String, StageError>>) -> (r: Result<ExtensionMap, StageError>)
    requires
        targets.wf(),
        outcomes@.len() == targets.pairs().len(),
    ensures
        r is Err <==> any_failed(outcomes@),
        r matches Err(e) ==> is_first_error(outcomes@, e),
        r matches Ok(t) ==> t.wf() && t@ == merged(settled_files(keys_of(targets), outcomes@)),
{
    let mut outcomes = outcomes;
    if let Some(i) = first_failure(&outcomes) {
        let failure = outcomes.remove(i);
        return match failure {
            Err(e) => Err(e),
            Ok(_) => vstd::pervasive::unreached(),
        };
    }
    let ghost tasks = settled_files(keys_of(targets), outcomes@);
    assert(keys_distinct(tasks)) by {
        assert forall|i: int, j: int| 0 <= i < tasks.len() && 0 <= j < tasks.len() && i != j implies tasks[i].0 != tasks[j].0 by {}
    }
    let entries = targets.entries();
    let mut files = ExtensionMap::new();
    let mut i: usize = 0;
    while i < outcomes.len()
        invariant
            i <= outcomes@.len(),
            outcomes@.len() == targets.pairs().len(),
            pairs_view(entries@) == targets.pairs(),
            tasks == settled_files(keys_of(targets), outcomes@),
            keys_distinct(tasks),
            files.wf(),
            files@ == merged(tasks.subrange(0, i as int)),
        decreases outcomes@.len() - i,
    {
        assert(tasks.subrange(0, i + 1) =~= tasks.subrange(0, i as int).push(tasks[i as int]));
        proof {
            lemma_prefix_distinct(tasks, i + 1);
            lemma_merged_push(tasks.subrange(0, i as int), tasks[i as int]);
        }
        if let Ok(name) = &outcomes[i] {
            assert(entries@[i as int].0@ == tasks[i as int].0);
            files.insert(entries[i].0.clone(), name.clone());
        }
        i = i + 1;
    }
    assert(tasks.subrange(0, outcomes@.len() as int) =~= tasks);
    Ok(files)
}

} // verus!
