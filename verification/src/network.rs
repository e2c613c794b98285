use vstd::prelude::*;

use crate::coordinator::{
    distinct_finished, find_finished, CoordinatorConfig, CreateTaskError, FinishedEntry, TaskResult,
};
use crate::enr::Enr;

verus! {

/// Settings of a batch fetch: the coordinator's limits and how many tasks
/// run at once.
#[derive(Clone, Copy)]
pub struct NetworkConfig {
    pub coordinator_config: CoordinatorConfig,
    pub concurrent_tasks: usize,
}

/// What a fetch worker does when no task could be created.
#[derive(Clone, Copy, Debug, PartialEq, Eq, Structural)]
pub enum WorkerStep {
    /// Wait a moment and ask for a task again.
    Wait,
    /// Stop: nothing more can be fetched.
    Stop,
}

/// A worker waits while all useful peers are busy, and stops when there is
/// no content left or no useful peer.
pub fn worker_step(error: CreateTaskError) -> (r: WorkerStep)
    ensures
        r == (if error == CreateTaskError::Busy {
            WorkerStep::Wait
        } else {
            WorkerStep::Stop
        }),
{
    match error {
        CreateTaskError::Busy => WorkerStep::Wait,
        CreateTaskError::NoContent | CreateTaskError::NoPeers => WorkerStep::Stop,
    }
}

/// The answer of a peer to a content request: the content, other peers
/// that may have it, or an error.
pub enum FetchOutcome<V> {
    Content(V),
    Peers(Vec<Enr>),
    Error,
}

/// What a finished content request leads to: the task's result, the
/// outcome to record for the peer's requests where there is one (success
/// or failure), and the peers it pointed to.
pub struct FetchEffects<V> {
    pub result: TaskResult<V>,
    pub rpc_success: Option<bool>,
    pub discovered: Vec<Enr>,
}

/// Content is a success (and a successful request); other peers mean the
/// content is unavailable there (and are passed on as discovered); an
/// error is a failure (and a failed request).
pub fn fetch_effects<V>(outcome: FetchOutcome<V>) -> (r: FetchEffects<V>)
    ensures
        match outcome {
            FetchOutcome::Content(v) => r.result matches TaskResult::Success(b) && *b == v
                && r.rpc_success == Some(true) && r.discovered@.len() == 0,
            FetchOutcome::Peers(p) => r.result is ContentUnavailable && r.rpc_success is None
                && r.discovered@ == p@,
            FetchOutcome::Error => r.result is Failure && r.rpc_success == Some(false)
                && r.discovered@.len() == 0,
        },
{
    match outcome {
        FetchOutcome::Content(v) => FetchEffects {
            result: TaskResult::Success(Box::new(v)),
            rpc_success: Some(true),
            discovered: Vec::new(),
        },
        FetchOutcome::Peers(p) => FetchEffects {
            result: TaskResult::ContentUnavailable,
            rpc_success: None,
            discovered: p,
        },
        FetchOutcome::Error => FetchEffects {
            result: TaskResult::Failure,
            rpc_success: Some(false),
            discovered: Vec::new(),
        },
    }
}

/// The answer for each requested key, in request order: the finished entry
/// of its content id (its key and value; each entry is handed out once),
/// or the requested key without a value.
pub open spec fn collect_answers<K, V>(keys: Seq<([u8; 32], K)>, fin: Seq<FinishedEntry<K, V>>) -> Seq<
    (K, Option<Box<V>>),
>
    decreases keys.len(),
{
    if keys.len() == 0 {
        Seq::empty()
    } else {
        let j = find_finished(fin, keys[0].0@);
        if j >= 0 {
            seq![(fin[j].1, fin[j].2)] + collect_answers(keys.drop_first(), fin.remove(j))
        } else {
            seq![(keys[0].1, None)] + collect_answers(keys.drop_first(), fin)
        }
    }
}

proof fn lemma_remove_keeps_distinct_finished<K, V>(f: Seq<FinishedEntry<K, V>>, k: int)
    requires
        distinct_finished(f),
        0 <= k < f.len(),
    ensures
        distinct_finished(f.remove(k)),
{
    let r = f.remove(k);
    assert forall|i: int, j: int| 0 <= i < j < r.len() implies r[i].0@ != r[j].0@ by {
        let a = if i < k { i } else { i + 1 };
        let b = if j < k { j } else { j + 1 };
        assert(r[i] == f[a]);
        assert(r[j] == f[b]);
    }
}

fn position_of<K, V>(v: &Vec<FinishedEntry<K, V>>, id: &[u8; 32]) -> (r: Option<usize>)
    requires
        distinct_finished(v@),
    ensures
        match r {
            Some(k) => k < v@.len() && k as int == find_finished(v@, id@),
            None => find_finished(v@, id@) == -1,
        },
{
    let mut i: usize = 0;
    while i < v.len()
        invariant
            distinct_finished(v@),
            0 <= i <= v@.len(),
            forall|j: int| 0 <= j < i ==> v@[j].0@ != id@,
        decreases v@.len() - i,
    {
        if crate::distance::bytes32_eq(&v[i].0, id) {
            proof {
                let k = find_finished(v@, id@);
                assert(0 <= k < v@.len() && v@[k].0@ == id@);
                if k > i {
                    assert(v@[i as int].0@ != v@[k].0@);
                }
            }
            return Some(i);
        }
        i = i + 1;
    }
    None
}

/// Whether no content id occurs twice among finished entries.
pub fn finished_ids_distinct<K, V>(finished: &Vec<FinishedEntry<K, V>>) -> (r: bool)
    ensures
        r == distinct_finished(finished@),
{
    let n = finished.len();
    let mut i: usize = 0;
    while i < n
        invariant
            n == finished@.len(),
            0 <= i <= n,
            forall|a: int, b: int| 0 <= a < b < n && a < i ==> finished@[a].0@ != finished@[b].0@,
        decreases n - i,
    {
        let mut j: usize = i + 1;
        while j < n
            invariant
                n == finished@.len(),
                0 <= i < n,
                i + 1 <= j <= n,
                forall|b: int| i < b < j ==> finished@[i as int].0@ != finished@[b].0@,
            decreases n - j,
        {
            if crate::distance::bytes32_eq(&finished[i].0, &finished[j].0) {
                return false;
            }
            j = j + 1;
        }
        i = i + 1;
    }
    true
}

/// Pairs each requested content key with what the batch fetch produced for
/// its content id.
pub fn collect_results<K, V>(content_keys: Vec<([u8; 32], K)>, finished: Vec<FinishedEntry<K, V>>) -> (r:
    Vec<(K, Option<Box<V>>)>)
    requires
        distinct_finished(finished@),
    ensures
        r@ == collect_answers(content_keys@, finished@),
{
    let ghost keys0 = content_keys@;
    let ghost fin0 = finished@;
    let mut rest = content_keys;
    let mut fin = finished;
    let mut out: Vec<(K, Option<Box<V>>)> = Vec::new();
    proof {
        assert(out@ + collect_answers(rest@, fin@) =~= collect_answers(keys0, fin0));
    }
    while rest.len() > 0
        invariant
            distinct_finished(fin@),
            out@ + collect_answers(rest@, fin@) == collect_answers(keys0, fin0),
        decreases rest@.len(),
    {
        let ghost rest_before = rest@;
        let ghost fin_before = fin@;
        let ghost out_before = out@;
        let (id, key) = rest.remove(0);
        proof {
            assert(rest@ =~= rest_before.drop_first());
        }
        match position_of(&fin, &id) {
            Some(j) => {
                let (_, found_key, value) = fin.remove(j);
                out.push((found_key, value));
                proof {
                    lemma_remove_keeps_distinct_finished(fin_before, j as int);
                    assert(collect_answers(rest_before, fin_before) == seq![(fin_before[j as int].1, fin_before[j as int].2)] + collect_answers(rest@, fin@));
                    assert(out@ + collect_answers(rest@, fin@) =~= out_before + collect_answers(rest_before, fin_before));
                }
            },
            None => {
                out.push((key, None));
                proof {
                    assert(collect_answers(rest_before, fin_before) == seq![(rest_before[0].1, None::<Box<V>>)] + collect_answers(rest@, fin@));
                    assert(out@ + collect_answers(rest@, fin@) =~= out_before + collect_answers(rest_before, fin_before));
                }
            },
        }
    }
    assert(out@ + collect_answers(rest@, fin@) =~= out@);
    out
}

proof fn lemma_answers_len<K, V>(keys: Seq<([u8; 32], K)>, fin: Seq<FinishedEntry<K, V>>)
    ensures
        collect_answers(keys, fin).len() == keys.len(),
    decreases keys.len(),
{
    if keys.len() > 0 {
        let j0 = find_finished(fin, keys[0].0@);
        if j0 >= 0 {
            lemma_answers_len(keys.drop_first(), fin.remove(j0));
        } else {
            lemma_answers_len(keys.drop_first(), fin);
        }
    }
}

/// The position in `fin.remove(j0)` of an entry of `fin` other than `j0`.
pub open spec fn shifted(j: int, j0: int) -> int {
    if j0 >= 0 && j > j0 {
        j - 1
    } else {
        j
    }
}

proof fn lemma_found_entry<K, V>(keys: Seq<([u8; 32], K)>, fin: Seq<FinishedEntry<K, V>>, i: int, j: int)
    requires
        distinct_finished(fin),
        0 <= i < keys.len(),
        0 <= j < fin.len(),
        fin[j].0@ == keys[i].0@,
        forall|h: int| 0 <= h < i ==> keys[h].0@ != keys[i].0@,
    ensures
        collect_answers(keys, fin)[i] == (fin[j].1, fin[j].2),
    decreases keys.len(),
{
    let j0 = find_finished(fin, keys[0].0@);
    let rest = keys.drop_first();
    let fin2 = if j0 >= 0 {
        fin.remove(j0)
    } else {
        fin
    };
    let head = if j0 >= 0 {
        (fin[j0].1, fin[j0].2)
    } else {
        (keys[0].1, None::<Box<V>>)
    };
    let ans = collect_answers(keys, fin);
    assert(ans == seq![head] + collect_answers(rest, fin2));
    lemma_answers_len(rest, fin2);
    if i > 0 {
        assert(ans[i] == collect_answers(rest, fin2)[i - 1]);
    }
    if i == 0 {
        assert(j0 >= 0);
        if j0 != j {
            if j0 < j {
                assert(fin[j0].0@ != fin[j].0@);
            } else {
                assert(fin[j].0@ != fin[j0].0@);
            }
        }
    } else {
        assert(keys[0].0@ != keys[i].0@);
        assert(rest[i - 1] == keys[i]);
        assert forall|h: int| #![trigger rest[h]] 0 <= h < i - 1 implies rest[h].0@ != rest[i - 1].0@ by {
            assert(rest[h] == keys[h + 1]);
        }
        if j0 >= 0 {
            lemma_remove_keeps_distinct_finished(fin, j0);
            assert(j != j0);
            assert(fin2[shifted(j, j0)] == fin[j]);
            lemma_found_entry(rest, fin2, i - 1, shifted(j, j0));
        } else {
            lemma_found_entry(rest, fin, i - 1, j);
        }
    }
}

proof fn lemma_missing_entry<K, V>(keys: Seq<([u8; 32], K)>, fin: Seq<FinishedEntry<K, V>>, i: int)
    requires
        distinct_finished(fin),
        0 <= i < keys.len(),
        (forall|j: int| 0 <= j < fin.len() ==> fin[j].0@ != keys[i].0@) || (exists|h: int|
            0 <= h < i && keys[h].0@ == keys[i].0@),
    ensures
        collect_answers(keys, fin)[i] == (keys[i].1, None::<Box<V>>),
    decreases keys.len(),
{
    let j0 = find_finished(fin, keys[0].0@);
    let none = forall|j: int| #![trigger fin[j]] 0 <= j < fin.len() ==> fin[j].0@ != keys[i].0@;
    let rest = keys.drop_first();
    let fin2 = if j0 >= 0 {
        fin.remove(j0)
    } else {
        fin
    };
    let head = if j0 >= 0 {
        (fin[j0].1, fin[j0].2)
    } else {
        (keys[0].1, None::<Box<V>>)
    };
    let ans = collect_answers(keys, fin);
    assert(ans == seq![head] + collect_answers(rest, fin2));
    lemma_answers_len(rest, fin2);
    if i > 0 {
        assert(ans[i] == collect_answers(rest, fin2)[i - 1]);
    }
    if i == 0 {
        assert(none);
        assert(j0 < 0);
    } else {
        assert(rest[i - 1] == keys[i]);
        if j0 >= 0 {
            lemma_remove_keeps_distinct_finished(fin, j0);
        }
        if none {
            assert forall|j2: int| #![trigger fin2[j2]] 0 <= j2 < fin2.len() implies fin2[j2].0@ != rest[i - 1].0@ by {
                if j0 >= 0 && j2 >= j0 {
                    assert(fin2[j2] == fin[j2 + 1]);
                } else {
                    assert(fin2[j2] == fin[j2]);
                }
            }
            lemma_missing_entry(rest, fin2, i - 1);
        } else {
            let h = choose|h: int| 0 <= h < i && keys[h].0@ == keys[i].0@;
            if h > 0 {
                assert(rest[h - 1] == keys[h]);
                lemma_missing_entry(rest, fin2, i - 1);
            } else {
                assert forall|j2: int| #![trigger fin2[j2]] 0 <= j2 < fin2.len() implies fin2[j2].0@ != rest[i - 1].0@ by {
                    let j = if j0 >= 0 && j2 >= j0 { j2 + 1 } else { j2 };
                    assert(fin2[j2] == fin[j]);
                    if j0 >= 0 {
                        if j < j0 {
                            assert(fin[j].0@ != fin[j0].0@);
                        } else {
                            assert(fin[j0].0@ != fin[j].0@);
                        }
                    }
                }
                lemma_missing_entry(rest, fin2, i - 1);
            }
        }
    }
}

/// The answers of a batch fetch, one per requested key in request order,
/// do not depend on the order in which the fetches finished: the first
/// request of a content id that was fetched gets the key and value of the
/// finished entry with that same id, wherever it stands among the finished
/// entries; a request whose id was not fetched, or was already answered at
/// an earlier position, gets its own key and no value.
pub proof fn law_answers_match_content_ids<K, V>(keys: Seq<([u8; 32], K)>, fin: Seq<FinishedEntry<K, V>>)
    requires
        distinct_finished(fin),
    ensures
        collect_answers(keys, fin).len() == keys.len(),
        forall|i: int, j: int|
            #![trigger keys[i], fin[j]]
            0 <= i < keys.len() && 0 <= j < fin.len() && fin[j].0@ == keys[i].0@ && (forall|h: int|
                0 <= h < i ==> keys[h].0@ != keys[i].0@) ==> collect_answers(keys, fin)[i] == (
            fin[j].1,
            fin[j].2,
        ),
        forall|i: int|
            #![trigger keys[i]]
            0 <= i < keys.len() && ((forall|j: int| 0 <= j < fin.len() ==> fin[j].0@ != keys[i].0@)
                || (exists|h: int| 0 <= h < i && keys[h].0@ == keys[i].0@)) ==> collect_answers(
                keys,
                fin,
            )[i] == (keys[i].1, None::<Box<V>>),
{
    lemma_answers_len(keys, fin);
    assert forall|i: int, j: int|
        #![trigger keys[i], fin[j]]
        0 <= i < keys.len() && 0 <= j < fin.len() && fin[j].0@ == keys[i].0@ && (forall|h: int|
            0 <= h < i ==> keys[h].0@ != keys[i].0@) implies collect_answers(keys, fin)[i] == (
        fin[j].1,
        fin[j].2,
    ) by {
        lemma_found_entry(keys, fin, i, j);
    }
    assert forall|i: int|
        #![trigger keys[i]]
        0 <= i < keys.len() && ((forall|j: int| 0 <= j < fin.len() ==> fin[j].0@ != keys[i].0@)
            || (exists|h: int| 0 <= h < i && keys[h].0@ == keys[i].0@)) implies collect_answers(
        keys,
        fin,
    )[i] == (keys[i].1, None::<Box<V>>) by {
        lemma_missing_entry(keys, fin, i);
    }
}

} // verus!
