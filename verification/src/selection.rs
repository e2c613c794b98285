use vstd::prelude::*;

verus! {

/// Position `i` goes before position `j` when ordered by key, ties broken
/// by position (the order of a stable sort by key).
pub open spec fn goes_before(keys: Seq<u32>, i: int, j: int) -> bool {
    keys[i] < keys[j] || (keys[i] == keys[j] && i < j)
}

pub open spec fn selected(sel: Seq<usize>, k: int) -> bool {
    exists|i: int| 0 <= i < sel.len() && sel[i] == k
}

/// `sel` lists the first `count` eligible positions of a stable sort by
/// key (all of them where there are fewer).
pub open spec fn is_stable_selection(keys: Seq<u32>, eligible: Seq<bool>, count: nat, sel: Seq<usize>) -> bool {
    &&& sel.len() <= count
    &&& forall|i: int| 0 <= i < sel.len() ==> sel[i] < keys.len() && eligible[sel[i] as int]
    &&& forall|i: int, j: int|
        0 <= i < j < sel.len() ==> goes_before(keys, sel[i] as int, sel[j] as int)
    &&& forall|k: int|
        0 <= k < keys.len() && eligible[k] && !selected(sel, k) ==> sel.len() == count && (
        sel.len() > 0 ==> goes_before(keys, sel[sel.len() - 1] as int, k))
}

/// The eligible positions, ordered by key with ties kept in position order,
/// cut after the first `count`.
pub fn stable_selection(keys: &Vec<u32>, eligible: &Vec<bool>, count: usize) -> (sel: Vec<usize>)
    requires
        keys@.len() == eligible@.len(),
    ensures
        is_stable_selection(keys@, eligible@, count as nat, sel@),
{
    let n = keys.len();
    let mut picked: Vec<bool> = Vec::new();
    let mut i: usize = 0;
    while i < n
        invariant
            0 <= i <= n,
            picked@.len() == i,
            forall|j: int| 0 <= j < i ==> !picked@[j],
        decreases n - i,
    {
        picked.push(false);
        i = i + 1;
    }
    let mut sel: Vec<usize> = Vec::new();
    while sel.len() < count
        invariant
            n == keys@.len(),
            n == eligible@.len(),
            n == picked@.len(),
            sel@.len() <= count,
            forall|i: int| 0 <= i < sel@.len() ==> sel@[i] < n && eligible@[sel@[i] as int],
            forall|k: int| 0 <= k < n ==> (picked@[k] <==> selected(sel@, k)),
            forall|i: int, j: int|
                0 <= i < j < sel@.len() ==> goes_before(keys@, sel@[i] as int, sel@[j] as int),
            forall|k: int|
                0 <= k < n && eligible@[k] && !picked@[k] && sel@.len() > 0 ==> goes_before(
                    keys@,
                    sel@[sel@.len() - 1] as int,
                    k,
                ),
        decreases count - sel@.len(),
    {
        // find the first unpicked eligible position with the least key
        let mut best: usize = n;
        let mut j: usize = 0;
        while j < n
            invariant
                n == keys@.len(),
                n == eligible@.len(),
                n == picked@.len(),
                0 <= j <= n,
                best == n || (best < j && eligible@[best as int] && !picked@[best as int]),
                forall|k: int|
                    0 <= k < j && eligible@[k] && !picked@[k] ==> best < n && (k == best
                        || goes_before(keys@, best as int, k)),
            decreases n - j,
        {
            if eligible[j] && !picked[j] {
                if best == n || keys[j] < keys[best] {
                    best = j;
                }
            }
            j = j + 1;
        }
        if best == n {
            // every eligible position is already selected
            assert forall|k: int|
                0 <= k < n && eligible@[k] && !selected(sel@, k) implies false by {
                assert(!picked@[k]);
            }
            return sel;
        }
        let ghost old_sel = sel@;
        let ghost old_picked = picked@;
        sel.push(best);
        picked.set(best, true);
        proof {
            assert forall|k: int| 0 <= k < n implies (picked@[k] <==> selected(sel@, k)) by {
                if k == best {
                    assert(sel@[sel@.len() - 1] == best);
                } else {
                    if selected(sel@, k) {
                        let i = choose|i: int| 0 <= i < sel@.len() && sel@[i] == k;
                        assert(i < old_sel.len());
                        assert(old_sel[i] == k);
                        assert(selected(old_sel, k));
                    }
                    if selected(old_sel, k) {
                        let i = choose|i: int| 0 <= i < old_sel.len() && old_sel[i] == k;
                        assert(sel@[i] == k);
                    }
                }
            }
            assert forall|i: int, j: int|
                0 <= i < j < sel@.len() implies goes_before(
                keys@,
                sel@[i] as int,
                sel@[j] as int,
            ) by {
                if j == sel@.len() - 1 {
                    if i < j - 1 {
                        // transitivity through the previous last element
                        assert(goes_before(keys@, sel@[i] as int, old_sel[old_sel.len() - 1] as int));
                    }
                    assert(!old_picked[best as int]);
                }
            }
        }
    }
    assert forall|k: int|
        0 <= k < n && eligible@[k] && !selected(sel@, k) implies sel@.len() == count by {
    }
    sel
}

/// What a stable selection guarantees: it holds at most `count` eligible
/// positions; their keys never go down along it; and an eligible position
/// left out has a key at least as large as every selected one, which only
/// happens when `count` positions were selected.
pub proof fn lemma_selection_order(keys: Seq<u32>, eligible: Seq<bool>, count: nat, sel: Seq<usize>)
    requires
        is_stable_selection(keys, eligible, count, sel),
    ensures
        sel.len() <= count,
        forall|a: int| 0 <= a < sel.len() ==> #[trigger] sel[a] < keys.len() && eligible[sel[a] as int],
        forall|a: int, b: int|
            0 <= a <= b < sel.len() ==> keys[#[trigger] sel[a] as int] <= keys[#[trigger] sel[b] as int],
        forall|k: int, a: int|
            0 <= k < keys.len() && eligible[k] && !selected(sel, k) && 0 <= a < sel.len() ==> keys[#[trigger] sel[a]
                as int] <= #[trigger] keys[k],
        forall|k: int|
            0 <= k < keys.len() && eligible[k] && !selected(sel, k) ==> sel.len() == count,
{
    assert forall|a: int, b: int| 0 <= a <= b < sel.len() implies keys[#[trigger] sel[a] as int] <= keys[#[trigger] sel[b] as int] by {
        if a < b {
            assert(goes_before(keys, sel[a] as int, sel[b] as int));
        }
    }
    assert forall|k: int, a: int|
        0 <= k < keys.len() && eligible[k] && !selected(sel, k) && 0 <= a < sel.len() implies keys[#[trigger] sel[a]
            as int] <= #[trigger] keys[k] by {
        let last = sel.len() - 1;
        assert(goes_before(keys, sel[last] as int, k));
        if a < last {
            assert(goes_before(keys, sel[a] as int, sel[last] as int));
        }
    }
}

} // verus!
