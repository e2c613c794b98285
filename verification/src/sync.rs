use vstd::prelude::*;

verus! {

/// Why a block range cannot be fetched.
#[derive(Clone, Copy, Debug, PartialEq, Eq, Structural)]
pub enum SyncError {
    /// The first block is after the last one, or the last one is beyond the
    /// known block hashes.
    InvalidBlockRange { first: usize, last: usize },
}

/// The batches `[start, end]` that cover `start..=last`, each `size` blocks
/// long but the last one cut at `last`.
pub open spec fn batches_from(start: int, last: int, size: int) -> Seq<(int, int)>
    decreases (if start > last {
        0
    } else {
        last - start + 1
    }),
{
    if size <= 0 || start > last {
        Seq::empty()
    } else {
        seq![(start, if start + size - 1 <= last { start + size - 1 } else { last })]
            + batches_from(start + size, last, size)
    }
}

pub open spec fn as_int_pairs(v: Seq<(usize, usize)>) -> Seq<(int, int)> {
    v.map_values(|p: (usize, usize)| (p.0 as int, p.1 as int))
}

/// The batches of a block range fetch: the range `first..=last` must lie
/// within the `available` block hashes as the fetch checks it, and is cut
/// into batches of `batch_size` blocks.
pub fn block_batches(first: usize, last: usize, batch_size: usize, available: usize) -> (r: Result<
    Vec<(usize, usize)>,
    SyncError,
>)
    requires
        batch_size > 0,
        last + batch_size <= usize::MAX,
    ensures
        r is Err <==> (first > last || last > available),
        r is Err ==> r == Err::<Vec<(usize, usize)>, SyncError>(
            SyncError::InvalidBlockRange { first, last },
        ),
        r matches Ok(v) ==> as_int_pairs(v@) == batches_from(first as int, last as int, batch_size as int),
{
    if first > last || last > available {
        return Err(SyncError::InvalidBlockRange { first, last });
    }
    let mut batches: Vec<(usize, usize)> = Vec::new();
    let mut start = first;
    proof {
        assert(as_int_pairs(batches@) + batches_from(start as int, last as int, batch_size as int)
            =~= batches_from(first as int, last as int, batch_size as int));
    }
    while start <= last
        invariant
            batch_size > 0,
            last + batch_size <= usize::MAX,
            start <= last + batch_size,
            as_int_pairs(batches@) + batches_from(start as int, last as int, batch_size as int)
                == batches_from(first as int, last as int, batch_size as int),
        decreases last + batch_size - start,
    {
        let end = if start + batch_size - 1 <= last {
            start + batch_size - 1
        } else {
            last
        };
        let ghost before = batches@;
        batches.push((start, end));
        proof {
            assert(as_int_pairs(batches@) =~= as_int_pairs(before).push((start as int, end as int)));
            assert(batches_from(start as int, last as int, batch_size as int) == seq![(start as int, end as int)]
                + batches_from(start + batch_size, last as int, batch_size as int));
            assert(as_int_pairs(batches@) + batches_from(start + batch_size, last as int, batch_size as int)
                =~= as_int_pairs(before) + batches_from(start as int, last as int, batch_size as int));
        }
        start = start + batch_size;
    }
    assert(as_int_pairs(batches@) + batches_from(start as int, last as int, batch_size as int)
        =~= as_int_pairs(batches@));
    Ok(batches)
}

/// The block hashes of a batch: positions `start..=end`.
pub fn batch_hashes(hashes: &Vec<[u8; 32]>, start: usize, end: usize) -> (r: Vec<[u8; 32]>)
    requires
        start <= end,
        end < hashes@.len(),
    ensures
        r@ == hashes@.subrange(start as int, end + 1),
{
    let n = hashes.len();
    let mut r: Vec<[u8; 32]> = Vec::new();
    let mut i: usize = start;
    while i <= end
        invariant
            start <= i <= end + 1,
            end < n,
            end < hashes@.len(),
            r@ == hashes@.subrange(start as int, i as int),
        decreases end + 1 - i,
    {
        r.push(hashes[i]);
        assert(hashes@.subrange(start as int, i + 1) =~= hashes@.subrange(start as int, i as int).push(
            hashes@[i as int],
        ));
        i = i + 1;
    }
    r
}

/// The batches of a range cover it exactly: the first starts at `start`,
/// the last ends at `last`, each starts right after the one before it
/// ends, none is empty and none is longer than `size` blocks.
pub proof fn law_batches_partition(start: int, last: int, size: int)
    requires
        size > 0,
        start <= last,
    ensures
        ({
            let b = batches_from(start, last, size);
            &&& b.len() > 0
            &&& b[0].0 == start
            &&& b[b.len() - 1].1 == last
            &&& forall|i: int| 0 <= i < b.len() ==> #[trigger] b[i].0 <= b[i].1 && b[i].1 - b[i].0 < size
            &&& forall|i: int| 0 <= i < b.len() - 1 ==> #[trigger] b[i + 1].0 == b[i].1 + 1
        }),
    decreases last - start + 1,
{
    let b = batches_from(start, last, size);
    let end = if start + size - 1 <= last { start + size - 1 } else { last };
    let rest = batches_from(start + size, last, size);
    assert(b == seq![(start, end)] + rest);
    if start + size <= last {
        law_batches_partition(start + size, last, size);
        assert forall|i: int| 0 <= i < b.len() - 1 implies #[trigger] b[i + 1].0 == b[i].1 + 1 by {
            assert(b[i + 1] == rest[i]);
            if i > 0 {
                let j = i - 1;
                assert(b[i] == rest[j]);
                assert(rest[j + 1].0 == rest[j].1 + 1);
            } else {
                assert(b[0].1 == start + size - 1);
                assert(rest[0].0 == start + size);
            }
        }
        assert forall|i: int| 0 <= i < b.len() implies #[trigger] b[i].0 <= b[i].1 && b[i].1 - b[i].0 < size by {
            if i > 0 {
                assert(b[i] == rest[i - 1]);
            }
        }
    } else {
        assert(rest.len() == 0);
    }
}

/// How many answers came with a value.
pub open spec fn count_found<K, V>(s: Seq<(K, Option<Box<V>>)>) -> nat
    decreases s.len(),
{
    if s.len() == 0 {
        0
    } else {
        count_found(s.drop_last()) + if s.last().1 is Some {
            1nat
        } else {
            0nat
        }
    }
}

/// The numbers of answers with and without a value.
pub fn count_results<K, V>(content: &Vec<(K, Option<Box<V>>)>) -> (r: (usize, usize))
    ensures
        r.0 == count_found(content@),
        r.0 + r.1 == content@.len(),
{
    let mut success: usize = 0;
    let mut failure: usize = 0;
    let mut i: usize = 0;
    while i < content.len()
        invariant
            0 <= i <= content@.len(),
            success == count_found(content@.take(i as int)),
            success + failure == i,
        decreases content@.len() - i,
    {
        assert(content@.take(i + 1).drop_last() =~= content@.take(i as int));
        if content[i].1.is_some() {
            success = success + 1;
        } else {
            failure = failure + 1;
        }
        i = i + 1;
    }
    assert(content@.take(content@.len() as int) =~= content@);
    (success, failure)
}

/// Counting the answers with a value: one more answer with a value adds
/// one, one without adds none; the count is at most the number of answers,
/// zero where no answer has a value and all of them where every one has.
pub proof fn law_count_found<K, V>(s: Seq<(K, Option<Box<V>>)>, k: K, v: Box<V>)
    ensures
        count_found(s.push((k, Some(v)))) == count_found(s) + 1,
        count_found(s.push((k, None))) == count_found(s),
        count_found(s) <= s.len(),
        (forall|i: int| 0 <= i < s.len() ==> #[trigger] s[i].1 is None) ==> count_found(s) == 0,
        (forall|i: int| 0 <= i < s.len() ==> #[trigger] s[i].1 is Some) ==> count_found(s) == s.len(),
    decreases s.len(),
{
    assert(s.push((k, Some(v))).drop_last() =~= s);
    assert(s.push((k, None::<Box<V>>)).drop_last() =~= s);
    if s.len() > 0 {
        let t = s.drop_last();
        law_count_found(t, k, v);
        assert forall|i: int| 0 <= i < t.len() implies #[trigger] t[i] == s[i] by {}
    }
}

} // verus!
