use vstd::prelude::*;

use crate::distance::{be_value, xor_seq, xor_value, Distance, NodeId, XorMetric};
use crate::selection::{is_stable_selection, lemma_selection_order, selected, stable_selection};

verus! {

/// The sort keys of content ids relative to a node: the top 32 bits of
/// the XOR distance.
pub open spec fn content_keys_to(node_id: Seq<u8>, ids: Seq<[u8; 32]>) -> Seq<u32> {
    ids.map_values(|c: [u8; 32]| be_value(xor_seq(node_id, c@).take(4)) as u32)
}

/// Which content ids lie strictly inside the radius around the node.
pub open spec fn strictly_inside(node_id: Seq<u8>, radius: nat, ids: Seq<[u8; 32]>) -> Seq<bool> {
    ids.map_values(|c: [u8; 32]| xor_value(node_id, c@) < radius)
}

/// The positions of the content to ask a peer for: content strictly within
/// the peer's radius, closest first (ties in the given order), at most
/// `content_per_peer` of them.
pub fn content_for_peer(
    node_id: &NodeId,
    radius: &Distance,
    content_ids: &Vec<[u8; 32]>,
    content_per_peer: usize,
) -> (r: Vec<usize>)
    ensures
        is_stable_selection(
            content_keys_to(node_id@, content_ids@),
            strictly_inside(node_id@, radius.value(), content_ids@),
            content_per_peer as nat,
            r@,
        ),
{
    let mut keys: Vec<u32> = Vec::new();
    let mut inside: Vec<bool> = Vec::new();
    let mut i: usize = 0;
    while i < content_ids.len()
        invariant
            0 <= i <= content_ids@.len(),
            keys@ == content_keys_to(node_id@, content_ids@).take(i as int),
            inside@ == strictly_inside(node_id@, radius.value(), content_ids@).take(i as int),
        decreases content_ids@.len() - i,
    {
        let distance = XorMetric::distance(&node_id.raw, &content_ids[i]);
        keys.push(distance.big_endian_u32());
        inside.push(distance.lt(radius));
        assert(keys@ =~= content_keys_to(node_id@, content_ids@).take(i + 1));
        assert(inside@ =~= strictly_inside(node_id@, radius.value(), content_ids@).take(i + 1));
        i = i + 1;
    }
    assert(keys@ =~= content_keys_to(node_id@, content_ids@));
    assert(inside@ =~= strictly_inside(node_id@, radius.value(), content_ids@));
    stable_selection(&keys, &inside, content_per_peer)
}

/// How many of a peer's content keys to fetch: all of them, or at most the
/// given number.
pub fn keys_to_fetch(total: usize, content_per_peer: Option<usize>) -> (r: usize)
    ensures
        r == match content_per_peer {
            Some(n) => if n < total { n } else { total },
            None => total,
        },
{
    match content_per_peer {
        Some(n) => if n < total { n } else { total },
        None => total,
    }
}

proof fn lemma_content_key(node_id: Seq<u8>, ids: Seq<[u8; 32]>, i: int)
    requires
        0 <= i < ids.len(),
    ensures
        content_keys_to(node_id, ids)[i] as nat == be_value(
            Seq::new(32, |x: int| node_id[x] ^ ids[i]@[x]).take(4),
        ),
{
    let c = ids[i]@;
    assert(xor_seq(node_id, c) =~= Seq::new(32, |x: int| node_id[x] ^ c[x]));
    crate::distance::lemma_top_bytes_bound(xor_seq(node_id, c).take(4));
}

/// The content `content_for_peer` picks (positions `sel`): at most
/// `content_per_peer` items, each strictly within the radius (its XOR
/// distance to the node id is below the radius), ordered by the top 32
/// bits of that distance; an item within the radius that was left out is
/// no closer than any picked one, and is left out only when
/// `content_per_peer` items were picked.
pub proof fn law_content_for_peer_by_xor_distance(
    node_id: Seq<u8>,
    radius: nat,
    ids: Seq<[u8; 32]>,
    count: nat,
    sel: Seq<usize>,
)
    requires
        is_stable_selection(content_keys_to(node_id, ids), strictly_inside(node_id, radius, ids), count, sel),
    ensures
        sel.len() <= count,
        forall|a: int|
            0 <= a < sel.len() ==> #[trigger] sel[a] < ids.len() && be_value(
                Seq::new(32, |x: int| node_id[x] ^ ids[sel[a] as int]@[x]),
            ) < radius,
        forall|a: int, b: int|
            #![trigger sel[a], sel[b]]
            0 <= a <= b < sel.len() ==> be_value(
                Seq::new(32, |x: int| node_id[x] ^ ids[sel[a] as int]@[x]).take(4),
            ) <= be_value(Seq::new(32, |x: int| node_id[x] ^ ids[sel[b] as int]@[x]).take(4)),
        forall|k: int, a: int|
            #![trigger ids[k], sel[a]]
            0 <= k < ids.len() && be_value(Seq::new(32, |x: int| node_id[x] ^ ids[k]@[x])) < radius
                && !selected(sel, k) && 0 <= a < sel.len() ==> sel.len() == count && be_value(
                Seq::new(32, |x: int| node_id[x] ^ ids[sel[a] as int]@[x]).take(4),
            ) <= be_value(Seq::new(32, |x: int| node_id[x] ^ ids[k]@[x]).take(4)),
{
    let keys = content_keys_to(node_id, ids);
    let flags = strictly_inside(node_id, radius, ids);
    lemma_selection_order(keys, flags, count, sel);
    assert forall|a: int| 0 <= a < sel.len() implies #[trigger] sel[a] < ids.len() && be_value(
        Seq::new(32, |x: int| node_id[x] ^ ids[sel[a] as int]@[x]),
    ) < radius by {
        assert(flags[sel[a] as int]);
        let c = ids[sel[a] as int]@;
        assert(xor_seq(node_id, c) =~= Seq::new(32, |x: int| node_id[x] ^ c[x]));
    }
    assert forall|a: int, b: int|
        #![trigger sel[a], sel[b]]
        0 <= a <= b < sel.len() implies be_value(
            Seq::new(32, |x: int| node_id[x] ^ ids[sel[a] as int]@[x]).take(4),
        ) <= be_value(Seq::new(32, |x: int| node_id[x] ^ ids[sel[b] as int]@[x]).take(4)) by {
        lemma_content_key(node_id, ids, sel[a] as int);
        lemma_content_key(node_id, ids, sel[b] as int);
        assert(keys[sel[a] as int] <= keys[sel[b] as int]);
    }
    assert forall|k: int, a: int|
        #![trigger ids[k], sel[a]]
        0 <= k < ids.len() && be_value(Seq::new(32, |x: int| node_id[x] ^ ids[k]@[x])) < radius
            && !selected(sel, k) && 0 <= a < sel.len() implies sel.len() == count && be_value(
            Seq::new(32, |x: int| node_id[x] ^ ids[sel[a] as int]@[x]).take(4),
        ) <= be_value(Seq::new(32, |x: int| node_id[x] ^ ids[k]@[x]).take(4)) by {
        let c = ids[k]@;
        assert(xor_seq(node_id, c) =~= Seq::new(32, |x: int| node_id[x] ^ c[x]));
        assert(flags[k]);
        lemma_content_key(node_id, ids, sel[a] as int);
        lemma_content_key(node_id, ids, k);
        assert(keys[sel[a] as int] <= keys[k]);
    }
}

} // verus!
