use vstd::prelude::*;

use crate::distance::{be_value, xor_seq, xor_value, Distance, NodeId, XorMetric};
use crate::enr::{Enr, EnrView};
use crate::peer::{alive, record_outcome, Peer};
use crate::selection::{goes_before, is_stable_selection, lemma_selection_order, selected, stable_selection};

verus! {

/// The sort key of a peer relative to a target: the most significant 32
/// bits of their XOR distance.
pub open spec fn distance_key(node_id: Seq<u8>, target: Seq<u8>) -> nat {
    be_value(xor_seq(node_id, target).take(4))
}

pub open spec fn has_node(s: Seq<Peer>, id: Seq<u8>) -> bool {
    exists|i: int| 0 <= i < s.len() && s[i].node_id_view() == id
}

/// The sort keys of peers relative to a target.
pub open spec fn peer_keys(s: Seq<Peer>, target: Seq<u8>) -> Seq<u32> {
    s.map_values(|p: Peer| distance_key(p.node_id_view(), target) as u32)
}

/// Equal keys for every position: a stable selection then keeps table order.
pub open spec fn zero_keys(n: nat) -> Seq<u32> {
    Seq::new(n, |i: int| 0u32)
}

/// Which peers are alive.
pub open spec fn alive_flags(s: Seq<Peer>) -> Seq<bool> {
    s.map_values(|p: Peer| alive(p.checks()))
}

/// Which peers are alive and hold the content id within their radius.
pub open spec fn serving_flags(s: Seq<Peer>, content_id: Seq<u8>) -> Seq<bool> {
    s.map_values(
        |p: Peer| alive(p.checks()) && xor_value(p.node_id_view(), content_id) <= p.radius_value(),
    )
}

proof fn lemma_increasing_lower_bound(sel: Seq<usize>, i: int)
    requires
        forall|a: int, b: int| 0 <= a < b < sel.len() ==> sel[a] < sel[b],
        0 <= i < sel.len(),
    ensures
        sel[i] >= i,
    decreases i,
{
    if i > 0 {
        lemma_increasing_lower_bound(sel, i - 1);
    }
}

proof fn lemma_increasing_upper_bound(sel: Seq<usize>, n: int, i: int)
    requires
        forall|a: int, b: int| 0 <= a < b < sel.len() ==> sel[a] < sel[b],
        forall|a: int| 0 <= a < sel.len() ==> sel[a] < n,
        0 <= i < sel.len(),
    ensures
        sel[i] + (sel.len() - i) <= n,
    decreases sel.len() - i,
{
    if i < sel.len() - 1 {
        lemma_increasing_upper_bound(sel, n, i + 1);
    }
}

/// With equal keys for every position, a selection of up to all positions
/// takes exactly the eligible positions, in table order.
pub proof fn law_equal_keys_keep_table_order(flags: Seq<bool>, sel: Seq<usize>)
    requires
        is_stable_selection(zero_keys(flags.len()), flags, flags.len(), sel),
    ensures
        forall|a: int, b: int| 0 <= a < b < sel.len() ==> #[trigger] sel[a] < #[trigger] sel[b],
        forall|k: int| 0 <= k < flags.len() ==> (#[trigger] flags[k] <==> selected(sel, k)),
{
    let keys = zero_keys(flags.len());
    assert forall|a: int, b: int| 0 <= a < b < sel.len() implies #[trigger] sel[a] < #[trigger] sel[b] by {
        assert(sel[a] < keys.len() && sel[b] < keys.len());
        assert(goes_before(keys, sel[a] as int, sel[b] as int));
        assert(keys[sel[a] as int] == keys[sel[b] as int]);
    }
    assert forall|k: int| 0 <= k < flags.len() implies (#[trigger] flags[k] <==> selected(sel, k)) by {
        if selected(sel, k) {
            let i = choose|i: int| 0 <= i < sel.len() && sel[i] == k;
            assert(flags[sel[i] as int]);
        }
        if flags[k] && !selected(sel, k) {
            assert(sel.len() == flags.len());
            assert(sel[k] >= k) by {
                lemma_increasing_lower_bound(sel, k);
            }
            assert(sel[k] + (sel.len() - k) <= flags.len()) by {
                lemma_increasing_upper_bound(sel, flags.len() as int, k);
            }
            assert(sel[k] == k);
        }
    }
}

/// A peer's node id is the node id of its record.
pub proof fn lemma_enr_node_id(p: Peer)
    ensures
        p.enr_view().node_id == p.node_id_view(),
{
    crate::peer::lemma_peer_enr_node_id(p);
}

/// All discovered peers, in the order they were first seen, at most one per
/// node id.
pub struct Peers {
    peers: Vec<Peer>,
}

impl Peers {
    pub closed spec fn entries(&self) -> Seq<Peer> {
        self.peers@
    }

    /// Every peer is well formed and no node id occurs twice.
    pub open spec fn wf(&self) -> bool {
        &&& forall|i: int| 0 <= i < self.entries().len() ==> #[trigger] self.entries()[i].wf()
        &&& forall|i: int, j: int|
            0 <= i < j < self.entries().len() ==> self.entries()[i].node_id_view()
                != self.entries()[j].node_id_view()
    }

    pub fn new() -> (p: Peers)
        ensures
            p.wf(),
            p.entries() == Seq::<Peer>::empty(),
    {
        Peers { peers: Vec::new() }
    }

    /// Whether the table is well formed (as every table this module makes
    /// is).
    pub fn is_well_formed(&self) -> (r: bool)
        ensures
            r == self.wf(),
    {
        let n = self.peers.len();
        let mut i: usize = 0;
        while i < n
            invariant
                n == self.entries().len(),
                0 <= i <= n,
                forall|a: int| 0 <= a < i ==> #[trigger] self.entries()[a].wf(),
                forall|a: int, b: int|
                    0 <= a < b < n && a < i ==> self.entries()[a].node_id_view()
                        != self.entries()[b].node_id_view(),
            decreases n - i,
        {
            let checks = self.peers[i].iter_liveness_checks();
            assert(checks@.len() == self.entries()[i as int].checks().len());
            if checks.len() > crate::peer::MAX_LIVENESS_CHECKS {
                assert(!self.entries()[i as int].wf());
                return false;
            }
            let id = self.peers[i].node_id();
            let mut j: usize = i + 1;
            while j < n
                invariant
                    n == self.entries().len(),
                    0 <= i < n,
                    i + 1 <= j <= n,
                    id@ == self.entries()[i as int].node_id_view(),
                    forall|b: int|
                        i < b < j ==> self.entries()[i as int].node_id_view()
                            != self.entries()[b].node_id_view(),
                decreases n - j,
            {
                if self.peers[j].node_id().same(&id) {
                    return false;
                }
                j = j + 1;
            }
            i = i + 1;
        }
        true
    }

    pub fn is_empty(&self) -> (r: bool)
        ensures
            r == (self.entries().len() == 0),
    {
        self.peers.len() == 0
    }

    pub fn len(&self) -> (r: usize)
        ensures
            r == self.entries().len(),
    {
        self.peers.len()
    }

    /// The position of the peer with this node id.
    fn position(&self, node_id: &NodeId) -> (r: Option<usize>)
        ensures
            match r {
                Some(i) => i < self.entries().len() && self.entries()[i as int].node_id_view()
                    == node_id@,
                None => !has_node(self.entries(), node_id@),
            },
    {
        let mut i: usize = 0;
        while i < self.peers.len()
            invariant
                0 <= i <= self.peers@.len(),
                forall|j: int| 0 <= j < i ==> self.peers@[j].node_id_view() != node_id@,
            decreases self.peers@.len() - i,
        {
            if self.peers[i].node_id().same(node_id) {
                return Some(i);
            }
            i = i + 1;
        }
        None
    }

    /// The peer with this node id, if known.
    pub fn get_peer(&self, node_id: &NodeId) -> (r: Option<&Peer>)
        ensures
            match r {
                Some(p) => exists|i: int|
                    0 <= i < self.entries().len() && self.entries()[i] == *p
                        && p.node_id_view() == node_id@,
                None => !has_node(self.entries(), node_id@),
            },
    {
        match self.position(node_id) {
            Some(i) => Some(&self.peers[i]),
            None => None,
        }
    }

    /// Makes sure a peer with the record's node id is in the table (a new one
    /// goes at the end) and returns its position.
    fn entry(&mut self, enr: &Enr) -> (i: usize)
        requires
            old(self).wf(),
        ensures
            final(self).wf(),
            i < final(self).entries().len(),
            final(self).entries()[i as int].node_id_view() == enr.node_id@,
            has_node(old(self).entries(), enr.node_id@) ==> final(self).entries() == old(self).entries(),
            !has_node(old(self).entries(), enr.node_id@) ==> {
                &&& final(self).entries().len() == old(self).entries().len() + 1
                &&& i == old(self).entries().len()
                &&& final(self).entries().take(i as int) == old(self).entries()
                &&& final(self).entries()[i as int].enr_view() == enr@
                &&& final(self).entries()[i as int].radius_value() == 0
                &&& final(self).entries()[i as int].checks() == Seq::<bool>::empty()
            },
    {
        match self.position(&enr.node_id) {
            Some(i) => i,
            None => {
                let p = Peer::new(enr.duplicate());
                self.peers.push(p);
                assert(self.peers@.take(self.peers@.len() - 1) =~= old(self).peers@);
                self.peers.len() - 1
            },
        }
    }

    /// Records a successful liveness check of the record's peer, adding the
    /// peer first where it is new.
    pub fn record_successful_liveness_check(&mut self, enr: &Enr, radius: Distance)
        requires
            old(self).wf(),
        ensures
            final(self).wf(),
            has_node(old(self).entries(), enr.node_id@) ==> final(self).entries().len() == old(self).entries().len(),
            !has_node(old(self).entries(), enr.node_id@) ==> final(self).entries().len() == old(self).entries().len() + 1,
            forall|j: int|
                0 <= j < old(self).entries().len() && old(self).entries()[j].node_id_view()
                    != enr.node_id@ ==> old(self).entries()[j] == #[trigger] (final(self).entries()[j]),
            forall|j: int|
                0 <= j < final(self).entries().len() && #[trigger] (final(self).entries()[j].node_id_view()) == enr.node_id@ ==> {
                    let before = if j < old(self).entries().len() {
                        old(self).entries()[j].checks()
                    } else {
                        Seq::<bool>::empty()
                    };
                    let before_seq = if j < old(self).entries().len() {
                        old(self).entries()[j].enr_view().seq
                    } else {
                        enr.seq
                    };
                    let before_enr = if j < old(self).entries().len() {
                        old(self).entries()[j].enr_view()
                    } else {
                        enr@
                    };
                    &&& final(self).entries()[j].checks() == record_outcome(before, true)
                    &&& final(self).entries()[j].radius_value() == radius.value()
                    &&& final(self).entries()[j].enr_view() == if before_seq <= enr.seq {
                        enr@
                    } else {
                        before_enr
                    }
                },
    {
        let i = self.entry(enr);
        let ghost mid = self.peers@;
        let mut peer = self.peers.remove(i);
        peer.record_successful_liveness_check(enr.duplicate(), radius);
        self.peers.insert(i, peer);
        proof {
            assert forall|j: int| 0 <= j < self.peers@.len() && j != i implies self.peers@[j]
                == mid[j] by {
            }
            assert forall|j: int|
                0 <= j < self.peers@.len() && #[trigger] self.peers@[j].node_id_view()
                    == enr.node_id@ implies j == i by {
                if j != i {
                    assert(mid[j].node_id_view() == enr.node_id@);
                    assert(mid[i as int].node_id_view() == enr.node_id@);
                }
            }
        }
    }

    /// Records a failed liveness check of the record's peer, adding the peer
    /// first where it is new; returns whether the peer is now obsolete.
    pub fn record_failed_liveness_check(&mut self, enr: &Enr) -> (obsolete: bool)
        requires
            old(self).wf(),
        ensures
            final(self).wf(),
            has_node(old(self).entries(), enr.node_id@) ==> final(self).entries().len() == old(self).entries().len(),
            !has_node(old(self).entries(), enr.node_id@) ==> final(self).entries().len() == old(self).entries().len() + 1,
            forall|j: int|
                0 <= j < old(self).entries().len() && old(self).entries()[j].node_id_view()
                    != enr.node_id@ ==> old(self).entries()[j] == #[trigger] (final(self).entries()[j]),
            forall|j: int|
                0 <= j < final(self).entries().len() && #[trigger] (final(self).entries()[j].node_id_view()) == enr.node_id@ ==> {
                    let before = if j < old(self).entries().len() {
                        old(self).entries()[j].checks()
                    } else {
                        Seq::<bool>::empty()
                    };
                    let before_enr = if j < old(self).entries().len() {
                        old(self).entries()[j].enr_view()
                    } else {
                        enr@
                    };
                    let before_radius = if j < old(self).entries().len() {
                        old(self).entries()[j].radius_value()
                    } else {
                        0
                    };
                    &&& final(self).entries()[j].checks() == record_outcome(before, false)
                    &&& final(self).entries()[j].radius_value() == before_radius
                    &&& final(self).entries()[j].enr_view() == before_enr
                    &&& obsolete == crate::peer::obsolete(final(self).entries()[j].checks())
                },
    {
        let i = self.entry(enr);
        let ghost mid = self.peers@;
        let mut peer = self.peers.remove(i);
        peer.record_failed_liveness_check();
        let obsolete = peer.is_obsolete();
        self.peers.insert(i, peer);
        proof {
            assert forall|j: int| 0 <= j < self.peers@.len() && j != i implies self.peers@[j]
                == mid[j] by {
            }
            assert forall|j: int|
                0 <= j < self.peers@.len() && #[trigger] self.peers@[j].node_id_view()
                    == enr.node_id@ implies j == i by {
                if j != i {
                    assert(mid[j].node_id_view() == enr.node_id@);
                    assert(mid[i as int].node_id_view() == enr.node_id@);
                }
            }
        }
        obsolete
    }

    /// The sort keys of all peers relative to the target, and the given
    /// flag of each.
    fn keys_to(&self, target: &[u8; 32], serving: bool) -> (r: (Vec<u32>, Vec<bool>))
        ensures
            r.0@ == peer_keys(self.entries(), target@),
            !serving ==> r.1@ == alive_flags(self.entries()),
            serving ==> r.1@ == serving_flags(self.entries(), target@),
    {
        let mut keys: Vec<u32> = Vec::new();
        let mut flags: Vec<bool> = Vec::new();
        let mut i: usize = 0;
        while i < self.peers.len()
            invariant
                0 <= i <= self.peers@.len(),
                keys@ == peer_keys(self.entries(), target@).take(i as int),
                !serving ==> flags@ == alive_flags(self.entries()).take(i as int),
                serving ==> flags@ == serving_flags(self.entries(), target@).take(i as int),
            decreases self.peers@.len() - i,
        {
            let peer = &self.peers[i];
            let key = XorMetric::distance(&peer.node_id().raw, target).big_endian_u32();
            keys.push(key);
            if serving {
                flags.push(peer.is_alive() && peer.is_content_within_radius(target));
            } else {
                flags.push(peer.is_alive());
            }
            proof {
                assert(keys@ =~= peer_keys(self.entries(), target@).take(i + 1));
                if serving {
                    assert(flags@ =~= serving_flags(self.entries(), target@).take(i + 1));
                } else {
                    assert(flags@ =~= alive_flags(self.entries()).take(i + 1));
                }
            }
            i = i + 1;
        }
        proof {
            assert(keys@ =~= peer_keys(self.entries(), target@));
            if serving {
                assert(flags@ =~= serving_flags(self.entries(), target@));
            } else {
                assert(flags@ =~= alive_flags(self.entries()));
            }
        }
        (keys, flags)
    }

    /// The records of up to `count` alive peers closest to the target,
    /// closest first (by the top 32 bits of the XOR distance, ties in table
    /// order).
    pub fn closest_peers(&self, target: &NodeId, count: usize) -> (r: Vec<Enr>)
        ensures
            exists|sel: Seq<usize>|
                {
                    &&& is_stable_selection(
                        peer_keys(self.entries(), target@),
                        alive_flags(self.entries()),
                        count as nat,
                        sel,
                    )
                    &&& r@.len() == sel.len()
                    &&& forall|i: int|
                        0 <= i < sel.len() ==> #[trigger] r@[i]@ == self.entries()[sel[i] as int].enr_view()
                },
    {
        let (keys, flags) = self.keys_to(&target.raw, false);
        let sel = stable_selection(&keys, &flags, count);
        let mut r: Vec<Enr> = Vec::new();
        let mut i: usize = 0;
        while i < sel.len()
            invariant
                0 <= i <= sel@.len(),
                is_stable_selection(keys@, flags@, count as nat, sel@),
                keys@ == peer_keys(self.entries(), target@),
                flags@ == alive_flags(self.entries()),
                keys@.len() == self.entries().len(),
                r@.len() == i,
                forall|j: int|
                    0 <= j < i ==> #[trigger] r@[j]@ == self.entries()[sel@[j] as int].enr_view(),
            decreases sel@.len() - i,
        {
            r.push(self.peers[sel[i]].enr());
            i = i + 1;
        }
        assert(is_stable_selection(
            peer_keys(self.entries(), target@),
            alive_flags(self.entries()),
            count as nat,
            sel@,
        ));
        r
    }

    /// The records and radii of all alive peers whose radius covers the
    /// content id, closest first (by the top 32 bits of the XOR distance,
    /// ties in table order).
    pub fn select_peers(&self, content_id: &[u8; 32]) -> (r: Vec<(Enr, Distance)>)
        ensures
            exists|sel: Seq<usize>|
                {
                    &&& is_stable_selection(
                        peer_keys(self.entries(), content_id@),
                        serving_flags(self.entries(), content_id@),
                        self.entries().len(),
                        sel,
                    )
                    &&& r@.len() == sel.len()
                    &&& forall|i: int|
                        0 <= i < sel.len() ==> {
                            &&& #[trigger] r@[i].0@ == self.entries()[sel[i] as int].enr_view()
                            &&& r@[i].1.value() == self.entries()[sel[i] as int].radius_value()
                        }
                },
    {
        let (keys, flags) = self.keys_to(content_id, true);
        let sel = stable_selection(&keys, &flags, self.peers.len());
        let mut r: Vec<(Enr, Distance)> = Vec::new();
        let mut i: usize = 0;
        while i < sel.len()
            invariant
                0 <= i <= sel@.len(),
                is_stable_selection(keys@, flags@, self.entries().len(), sel@),
                keys@.len() == self.entries().len(),
                r@.len() == i,
                forall|j: int|
                    0 <= j < i ==> {
                        &&& #[trigger] r@[j].0@ == self.entries()[sel@[j] as int].enr_view()
                        &&& r@[j].1.value() == self.entries()[sel@[j] as int].radius_value()
                    },
            decreases sel@.len() - i,
        {
            let peer = &self.peers[sel[i]];
            r.push((peer.enr(), peer.radius()));
            i = i + 1;
        }
        r
    }

    /// The records and radii of all alive peers, in table order.
    pub fn get_all_alive(&self) -> (r: Vec<(Enr, Distance)>)
        ensures
            exists|sel: Seq<usize>|
                {
                    &&& is_stable_selection(
                        zero_keys(self.entries().len()),
                        alive_flags(self.entries()),
                        self.entries().len(),
                        sel,
                    )
                    &&& r@.len() == sel.len()
                    &&& forall|i: int|
                        0 <= i < sel.len() ==> {
                            &&& #[trigger] r@[i].0@ == self.entries()[sel[i] as int].enr_view()
                            &&& r@[i].1.value() == self.entries()[sel[i] as int].radius_value()
                        }
                },
    {
        let (_keys, flags) = self.keys_to(&[0u8; 32], false);
        let mut keys: Vec<u32> = Vec::new();
        let mut i: usize = 0;
        while i < self.peers.len()
            invariant
                0 <= i <= self.peers@.len(),
                keys@ == Seq::new(i as nat, |j: int| 0u32),
            decreases self.peers@.len() - i,
        {
            keys.push(0);
            assert(keys@ =~= Seq::new((i + 1) as nat, |j: int| 0u32));
            i = i + 1;
        }
        let sel = stable_selection(&keys, &flags, self.peers.len());
        let mut r: Vec<(Enr, Distance)> = Vec::new();
        let mut i: usize = 0;
        while i < sel.len()
            invariant
                0 <= i <= sel@.len(),
                is_stable_selection(keys@, flags@, self.entries().len(), sel@),
                keys@ == zero_keys(self.entries().len()),
                flags@ == alive_flags(self.entries()),
                r@.len() == i,
                forall|j: int|
                    0 <= j < i ==> {
                        &&& #[trigger] r@[j].0@ == self.entries()[sel@[j] as int].enr_view()
                        &&& r@[j].1.value() == self.entries()[sel@[j] as int].radius_value()
                    },
            decreases sel@.len() - i,
        {
            let peer = &self.peers[sel[i]];
            r.push((peer.enr(), peer.radius()));
            i = i + 1;
        }
        r
    }
}

proof fn lemma_peer_key(s: Seq<Peer>, target: Seq<u8>, i: int)
    requires
        0 <= i < s.len(),
    ensures
        peer_keys(s, target)[i] as nat == be_value(
            Seq::new(32, |x: int| s[i].node_id_view()[x] ^ target[x]).take(4),
        ),
{
    let n = s[i].node_id_view();
    assert(xor_seq(n, target) =~= Seq::new(32, |x: int| n[x] ^ target[x]));
    crate::distance::lemma_top_bytes_bound(xor_seq(n, target).take(4));
}

/// The peers `closest_peers` picks (positions `sel` of the table): at most
/// `count` of them, all alive, ordered by the top 32 bits of the XOR
/// distance between their node id and the target; an alive peer left out
/// is no closer (by that measure) than any picked one, and is left out only
/// when `count` peers were picked.
pub proof fn law_closest_peers_by_xor_distance(p: Peers, target: Seq<u8>, count: nat, sel: Seq<usize>)
    requires
        is_stable_selection(peer_keys(p.entries(), target), alive_flags(p.entries()), count, sel),
    ensures
        sel.len() <= count,
        forall|a: int|
            0 <= a < sel.len() ==> #[trigger] sel[a] < p.entries().len() && alive(
                p.entries()[sel[a] as int].checks(),
            ),
        forall|a: int, b: int|
            #![trigger sel[a], sel[b]]
            0 <= a <= b < sel.len() ==> be_value(
                Seq::new(32, |x: int| p.entries()[sel[a] as int].node_id_view()[x] ^ target[x]).take(4),
            ) <= be_value(
                Seq::new(32, |x: int| p.entries()[sel[b] as int].node_id_view()[x] ^ target[x]).take(4),
            ),
        forall|k: int, a: int|
            #![trigger p.entries()[k], sel[a]]
            0 <= k < p.entries().len() && alive(p.entries()[k].checks()) && !selected(sel, k) && 0 <= a
                < sel.len() ==> sel.len() == count && be_value(
                Seq::new(32, |x: int| p.entries()[sel[a] as int].node_id_view()[x] ^ target[x]).take(4),
            ) <= be_value(Seq::new(32, |x: int| p.entries()[k].node_id_view()[x] ^ target[x]).take(4)),
{
    let e = p.entries();
    let keys = peer_keys(e, target);
    let flags = alive_flags(e);
    lemma_selection_order(keys, flags, count, sel);
    assert forall|a: int| 0 <= a < sel.len() implies #[trigger] sel[a] < e.len() && alive(e[sel[a] as int].checks()) by {
        assert(flags[sel[a] as int]);
    }
    assert forall|a: int, b: int|
        #![trigger sel[a], sel[b]]
        0 <= a <= b < sel.len() implies be_value(
            Seq::new(32, |x: int| e[sel[a] as int].node_id_view()[x] ^ target[x]).take(4),
        ) <= be_value(Seq::new(32, |x: int| e[sel[b] as int].node_id_view()[x] ^ target[x]).take(4)) by {
        lemma_peer_key(e, target, sel[a] as int);
        lemma_peer_key(e, target, sel[b] as int);
        assert(keys[sel[a] as int] <= keys[sel[b] as int]);
    }
    assert forall|k: int, a: int|
        #![trigger e[k], sel[a]]
        0 <= k < e.len() && alive(e[k].checks()) && !selected(sel, k) && 0 <= a < sel.len() implies sel.len()
            == count && be_value(
            Seq::new(32, |x: int| e[sel[a] as int].node_id_view()[x] ^ target[x]).take(4),
        ) <= be_value(Seq::new(32, |x: int| e[k].node_id_view()[x] ^ target[x]).take(4)) by {
        assert(flags[k]);
        lemma_peer_key(e, target, sel[a] as int);
        lemma_peer_key(e, target, k);
        assert(keys[sel[a] as int] <= keys[k]);
    }
}

/// The peers `select_peers` picks (positions `sel` of the table): each is
/// alive and its radius covers the content id (the XOR distance between its
/// node id and the content id is at most its radius); they are ordered by
/// the top 32 bits of that distance, and an alive peer whose radius covers
/// the content but that was left out is no closer than any picked one.
pub proof fn law_select_peers_by_xor_distance(p: Peers, content_id: Seq<u8>, sel: Seq<usize>)
    requires
        is_stable_selection(
            peer_keys(p.entries(), content_id),
            serving_flags(p.entries(), content_id),
            p.entries().len(),
            sel,
        ),
    ensures
        forall|a: int|
            0 <= a < sel.len() ==> #[trigger] sel[a] < p.entries().len() && alive(
                p.entries()[sel[a] as int].checks(),
            ) && be_value(
                Seq::new(32, |x: int| p.entries()[sel[a] as int].node_id_view()[x] ^ content_id[x]),
            ) <= p.entries()[sel[a] as int].radius_value(),
        forall|a: int, b: int|
            #![trigger sel[a], sel[b]]
            0 <= a <= b < sel.len() ==> be_value(
                Seq::new(32, |x: int| p.entries()[sel[a] as int].node_id_view()[x] ^ content_id[x]).take(4),
            ) <= be_value(
                Seq::new(32, |x: int| p.entries()[sel[b] as int].node_id_view()[x] ^ content_id[x]).take(4),
            ),
        forall|k: int, a: int|
            #![trigger p.entries()[k], sel[a]]
            0 <= k < p.entries().len() && alive(p.entries()[k].checks()) && be_value(
                Seq::new(32, |x: int| p.entries()[k].node_id_view()[x] ^ content_id[x]),
            ) <= p.entries()[k].radius_value() && !selected(sel, k) && 0 <= a < sel.len() ==> be_value(
                Seq::new(32, |x: int| p.entries()[sel[a] as int].node_id_view()[x] ^ content_id[x]).take(4),
            ) <= be_value(Seq::new(32, |x: int| p.entries()[k].node_id_view()[x] ^ content_id[x]).take(4)),
{
    let e = p.entries();
    let keys = peer_keys(e, content_id);
    let flags = serving_flags(e, content_id);
    lemma_selection_order(keys, flags, e.len(), sel);
    assert forall|a: int| 0 <= a < sel.len() implies #[trigger] sel[a] < e.len() && alive(e[sel[a] as int].checks())
        && be_value(Seq::new(32, |x: int| e[sel[a] as int].node_id_view()[x] ^ content_id[x]))
        <= e[sel[a] as int].radius_value() by {
        assert(flags[sel[a] as int]);
        let n = e[sel[a] as int].node_id_view();
        assert(xor_seq(n, content_id) =~= Seq::new(32, |x: int| n[x] ^ content_id[x]));
    }
    assert forall|a: int, b: int|
        #![trigger sel[a], sel[b]]
        0 <= a <= b < sel.len() implies be_value(
            Seq::new(32, |x: int| e[sel[a] as int].node_id_view()[x] ^ content_id[x]).take(4),
        ) <= be_value(Seq::new(32, |x: int| e[sel[b] as int].node_id_view()[x] ^ content_id[x]).take(4)) by {
        lemma_peer_key(e, content_id, sel[a] as int);
        lemma_peer_key(e, content_id, sel[b] as int);
        assert(keys[sel[a] as int] <= keys[sel[b] as int]);
    }
    assert forall|k: int, a: int|
        #![trigger e[k], sel[a]]
        0 <= k < e.len() && alive(e[k].checks()) && be_value(
            Seq::new(32, |x: int| e[k].node_id_view()[x] ^ content_id[x]),
        ) <= e[k].radius_value() && !selected(sel, k) && 0 <= a < sel.len() implies be_value(
            Seq::new(32, |x: int| e[sel[a] as int].node_id_view()[x] ^ content_id[x]).take(4),
        ) <= be_value(Seq::new(32, |x: int| e[k].node_id_view()[x] ^ content_id[x]).take(4)) by {
        let n = e[k].node_id_view();
        assert(xor_seq(n, content_id) =~= Seq::new(32, |x: int| n[x] ^ content_id[x]));
        assert(flags[k]);
        lemma_peer_key(e, content_id, sel[a] as int);
        lemma_peer_key(e, content_id, k);
        assert(keys[sel[a] as int] <= keys[k]);
    }
}

} // verus!
