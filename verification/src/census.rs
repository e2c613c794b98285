use vstd::prelude::*;

use crate::distance::{Distance, NodeId};
use crate::enr::{Enr, EnrView};
use crate::peer::{obsolete, record_outcome};
use crate::peers::{has_node, Peers};

verus! {

/// The result of a liveness check.
#[derive(Clone, Copy, Debug, PartialEq, Eq, Structural)]
pub enum LivenessResult {
    /// The peer answered the ping.
    Pass,
    /// The peer could not be pinged.
    Fail,
    /// The peer is known and needs no liveness check yet.
    Fresh,
}

/// An error of the census.
#[derive(Clone, Copy, Debug, PartialEq, Eq, Structural)]
pub enum CensusError {
    NoPeers,
    FailedInitialization,
    AlreadyInitialized,
}

impl CensusError {
    pub fn to_string(&self) -> (s: String)
        ensures
            s@ == match self {
                CensusError::NoPeers => "No peers found in Census"@,
                CensusError::FailedInitialization => "Failed to initialize Census"@,
                CensusError::AlreadyInitialized => "Census already initialized"@,
            },
    {
        match self {
            CensusError::NoPeers => "No peers found in Census".to_string(),
            CensusError::FailedInitialization => "Failed to initialize Census".to_string(),
            CensusError::AlreadyInitialized => "Census already initialized".to_string(),
        }
    }
}

/// Two record views hold the same record: same sequence number, node id and
/// signature.
pub open spec fn same_view(a: EnrView, b: EnrView) -> bool {
    a.seq == b.seq && a.node_id == b.node_id && a.signature == b.signature
}

pub open spec fn views(s: Seq<Enr>) -> Seq<EnrView> {
    s.map_values(|e: Enr| e@)
}

/// Keeps, per node id, the record with the highest sequence number; on a
/// tie the later one.
pub open spec fn keep_latest(acc: Seq<EnrView>, e: EnrView) -> Seq<EnrView> {
    if exists|k: int| 0 <= k < acc.len() && acc[k].node_id == e.node_id {
        let k = choose|k: int| 0 <= k < acc.len() && acc[k].node_id == e.node_id;
        if acc[k].seq <= e.seq {
            acc.update(k, e)
        } else {
            acc
        }
    } else {
        acc.push(e)
    }
}

/// One record per node id, in order of first appearance: the one with the
/// highest sequence number, the last of those on a tie.
pub open spec fn latest(s: Seq<EnrView>) -> Seq<EnrView>
    decreases s.len(),
{
    if s.len() == 0 {
        Seq::empty()
    } else {
        keep_latest(latest(s.drop_last()), s.last())
    }
}

pub open spec fn distinct_nodes(s: Seq<EnrView>) -> bool {
    forall|a: int, b: int| 0 <= a < b < s.len() ==> s[a].node_id != s[b].node_id
}

/// The census: every peer found on the network and its liveness history.
pub struct Census {
    peers: Peers,
}

impl Census {
    pub closed spec fn peer_table(&self) -> Peers {
        self.peers
    }

    pub open spec fn wf(&self) -> bool {
        self.peer_table().wf()
    }

    /// A census that knows no peer yet.
    pub fn new() -> (c: Census)
        ensures
            c.wf(),
            c.peer_table().entries().len() == 0,
    {
        Census { peers: Peers::new() }
    }

    /// Whether the census is well formed (as every census this module
    /// makes is).
    pub fn is_well_formed(&self) -> (r: bool)
        ensures
            r == self.wf(),
    {
        self.peers.is_well_formed()
    }

    pub fn peers(&self) -> (r: &Peers)
        ensures
            *r == self.peer_table(),
    {
        &self.peers
    }

    /// The records of up to `count` alive peers closest to the target;
    /// `NoPeers` where the census knows no peer.
    pub fn closest_peers(&self, target: &NodeId, count: usize) -> (r: Result<Vec<Enr>, CensusError>)
        ensures
            r is Err <==> self.peer_table().entries().len() == 0,
            r is Err ==> r == Err::<Vec<Enr>, CensusError>(CensusError::NoPeers),
            r matches Ok(v) ==> exists|sel: Seq<usize>|
                {
                    &&& crate::selection::is_stable_selection(
                        crate::peers::peer_keys(self.peer_table().entries(), target@),
                        crate::peers::alive_flags(self.peer_table().entries()),
                        count as nat,
                        sel,
                    )
                    &&& v@.len() == sel.len()
                    &&& forall|i: int|
                        0 <= i < sel.len() ==> #[trigger] v@[i]@ == self.peer_table().entries()[sel[i] as int].enr_view()
                },
    {
        if self.peers.is_empty() {
            return Err(CensusError::NoPeers);
        }
        let v = self.peers.closest_peers(target, count);
        proof {
            let sel = choose|sel: Seq<usize>|
                {
                    &&& crate::selection::is_stable_selection(
                        crate::peers::peer_keys(self.peers.entries(), target@),
                        crate::peers::alive_flags(self.peers.entries()),
                        count as nat,
                        sel,
                    )
                    &&& v@.len() == sel.len()
                    &&& forall|i: int|
                        0 <= i < sel.len() ==> #[trigger] v@[i]@ == self.peers.entries()[sel[i] as int].enr_view()
                };
            assert(forall|i: int|
                0 <= i < sel.len() ==> #[trigger] v@[i]@ == self.peer_table().entries()[sel[i] as int].enr_view());
        }
        Ok(v)
    }

    /// The alive peers whose radius covers the content id, closest first;
    /// `NoPeers` where the census knows no peer.
    pub fn select_peers(&self, content_id: &[u8; 32]) -> (r: Result<Vec<(Enr, Distance)>, CensusError>)
        ensures
            r is Err <==> self.peer_table().entries().len() == 0,
            r is Err ==> r == Err::<Vec<(Enr, Distance)>, CensusError>(CensusError::NoPeers),
            r matches Ok(v) ==> exists|sel: Seq<usize>|
                {
                    &&& crate::selection::is_stable_selection(
                        crate::peers::peer_keys(self.peer_table().entries(), content_id@),
                        crate::peers::serving_flags(self.peer_table().entries(), content_id@),
                        self.peer_table().entries().len(),
                        sel,
                    )
                    &&& v@.len() == sel.len()
                    &&& forall|i: int|
                        0 <= i < sel.len() ==> {
                            &&& #[trigger] v@[i].0@ == self.peer_table().entries()[sel[i] as int].enr_view()
                            &&& v@[i].1.value() == self.peer_table().entries()[sel[i] as int].radius_value()
                        }
                },
    {
        if self.peers.is_empty() {
            return Err(CensusError::NoPeers);
        }
        let v = self.peers.select_peers(content_id);
        proof {
            let sel = choose|sel: Seq<usize>|
                {
                    &&& crate::selection::is_stable_selection(
                        crate::peers::peer_keys(self.peers.entries(), content_id@),
                        crate::peers::serving_flags(self.peers.entries(), content_id@),
                        self.peers.entries().len(),
                        sel,
                    )
                    &&& v@.len() == sel.len()
                    &&& forall|i: int|
                        0 <= i < sel.len() ==> {
                            &&& #[trigger] v@[i].0@ == self.peers.entries()[sel[i] as int].enr_view()
                            &&& v@[i].1.value() == self.peers.entries()[sel[i] as int].radius_value()
                        }
                };
            assert(forall|i: int|
                0 <= i < sel.len() ==> {
                    &&& #[trigger] v@[i].0@ == self.peer_table().entries()[sel[i] as int].enr_view()
                    &&& v@[i].1.value() == self.peer_table().entries()[sel[i] as int].radius_value()
                });
        }
        Ok(v)
    }

    /// The outcome of the initial discovery: it failed where no peer was
    /// found.
    pub fn init_result(&self) -> (r: Result<(), CensusError>)
        ensures
            r is Err <==> self.peer_table().entries().len() == 0,
            r is Err ==> r == Err::<(), CensusError>(CensusError::FailedInitialization),
    {
        if self.peers.is_empty() {
            Err(CensusError::FailedInitialization)
        } else {
            Ok(())
        }
    }

    /// Whether a peer's record must be fetched again: the pong announced a
    /// higher sequence number than the known record's.
    pub fn needs_fresh_enr(known: &Enr, pong_enr_seq: u64) -> (r: bool)
        ensures
            r == (known.seq < pong_enr_seq),
    {
        known.seq < pong_enr_seq
    }

    /// A liveness check that failed (no pong, no record, or no radius in the
    /// pong): records the failure. Returns `Fail` and whether the peer is now
    /// obsolete (it then needs no further checks).
    pub fn liveness_check_failed(&mut self, enr: &Enr) -> (r: (LivenessResult, bool))
        requires
            old(self).wf(),
        ensures
            final(self).wf(),
            r.0 == LivenessResult::Fail,
            forall|j: int|
                0 <= j < final(self).peer_table().entries().len() && #[trigger] final(self).peer_table().entries()[j].node_id_view()
                    == enr.node_id@ ==> {
                    let before = if j < old(self).peer_table().entries().len() {
                        old(self).peer_table().entries()[j].checks()
                    } else {
                        Seq::<bool>::empty()
                    };
                    &&& final(self).peer_table().entries()[j].checks() == record_outcome(before, false)
                    &&& r.1 == obsolete(final(self).peer_table().entries()[j].checks())
                },
            forall|j: int|
                0 <= j < old(self).peer_table().entries().len() && old(self).peer_table().entries()[j].node_id_view()
                    != enr.node_id@ ==> old(self).peer_table().entries()[j] == #[trigger] (final(self).peer_table().entries()[j]),
            final(self).peer_table().entries().len() == old(self).peer_table().entries().len() + (
            if has_node(old(self).peer_table().entries(), enr.node_id@) {
                0int
            } else {
                1int
            }),
    {
        let obsolete = self.peers.record_failed_liveness_check(enr);
        (LivenessResult::Fail, obsolete)
    }

    /// A liveness check that got a pong: with the radius announced in the
    /// pong it passes and is recorded as a success; without one it fails as
    /// in [`Census::liveness_check_failed`].
    pub fn liveness_check_answered(&mut self, enr: &Enr, radius: Option<Distance>) -> (r: (
        LivenessResult,
        bool,
    ))
        requires
            old(self).wf(),
        ensures
            final(self).wf(),
            radius is Some <==> r.0 == LivenessResult::Pass,
            radius is None <==> r.0 == LivenessResult::Fail,
            radius is Some ==> !r.1,
            forall|j: int|
                0 <= j < final(self).peer_table().entries().len() && #[trigger] final(self).peer_table().entries()[j].node_id_view()
                    == enr.node_id@ ==> {
                    let before = if j < old(self).peer_table().entries().len() {
                        old(self).peer_table().entries()[j].checks()
                    } else {
                        Seq::<bool>::empty()
                    };
                    &&& final(self).peer_table().entries()[j].checks() == record_outcome(before, radius is Some)
                    &&& radius is Some ==> final(self).peer_table().entries()[j].radius_value() == radius->0.value()
                    &&& radius is None ==> r.1 == obsolete(final(self).peer_table().entries()[j].checks())
                },
            forall|j: int|
                0 <= j < old(self).peer_table().entries().len() && old(self).peer_table().entries()[j].node_id_view()
                    != enr.node_id@ ==> old(self).peer_table().entries()[j] == #[trigger] (final(self).peer_table().entries()[j]),
    {
        match radius {
            Some(r) => {
                self.peers.record_successful_liveness_check(enr, r);
                proof {
                    assert forall|j: int|
                        0 <= j < self.peers.entries().len() && #[trigger] self.peers.entries()[j].node_id_view()
                            == enr.node_id@ implies !obsolete(self.peers.entries()[j].checks()) by {
                        let before = if j < old(self).peers.entries().len() {
                            old(self).peers.entries()[j].checks()
                        } else {
                            Seq::<bool>::empty()
                        };
                        crate::peer::law_success_makes_alive(before);
                    }
                }
                (LivenessResult::Pass, false)
            },
            None => self.liveness_check_failed(enr),
        }
    }

    /// The discovered records whose node id the census does not know yet.
    pub fn unknown_peers(&self, discovered: Vec<Enr>) -> (r: Vec<Enr>)
        ensures
            views(r@) == views(discovered@).filter(
                |e: EnrView| !has_node(self.peer_table().entries(), e.node_id),
            ),
    {
        let ghost input = views(discovered@);
        let ghost keep = |e: EnrView| !has_node(self.peer_table().entries(), e.node_id);
        let mut out: Vec<Enr> = Vec::new();
        let mut i: usize = 0;
        while i < discovered.len()
            invariant
                0 <= i <= discovered@.len(),
                input == views(discovered@),
                keep == (|e: EnrView| !has_node(self.peer_table().entries(), e.node_id)),
                views(out@) == input.take(i as int).filter(keep),
            decreases discovered@.len() - i,
        {
            let ghost before = out@;
            let known = self.peers.get_peer(&discovered[i].node_id).is_some();
            if !known {
                out.push(discovered[i].duplicate());
            }
            proof {
                reveal(Seq::filter);
                assert(input.take(i + 1).drop_last() =~= input.take(i as int));
                assert(input.take(i + 1).last() == discovered@[i as int]@);
                assert(views(out@) =~= if !known { views(before).push(discovered@[i as int]@) } else { views(before) });
            }
            i = i + 1;
        }
        assert(input.take(discovered@.len() as int) =~= input);
        out
    }
}

fn position_by_node(v: &Vec<Enr>, node_id: &NodeId) -> (r: Option<usize>)
    ensures
        match r {
            Some(k) => k < v@.len() && v@[k as int].node_id@ == node_id@,
            None => forall|j: int| 0 <= j < v@.len() ==> v@[j].node_id@ != node_id@,
        },
{
    let mut k: usize = 0;
    while k < v.len()
        invariant
            0 <= k <= v@.len(),
            forall|j: int| 0 <= j < k ==> v@[j].node_id@ != node_id@,
        decreases v@.len() - k,
    {
        if v[k].node_id.same(node_id) {
            return Some(k);
        }
        k = k + 1;
    }
    None
}

/// One record per node id out of the discovered records: the one with the
/// highest sequence number (the last of those on a tie), in order of first
/// appearance of the node id.
pub fn latest_records(enrs: Vec<Enr>) -> (r: Vec<Enr>)
    ensures
        views(r@) == latest(views(enrs@)),
        distinct_nodes(views(r@)),
{
    let ghost input = views(enrs@);
    let mut out: Vec<Enr> = Vec::new();
    let mut i: usize = 0;
    proof {
        assert(input.take(0) =~= Seq::<EnrView>::empty());
        assert(views(out@) =~= Seq::<EnrView>::empty());
    }
    while i < enrs.len()
        invariant
            0 <= i <= enrs@.len(),
            input == views(enrs@),
            views(out@) == latest(input.take(i as int)),
            distinct_nodes(views(out@)),
        decreases enrs@.len() - i,
    {
        let e = &enrs[i];
        let ghost acc = views(out@);
        proof {
            assert(input.take(i + 1).drop_last() =~= input.take(i as int));
            assert(input.take(i + 1).last() == e@);
        }
        let pos = position_by_node(&out, &e.node_id);
        if pos.is_some() {
            let k = pos.unwrap();
            proof {
                let c = choose|c: int| 0 <= c < acc.len() && acc[c].node_id == e@.node_id;
                if c != k {
                    if c < k {
                        assert(acc[c].node_id != acc[k as int].node_id);
                    } else {
                        assert(acc[k as int].node_id != acc[c].node_id);
                    }
                }
            }
            if out[k].seq <= e.seq {
                out.set(k, e.duplicate());
                proof {
                    assert(views(out@) =~= acc.update(k as int, e@));
                }
            }
        } else {
            out.push(e.duplicate());
            proof {
                assert forall|c: int| 0 <= c < acc.len() implies acc[c].node_id != e@.node_id by {
                    assert(acc[c] == out@[c]@);
                }
                assert(views(out@) =~= acc.push(e@));
            }
        }
        i = i + 1;
    }
    assert(input.take(enrs@.len() as int) =~= input);
    out
}

/// Adds a (record, target) pair to the groups: to the group of the same
/// record, or as a new group at the end.
pub open spec fn group_add(acc: Seq<(EnrView, Seq<Seq<u8>>)>, e: (EnrView, Seq<u8>)) -> Seq<
    (EnrView, Seq<Seq<u8>>),
> {
    if exists|k: int| 0 <= k < acc.len() && same_view(acc[k].0, e.0) {
        let k = choose|k: int| 0 <= k < acc.len() && same_view(acc[k].0, e.0);
        acc.update(k, (acc[k].0, acc[k].1.push(e.1)))
    } else {
        acc.push((e.0, seq![e.1]))
    }
}

/// The targets of each record, grouped by record (the first value of each
/// record names the group), groups and targets in order of appearance.
pub open spec fn grouped(s: Seq<(EnrView, Seq<u8>)>) -> Seq<(EnrView, Seq<Seq<u8>>)>
    decreases s.len(),
{
    if s.len() == 0 {
        Seq::empty()
    } else {
        group_add(grouped(s.drop_last()), s.last())
    }
}

pub open spec fn pair_views(s: Seq<(Enr, NodeId)>) -> Seq<(EnrView, Seq<u8>)> {
    s.map_values(|p: (Enr, NodeId)| (p.0@, p.1@))
}

pub open spec fn group_views(s: Seq<(Enr, Vec<NodeId>)>) -> Seq<(EnrView, Seq<Seq<u8>>)> {
    s.map_values(|g: (Enr, Vec<NodeId>)| (g.0@, g.1@.map_values(|n: NodeId| n@)))
}

pub open spec fn distinct_records(s: Seq<(EnrView, Seq<Seq<u8>>)>) -> bool {
    forall|a: int, b: int| 0 <= a < b < s.len() ==> !same_view(s[a].0, s[b].0)
}

fn position_of_record(v: &Vec<(Enr, Vec<NodeId>)>, e: &Enr) -> (r: Option<usize>)
    ensures
        match r {
            Some(k) => k < v@.len() && same_view(v@[k as int].0@, e@),
            None => forall|j: int| 0 <= j < v@.len() ==> !same_view(v@[j].0@, e@),
        },
{
    let mut k: usize = 0;
    while k < v.len()
        invariant
            0 <= k <= v@.len(),
            forall|j: int| 0 <= j < k ==> !same_view(v@[j].0@, e@),
        decreases v@.len() - k,
    {
        if v[k].0.same_record(e) {
            return Some(k);
        }
        k = k + 1;
    }
    None
}

/// Groups the targets that each peer was asked about by the peer's record.
pub fn group_by_peer(pairs: Vec<(Enr, NodeId)>) -> (r: Vec<(Enr, Vec<NodeId>)>)
    ensures
        group_views(r@) == grouped(pair_views(pairs@)),
        distinct_records(group_views(r@)),
{
    let ghost input = pair_views(pairs@);
    let mut out: Vec<(Enr, Vec<NodeId>)> = Vec::new();
    let mut i: usize = 0;
    proof {
        assert(input.take(0) =~= Seq::<(EnrView, Seq<u8>)>::empty());
        assert(group_views(out@) =~= Seq::<(EnrView, Seq<Seq<u8>>)>::empty());
    }
    while i < pairs.len()
        invariant
            0 <= i <= pairs@.len(),
            input == pair_views(pairs@),
            group_views(out@) == grouped(input.take(i as int)),
            distinct_records(group_views(out@)),
        decreases pairs@.len() - i,
    {
        let e = &pairs[i].0;
        let id = pairs[i].1;
        let ghost acc = group_views(out@);
        proof {
            assert(input.take(i + 1).drop_last() =~= input.take(i as int));
            assert(input.take(i + 1).last() == (e@, id@));
        }
        let pos = position_of_record(&out, e);
        match pos {
            Some(k) => {
                proof {
                    let c = choose|c: int| 0 <= c < acc.len() && same_view(acc[c].0, e@);
                    if c != k {
                        if c < k {
                            assert(!same_view(acc[c].0, acc[k as int].0));
                        } else {
                            assert(!same_view(acc[k as int].0, acc[c].0));
                        }
                    }
                }
                let (key, mut ids) = out.remove(k);
                let ghost ids_before = ids@;
                ids.push(id);
                proof {
                    assert(ids@.map_values(|n: NodeId| n@) =~= ids_before.map_values(|n: NodeId| n@).push(id@));
                }
                out.insert(k, (key, ids));
                proof {
                    assert(group_views(out@) =~= acc.update(k as int, (acc[k as int].0, acc[k as int].1.push(id@))));
                }
            },
            None => {
                let mut ids: Vec<NodeId> = Vec::new();
                ids.push(id);
                proof {
                    assert(ids@.map_values(|n: NodeId| n@) =~= seq![id@]);
                }
                out.push((e.duplicate(), ids));
                proof {
                    assert forall|c: int| 0 <= c < acc.len() implies !same_view(acc[c].0, e@) by {
                        assert(acc[c].0 == out@[c].0@);
                    }
                    assert(group_views(out@) =~= acc.push((e@, seq![id@])));
                }
            },
        }
        i = i + 1;
    }
    assert(input.take(pairs@.len() as int) =~= input);
    out
}

/// Every node id of the input keeps a record.
pub proof fn lemma_latest_covers(s: Seq<EnrView>)
    ensures
        forall|i: int|
            #![trigger s[i]]
            0 <= i < s.len() ==> exists|k: int| 0 <= k < latest(s).len() && latest(s)[k].node_id == s[i].node_id,
    decreases s.len(),
{
    if s.len() > 0 {
        let p = s.drop_last();
        lemma_latest_covers(p);
        let acc = latest(p);
        let e = s.last();
        let out = latest(s);
        assert forall|i: int| #![trigger s[i]] 0 <= i < s.len() implies exists|k: int|
            0 <= k < out.len() && out[k].node_id == s[i].node_id by {
            if exists|c: int| 0 <= c < acc.len() && acc[c].node_id == e.node_id {
                let c = choose|c: int| 0 <= c < acc.len() && acc[c].node_id == e.node_id;
                if i < p.len() {
                    assert(s[i] == p[i]);
                    let k = choose|k: int| 0 <= k < acc.len() && acc[k].node_id == p[i].node_id;
                    assert(out[k].node_id == acc[k].node_id);
                } else {
                    assert(out[c].node_id == e.node_id);
                }
            } else {
                if i < p.len() {
                    assert(s[i] == p[i]);
                    let k = choose|k: int| 0 <= k < acc.len() && acc[k].node_id == p[i].node_id;
                    assert(out[k] == acc[k]);
                } else {
                    assert(out[acc.len() as int] == e);
                }
            }
        }
    }
}

/// Every kept record is one of the input records.
pub proof fn lemma_latest_from_input(s: Seq<EnrView>)
    ensures
        forall|k: int|
            #![trigger latest(s)[k]]
            0 <= k < latest(s).len() ==> exists|i: int| 0 <= i < s.len() && s[i] == latest(s)[k],
    decreases s.len(),
{
    if s.len() > 0 {
        let p = s.drop_last();
        lemma_latest_from_input(p);
        let acc = latest(p);
        let e = s.last();
        let out = latest(s);
        assert forall|k: int| #![trigger out[k]] 0 <= k < out.len() implies exists|i: int|
            0 <= i < s.len() && s[i] == out[k] by {
            if out[k] == e {
                assert(s[s.len() - 1] == out[k]);
            } else {
                assert(k < acc.len() && out[k] == acc[k]);
                let i = choose|i: int| 0 <= i < p.len() && p[i] == acc[k];
                assert(s[i] == p[i]);
            }
        }
    }
}

/// The record kept for a node id has the highest sequence number among all
/// records of that node id.
pub proof fn lemma_latest_highest(s: Seq<EnrView>)
    ensures
        forall|i: int, k: int|
            0 <= i < s.len() && 0 <= k < latest(s).len() && #[trigger] s[i].node_id
                == #[trigger] latest(s)[k].node_id ==> s[i].seq <= latest(s)[k].seq,
    decreases s.len(),
{
    if s.len() > 0 {
        let p = s.drop_last();
        lemma_latest_highest(p);
        lemma_latest_covers(p);
        lemma_latest_distinct(p);
        let acc = latest(p);
        let e = s.last();
        let out = latest(s);
        assert forall|i: int, k: int|
            0 <= i < s.len() && 0 <= k < out.len() && #[trigger] s[i].node_id
                == #[trigger] out[k].node_id implies s[i].seq <= out[k].seq by {
            if exists|c: int| 0 <= c < acc.len() && acc[c].node_id == e.node_id {
                let c = choose|c: int| 0 <= c < acc.len() && acc[c].node_id == e.node_id;
                if k != c {
                    assert(out[k] == acc[k]);
                    if i < p.len() {
                        assert(s[i] == p[i]);
                    } else {
                        assert(acc[k].node_id == acc[c].node_id);
                        assert(false) by {
                            if k < c {
                                assert(acc[k].node_id != acc[c].node_id);
                            } else {
                                assert(acc[c].node_id != acc[k].node_id);
                            }
                        }
                    }
                } else if i < p.len() {
                    assert(s[i] == p[i]);
                    assert(p[i].node_id == acc[c].node_id);
                    assert(p[i].seq <= acc[c].seq);
                }
            } else {
                if k < acc.len() {
                    assert(out[k] == acc[k]);
                    if i < p.len() {
                        assert(s[i] == p[i]);
                    }
                } else {
                    assert(out[k] == e);
                    if i < p.len() {
                        assert(s[i] == p[i]);
                        let k2 = choose|k2: int| 0 <= k2 < acc.len() && acc[k2].node_id == p[i].node_id;
                        assert(acc[k2].node_id == e.node_id);
                    }
                }
            }
        }
    }
}

/// Among records of the kept record's node id with its sequence number, the
/// kept one comes last: it occurs in the input at or after each of them.
pub proof fn lemma_latest_last_on_tie(s: Seq<EnrView>)
    ensures
        forall|i: int, k: int|
            0 <= i < s.len() && 0 <= k < latest(s).len() && #[trigger] s[i].node_id
                == #[trigger] latest(s)[k].node_id && s[i].seq == latest(s)[k].seq ==> exists|j: int|
                i <= j < s.len() && s[j] == latest(s)[k],
    decreases s.len(),
{
    if s.len() > 0 {
        let p = s.drop_last();
        lemma_latest_last_on_tie(p);
        lemma_latest_distinct(p);
        let acc = latest(p);
        let e = s.last();
        let out = latest(s);
        let last = s.len() - 1;
        assert(s[last] == e);
        assert forall|i: int, k: int|
            0 <= i < s.len() && 0 <= k < out.len() && #[trigger] s[i].node_id == #[trigger] out[k].node_id
                && s[i].seq == out[k].seq implies exists|j: int| i <= j < s.len() && s[j] == out[k] by {
            if exists|c: int| 0 <= c < acc.len() && acc[c].node_id == e.node_id {
                let c = choose|c: int| 0 <= c < acc.len() && acc[c].node_id == e.node_id;
                if k == c && acc[c].seq <= e.seq {
                    assert(out[k] == e);
                } else {
                    assert(out[k] == acc[k]);
                    if i < p.len() {
                        assert(s[i] == p[i]);
                        assert(p[i].node_id == acc[k].node_id && p[i].seq == acc[k].seq);
                        let j = choose|j: int| i <= j < p.len() && p[j] == acc[k];
                        assert(s[j] == p[j]);
                    } else if k != c {
                        assert(false) by {
                            if k < c {
                                assert(acc[k].node_id != acc[c].node_id);
                            } else {
                                assert(acc[c].node_id != acc[k].node_id);
                            }
                        }
                    }
                }
            } else {
                if k < acc.len() {
                    assert(out[k] == acc[k]);
                    if i < p.len() {
                        assert(s[i] == p[i]);
                        assert(p[i].node_id == acc[k].node_id && p[i].seq == acc[k].seq);
                        let j = choose|j: int| i <= j < p.len() && p[j] == acc[k];
                        assert(s[j] == p[j]);
                    }
                } else {
                    assert(out[k] == e);
                }
            }
        }
    }
}

/// The records kept per node id: one per node id of the input, each one of
/// the input records, with the highest sequence number of its node id, and
/// on a tie the one that came last.
pub proof fn law_latest_records(s: Seq<EnrView>)
    ensures
        distinct_nodes(latest(s)),
        forall|i: int|
            #![trigger s[i]]
            0 <= i < s.len() ==> exists|k: int| 0 <= k < latest(s).len() && latest(s)[k].node_id == s[i].node_id,
        forall|k: int|
            #![trigger latest(s)[k]]
            0 <= k < latest(s).len() ==> exists|i: int| 0 <= i < s.len() && s[i] == latest(s)[k],
        forall|i: int, k: int|
            0 <= i < s.len() && 0 <= k < latest(s).len() && #[trigger] s[i].node_id
                == #[trigger] latest(s)[k].node_id ==> s[i].seq <= latest(s)[k].seq,
        forall|i: int, k: int|
            0 <= i < s.len() && 0 <= k < latest(s).len() && #[trigger] s[i].node_id
                == #[trigger] latest(s)[k].node_id && s[i].seq == latest(s)[k].seq ==> exists|j: int|
                i <= j < s.len() && s[j] == latest(s)[k],
{
    lemma_latest_last_on_tie(s);
    lemma_latest_distinct(s);
    lemma_latest_covers(s);
    lemma_latest_from_input(s);
    lemma_latest_highest(s);
}

/// No node id occurs twice among the latest records.
pub proof fn lemma_latest_distinct(s: Seq<EnrView>)
    ensures
        distinct_nodes(latest(s)),
    decreases s.len(),
{
    if s.len() > 0 {
        lemma_latest_distinct(s.drop_last());
        let acc = latest(s.drop_last());
        let e = s.last();
        let out = latest(s);
        if !(exists|k: int| 0 <= k < acc.len() && acc[k].node_id == e.node_id) {
            assert forall|a: int, b: int| 0 <= a < b < out.len() implies out[a].node_id != out[b].node_id by {
                if b == acc.len() {
                    assert(acc[a].node_id != e.node_id);
                }
            }
        }
    }
}

/// The targets paired with a record, in input order.
pub open spec fn targets_of(s: Seq<(EnrView, Seq<u8>)>, e: EnrView) -> Seq<Seq<u8>>
    decreases s.len(),
{
    if s.len() == 0 {
        Seq::empty()
    } else if same_view(s.last().0, e) {
        targets_of(s.drop_last(), e).push(s.last().1)
    } else {
        targets_of(s.drop_last(), e)
    }
}

proof fn lemma_targets_of_absent(s: Seq<(EnrView, Seq<u8>)>, e: EnrView)
    requires
        forall|i: int| 0 <= i < s.len() ==> !same_view(#[trigger] s[i].0, e),
    ensures
        targets_of(s, e) == Seq::<Seq<u8>>::empty(),
    decreases s.len(),
{
    if s.len() > 0 {
        let t = s.drop_last();
        assert forall|i: int| 0 <= i < t.len() implies !same_view(#[trigger] t[i].0, e) by {
            assert(t[i] == s[i]);
        }
        lemma_targets_of_absent(t, e);
        assert(!same_view(s[s.len() - 1].0, e));
    }
}

/// Grouping (record, target) pairs by record gives one group per record,
/// no record twice, each pair's record among the groups, and in each group
/// exactly the targets paired with that record, in input order.
pub proof fn law_grouped_by_record(s: Seq<(EnrView, Seq<u8>)>)
    ensures
        distinct_records(grouped(s)),
        forall|k: int|
            #![trigger grouped(s)[k]]
            0 <= k < grouped(s).len() ==> grouped(s)[k].1 == targets_of(s, grouped(s)[k].0),
        forall|i: int|
            #![trigger s[i]]
            0 <= i < s.len() ==> exists|k: int| 0 <= k < grouped(s).len() && same_view(grouped(s)[k].0, s[i].0),
    decreases s.len(),
{
    if s.len() > 0 {
        let t = s.drop_last();
        let e = s.last();
        law_grouped_by_record(t);
        let acc = grouped(t);
        let out = grouped(s);
        assert forall|i: int| 0 <= i < t.len() implies #[trigger] t[i] == s[i] by {}
        if exists|k: int| 0 <= k < acc.len() && same_view(acc[k].0, e.0) {
            let k0 = choose|k: int| 0 <= k < acc.len() && same_view(acc[k].0, e.0);
            assert(out == acc.update(k0, (acc[k0].0, acc[k0].1.push(e.1))));
            assert forall|a: int, b: int| 0 <= a < b < out.len() implies !same_view(out[a].0, out[b].0) by {
                assert(out[a].0 == acc[a].0);
                assert(out[b].0 == acc[b].0);
            }
            assert forall|k: int|
                #![trigger out[k]]
                0 <= k < out.len() implies out[k].1 == targets_of(s, out[k].0) by {
                assert(acc[k].1 == targets_of(t, acc[k].0));
                if k != k0 {
                    if k < k0 {
                        assert(!same_view(acc[k].0, acc[k0].0));
                    } else {
                        assert(!same_view(acc[k0].0, acc[k].0));
                    }
                    assert(!same_view(e.0, acc[k].0));
                }
            }
            assert forall|i: int|
                #![trigger s[i]]
                0 <= i < s.len() implies exists|k: int| 0 <= k < out.len() && same_view(out[k].0, s[i].0) by {
                if i < t.len() {
                    assert(t[i] == s[i]);
                    let k = choose|k: int| 0 <= k < acc.len() && same_view(acc[k].0, t[i].0);
                    assert(out[k].0 == acc[k].0);
                } else {
                    assert(out[k0].0 == acc[k0].0);
                }
            }
        } else {
            assert(out == acc.push((e.0, seq![e.1])));
            assert forall|a: int, b: int| 0 <= a < b < out.len() implies !same_view(out[a].0, out[b].0) by {
                if b == acc.len() {
                    assert(!same_view(acc[a].0, e.0));
                }
            }
            assert forall|i: int| 0 <= i < t.len() implies !same_view(#[trigger] t[i].0, e.0) by {
                let k = choose|k: int| 0 <= k < acc.len() && same_view(acc[k].0, t[i].0);
                assert(!same_view(acc[k].0, e.0));
            }
            lemma_targets_of_absent(t, e.0);
            assert forall|k: int|
                #![trigger out[k]]
                0 <= k < out.len() implies out[k].1 == targets_of(s, out[k].0) by {
                if k < acc.len() {
                    assert(out[k] == acc[k]);
                    assert(acc[k].1 == targets_of(t, acc[k].0));
                    assert(!same_view(e.0, acc[k].0));
                } else {
                    assert(targets_of(s, e.0) =~= seq![e.1]);
                }
            }
            assert forall|i: int|
                #![trigger s[i]]
                0 <= i < s.len() implies exists|k: int| 0 <= k < out.len() && same_view(out[k].0, s[i].0) by {
                if i < t.len() {
                    assert(t[i] == s[i]);
                    let k = choose|k: int| 0 <= k < acc.len() && same_view(acc[k].0, t[i].0);
                    assert(out[k] == acc[k]);
                } else {
                    assert(out[acc.len() as int].0 == e.0);
                }
            }
        }
    }
}

} // verus!
