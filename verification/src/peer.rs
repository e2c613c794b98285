use std::collections::VecDeque;
use std::time::Instant;

use vstd::prelude::*;

use crate::distance::{Distance, NodeId, XorMetric, xor_value};
use crate::enr::{Enr, EnrView};

verus! {

#[verifier::external_type_specification]
#[verifier::external_body]
pub struct ExInstant(std::time::Instant);

/// `std::time::Instant::now`: the current time. Nothing is claimed of it.
#[verifier::external_body]
fn now() -> Instant {
    Instant::now()
}

/// The maximum number of liveness checks that a peer keeps.
pub const MAX_LIVENESS_CHECKS: usize = 10;

/// A peer is alive if any of this many most recent liveness checks succeeded.
pub const RECENT_LIVE_CHECKS: usize = 2;

/// The outcome of one liveness check, and when it was recorded.
pub struct LivenessCheck {
    pub success: bool,
    pub timestamp: Instant,
}

/// The outcomes of a sequence of liveness checks, most recent first.
pub open spec fn outcomes(checks: Seq<LivenessCheck>) -> Seq<bool> {
    checks.map_values(|c: LivenessCheck| c.success)
}

/// The history after recording one more outcome: it goes in front, and only
/// the most recent [`MAX_LIVENESS_CHECKS`] are kept.
pub open spec fn record_outcome(s: Seq<bool>, success: bool) -> Seq<bool> {
    let t = seq![success] + s;
    if t.len() > MAX_LIVENESS_CHECKS {
        t.take(MAX_LIVENESS_CHECKS as int)
    } else {
        t
    }
}

/// The history after `n` failed checks in a row.
pub open spec fn record_failures(s: Seq<bool>, n: nat) -> Seq<bool>
    decreases n,
{
    if n == 0 {
        s
    } else {
        record_outcome(record_failures(s, (n - 1) as nat), false)
    }
}

/// Alive: one of the two most recent checks succeeded.
pub open spec fn alive(s: Seq<bool>) -> bool {
    (s.len() > 0 && s[0]) || (s.len() > 1 && s[1])
}

/// Obsolete: a full history of checks, all of them failed.
pub open spec fn obsolete(s: Seq<bool>) -> bool {
    s.len() >= MAX_LIVENESS_CHECKS && forall|i: int| 0 <= i < s.len() ==> !s[i]
}

/// A peer that was found on the network: its latest known record, its data
/// radius and the recent history of liveness checks.
pub struct Peer {
    enr: Enr,
    radius: Distance,
    liveness_checks: VecDeque<LivenessCheck>,
}

impl Peer {
    pub closed spec fn enr_view(&self) -> EnrView {
        self.enr@
    }

    pub closed spec fn node_id_view(&self) -> Seq<u8> {
        self.enr.node_id@
    }

    pub closed spec fn radius_value(&self) -> nat {
        self.radius.value()
    }

    /// The outcomes of the kept liveness checks, most recent first.
    pub closed spec fn checks(&self) -> Seq<bool> {
        outcomes(self.liveness_checks@)
    }

    /// The history holds at most [`MAX_LIVENESS_CHECKS`] checks.
    pub open spec fn wf(&self) -> bool {
        self.checks().len() <= MAX_LIVENESS_CHECKS
    }

    /// A peer with no liveness checks yet and a zero radius.
    pub fn new(enr: Enr) -> (p: Peer)
        ensures
            p.wf(),
            p.enr_view() == enr@,
            p.node_id_view() == enr.node_id@,
            p.radius_value() == 0,
            p.checks() == Seq::<bool>::empty(),
    {
        let p = Peer { enr, radius: Distance::zero(), liveness_checks: VecDeque::new() };
        assert(p.checks() =~= Seq::<bool>::empty());
        p
    }

    pub fn enr(&self) -> (r: Enr)
        ensures
            r@ == self.enr_view(),
    {
        self.enr.duplicate()
    }

    /// The client string of the record, or `(unknown)`.
    pub fn client(&self) -> (r: String)
        ensures
            r@ == match self.enr_view().client {
                Some(c) => c,
                None => "(unknown)"@,
            },
    {
        match &self.enr.client {
            Some(c) => c.clone(),
            None => "(unknown)".to_string(),
        }
    }

    pub fn node_id(&self) -> (r: NodeId)
        ensures
            r@ == self.node_id_view(),
    {
        self.enr.node_id
    }

    pub fn radius(&self) -> (r: Distance)
        ensures
            r.value() == self.radius_value(),
    {
        self.radius
    }

    fn success_at(&self, i: usize) -> (r: bool)
        requires
            i < self.checks().len(),
        ensures
            r == self.checks()[i as int],
    {
        self.liveness_checks[i].success
    }

    /// Alive: one of the [`RECENT_LIVE_CHECKS`] most recent checks succeeded.
    pub fn is_alive(&self) -> (r: bool)
        ensures
            r == alive(self.checks()),
    {
        let n = self.liveness_checks.len();
        (n > 0 && self.success_at(0)) || (n > 1 && self.success_at(1))
    }

    /// Whether the content id lies within the peer's radius (XOR distance
    /// from the node id at most the radius).
    pub fn is_content_within_radius(&self, content_id: &[u8; 32]) -> (r: bool)
        ensures
            r == (xor_value(self.node_id_view(), content_id@) <= self.radius_value()),
    {
        let distance = XorMetric::distance(&self.enr.node_id.raw, content_id);
        distance.le(&self.radius)
    }

    /// Obsolete: the history is full and every check in it failed.
    pub fn is_obsolete(&self) -> (r: bool)
        ensures
            r == obsolete(self.checks()),
    {
        let n = self.liveness_checks.len();
        if n < MAX_LIVENESS_CHECKS {
            return false;
        }
        let mut i: usize = 0;
        while i < n
            invariant
                0 <= i <= n,
                n == self.checks().len(),
                forall|j: int| 0 <= j < i ==> !self.checks()[j],
            decreases n - i,
        {
            if self.success_at(i) {
                return false;
            }
            i = i + 1;
        }
        true
    }

    /// Puts one outcome in front of the history and drops the oldest beyond
    /// the capacity.
    fn push_check(&mut self, success: bool)
        requires
            old(self).wf(),
        ensures
            final(self).wf(),
            final(self).checks() == record_outcome(old(self).checks(), success),
            final(self).enr_view() == old(self).enr_view(),
            final(self).node_id_view() == old(self).node_id_view(),
            final(self).radius_value() == old(self).radius_value(),
    {
        let ghost before = self.liveness_checks@;
        let check = LivenessCheck { success, timestamp: now() };
        self.liveness_checks.push_front(check);
        let ghost pushed = self.liveness_checks@;
        assert(pushed == seq![check] + before);
        self.purge();
        proof {
            assert(outcomes(pushed) =~= seq![success] + outcomes(before));
            if pushed.len() > MAX_LIVENESS_CHECKS {
                assert(outcomes(pushed.subrange(0, MAX_LIVENESS_CHECKS as int)) =~= outcomes(
                    pushed,
                ).take(MAX_LIVENESS_CHECKS as int));
            }
        }
    }

    /// Drops the oldest checks beyond [`MAX_LIVENESS_CHECKS`].
    fn purge(&mut self)
        ensures
            old(self).liveness_checks@.len() > MAX_LIVENESS_CHECKS ==> final(self).liveness_checks@
                == old(self).liveness_checks@.subrange(0, MAX_LIVENESS_CHECKS as int),
            old(self).liveness_checks@.len() <= MAX_LIVENESS_CHECKS ==> final(self).liveness_checks@
                == old(self).liveness_checks@,
            final(self).enr == old(self).enr,
            final(self).radius == old(self).radius,
    {
        if self.liveness_checks.len() > MAX_LIVENESS_CHECKS {
            self.liveness_checks.truncate(MAX_LIVENESS_CHECKS);
        }
    }

    /// Records a successful liveness check: the record is replaced where the
    /// new one's sequence number is not lower, the radius is replaced, and a
    /// success goes in front of the history.
    pub fn record_successful_liveness_check(&mut self, enr: Enr, radius: Distance)
        requires
            old(self).wf(),
            enr.node_id@ == old(self).node_id_view(),
        ensures
            final(self).wf(),
            final(self).enr_view() == (if old(self).enr_view().seq <= enr.seq {
                enr@
            } else {
                old(self).enr_view()
            }),
            final(self).enr_view().seq >= old(self).enr_view().seq,
            final(self).node_id_view() == old(self).node_id_view(),
            final(self).radius_value() == radius.value(),
            final(self).checks() == record_outcome(old(self).checks(), true),
    {
        if self.enr.seq <= enr.seq {
            self.enr = enr;
        }
        self.radius = radius;
        self.push_check(true);
    }

    /// Records a failed liveness check: a failure goes in front of the
    /// history.
    pub fn record_failed_liveness_check(&mut self)
        requires
            old(self).wf(),
        ensures
            final(self).wf(),
            final(self).enr_view() == old(self).enr_view(),
            final(self).node_id_view() == old(self).node_id_view(),
            final(self).radius_value() == old(self).radius_value(),
            final(self).checks() == record_outcome(old(self).checks(), false),
    {
        self.push_check(false);
    }

    /// The kept liveness checks, most recent first.
    pub fn iter_liveness_checks(&self) -> (r: &VecDeque<LivenessCheck>)
        ensures
            outcomes(r@) == self.checks(),
    {
        &self.liveness_checks
    }
}

/// A peer's node id is the node id of its record.
pub proof fn lemma_peer_enr_node_id(p: Peer)
    ensures
        p.enr_view().node_id == p.node_id_view(),
{
}

/// A peer with no recorded check is neither alive nor obsolete.
pub proof fn law_no_checks_neither_alive_nor_obsolete()
    ensures
        !alive(Seq::<bool>::empty()),
        !obsolete(Seq::<bool>::empty()),
{
}

/// Recording an outcome puts it first in the history, the earlier outcomes
/// after it in their order, and keeps at most the ten most recent.
pub proof fn law_record_outcome_keeps_recent(s: Seq<bool>, success: bool)
    ensures
        record_outcome(s, success).len() == (if s.len() + 1 > MAX_LIVENESS_CHECKS {
            MAX_LIVENESS_CHECKS as nat
        } else {
            s.len() + 1
        }),
        record_outcome(s, success)[0] == success,
        forall|i: int| 0 < i < record_outcome(s, success).len() ==> #[trigger] record_outcome(s, success)[i] == s[i - 1],
{
    let t = seq![success] + s;
    assert forall|i: int| 0 < i < record_outcome(s, success).len() implies #[trigger] record_outcome(s, success)[i] == s[i - 1] by {
        assert(t[i] == s[i - 1]);
    }
}

/// Ten failed checks in a row make any peer obsolete, and not alive.
pub proof fn law_failures_make_obsolete(s: Seq<bool>)
    requires
        s.len() <= MAX_LIVENESS_CHECKS,
    ensures
        obsolete(record_failures(s, MAX_LIVENESS_CHECKS as nat)),
        !alive(record_failures(s, MAX_LIVENESS_CHECKS as nat)),
{
    lemma_failures_prefix(s, MAX_LIVENESS_CHECKS as nat);
}

proof fn lemma_failures_prefix(s: Seq<bool>, n: nat)
    requires
        s.len() <= MAX_LIVENESS_CHECKS,
        n <= MAX_LIVENESS_CHECKS,
    ensures
        record_failures(s, n).len() == (if s.len() + n > MAX_LIVENESS_CHECKS {
            MAX_LIVENESS_CHECKS as nat
        } else {
            s.len() + n
        }),
        forall|i: int| 0 <= i < n ==> !#[trigger] record_failures(s, n)[i],
    decreases n,
{
    if n > 0 {
        lemma_failures_prefix(s, (n - 1) as nat);
        let prev = record_failures(s, (n - 1) as nat);
        let t = seq![false] + prev;
        assert forall|i: int| 0 <= i < n implies !#[trigger] record_failures(s, n)[i] by {
            if i > 0 {
                assert(t[i] == prev[i - 1]);
            }
        }
    }
}

/// A success keeps a peer alive and not obsolete, whatever came before.
pub proof fn law_success_makes_alive(s: Seq<bool>)
    ensures
        alive(record_outcome(s, true)),
        !obsolete(record_outcome(s, true)),
{
    let t = record_outcome(s, true);
    assert(t[0]);
}

/// A peer stays alive after one failure exactly when its latest check
/// succeeded.
pub proof fn law_one_failure_alive(s: Seq<bool>)
    ensures
        alive(record_outcome(s, false)) == (s.len() > 0 && s[0]),
{
    let t = seq![false] + s;
    if s.len() > 0 {
        assert(t[1] == s[0]);
    }
}

/// A peer is obsolete exactly when it has a full history of checks and
/// none of them succeeded: any success among the kept checks keeps it from
/// being obsolete.
pub proof fn law_obsolete_only_when_all_failed(s: Seq<bool>)
    ensures
        forall|i: int| 0 <= i < s.len() && #[trigger] s[i] ==> !obsolete(s),
        (s.len() >= MAX_LIVENESS_CHECKS && forall|i: int| 0 <= i < s.len() ==> !#[trigger] s[i]) ==> obsolete(
            s,
        ),
        s.len() < MAX_LIVENESS_CHECKS ==> !obsolete(s),
{
}

/// One failed check after a history whose latest nine checks hold a
/// success leaves the peer not obsolete.
pub proof fn law_failure_after_recent_success(s: Seq<bool>, i: int)
    requires
        0 <= i < s.len(),
        i < MAX_LIVENESS_CHECKS - 1,
        s[i],
    ensures
        !obsolete(record_outcome(s, false)),
{
    let t = seq![false] + s;
    assert(t[i + 1] == s[i]);
    if t.len() > MAX_LIVENESS_CHECKS {
        assert(t.take(MAX_LIVENESS_CHECKS as int)[i + 1] == s[i]);
    }
    law_obsolete_only_when_all_failed(record_outcome(s, false));
}

} // verus!
