use vstd::arithmetic::power2::{lemma2_to64, pow2};
use vstd::prelude::*;

use crate::distance::{
    be_value, lemma_all_zero_value, lemma_zero_value_all_zero, xor_seq, Distance, NodeId, XorMetric,
};
use crate::enr::{Enr, EnrView};

verus! {

/// How many distances around the target's distance a FINDNODES request
/// asks for on each side.
pub const FIND_NODES_MAX_DISTANCE_DIFFERENCE: u16 = 3;

/// Capacities of the talk request channels of a sub-protocol.
#[derive(Clone, Copy, Debug)]
pub struct ProtocolConfig {
    pub incoming_talk_request_capacity: usize,
    pub outgoing_talk_request_capacity: usize,
}

/// Capacities of the talk request channels of a sub-protocol service.
#[derive(Clone, Copy, Debug)]
pub struct ServiceConfig {
    pub incoming_talk_request_capacity: usize,
    pub outgoing_talk_request_capacity: usize,
}

/// The number of leading zero bits of a byte.
pub open spec fn byte_leading_zeros(b: u8) -> nat {
    if b >= 128 {
        0
    } else if b >= 64 {
        1
    } else if b >= 32 {
        2
    } else if b >= 16 {
        3
    } else if b >= 8 {
        4
    } else if b >= 4 {
        5
    } else if b >= 2 {
        6
    } else if b >= 1 {
        7
    } else {
        8
    }
}

/// The number of leading zero bits of a big-endian byte string.
pub open spec fn leading_zeros(s: Seq<u8>) -> nat
    decreases s.len(),
{
    if s.len() == 0 {
        0
    } else if s[0] == 0 {
        8 + leading_zeros(s.drop_first())
    } else {
        byte_leading_zeros(s[0])
    }
}

proof fn lemma_leading_zeros_at(s: Seq<u8>, i: int)
    requires
        0 <= i < s.len(),
        forall|j: int| 0 <= j < i ==> s[j] == 0,
        s[i] != 0,
    ensures
        leading_zeros(s) == 8 * i + byte_leading_zeros(s[i]),
    decreases i,
{
    if i > 0 {
        let t = s.drop_first();
        assert forall|j: int| 0 <= j < i - 1 implies t[j] == 0 by {
            assert(t[j] == s[j + 1]);
        }
        lemma_leading_zeros_at(t, i - 1);
    }
}

/// The leading zero bits of a big-endian string whose first nonzero byte
/// stands at `i`: eight per zero byte before it, then those of that byte,
/// which are `z` exactly when the byte lies in `[2^(7-z), 2^(8-z))`.
pub proof fn law_leading_zero_bits(s: Seq<u8>, i: int)
    requires
        0 <= i < s.len(),
        forall|j: int| 0 <= j < i ==> s[j] == 0,
        s[i] != 0,
    ensures
        leading_zeros(s) == 8 * i + byte_leading_zeros(s[i]),
        byte_leading_zeros(s[i]) <= 7,
        pow2((7 - byte_leading_zeros(s[i])) as nat) <= s[i] < pow2((8 - byte_leading_zeros(s[i])) as nat),
{
    lemma_leading_zeros_at(s, i);
    lemma2_to64();
}

impl Distance {
    /// The base-2 logarithm, rounded up to a bit count: the position of the
    /// highest set bit, counted from 1 (in 1..=256); `None` for zero.
    pub fn log2(&self) -> (r: Option<usize>)
        ensures
            r is None <==> self.value() == 0,
            r matches Some(k) ==> k == 256 - leading_zeros(self.bytes@) && 1 <= k <= 256,
    {
        let b = &self.bytes;
        let mut i: usize = 0;
        while i < 32 && b[i] == 0
            invariant
                0 <= i <= 32,
                b@.len() == 32,
                b@ == self.bytes@,
                forall|j: int| 0 <= j < i ==> b@[j] == 0,
            decreases 32 - i,
        {
            i = i + 1;
        }
        if i == 32 {
            proof {
                lemma_all_zero_value(b@);
            }
            return None;
        }
        let x = b[i];
        let lz: usize = if x >= 128 {
            0
        } else if x >= 64 {
            1
        } else if x >= 32 {
            2
        } else if x >= 16 {
            3
        } else if x >= 8 {
            4
        } else if x >= 4 {
            5
        } else if x >= 2 {
            6
        } else {
            7
        };
        proof {
            lemma_leading_zeros_at(b@, i as int);
            if be_value(b@) == 0 {
                lemma_zero_value_all_zero(b@);
            }
        }
        Some(256 - (8 * i + lz))
    }
}

/// The distances a FINDNODES request asks for around a start distance: the
/// start, then up to three below it (nearest first), then up to three above
/// it but not beyond 256.
pub open spec fn find_nodes_distances_spec(start: int) -> Seq<int> {
    let below = if start < FIND_NODES_MAX_DISTANCE_DIFFERENCE {
        start
    } else {
        FIND_NODES_MAX_DISTANCE_DIFFERENCE as int
    };
    let top = if start + FIND_NODES_MAX_DISTANCE_DIFFERENCE < 256 {
        start + FIND_NODES_MAX_DISTANCE_DIFFERENCE
    } else {
        256
    };
    let above = if top > start {
        top - start
    } else {
        0
    };
    seq![start] + Seq::new(below as nat, |d: int| start - (d + 1)) + Seq::new(
        above as nat,
        |d: int| start + d + 1,
    )
}

/// Some entry of the list is `d`.
pub open spec fn asks_for(r: Seq<int>, d: int) -> bool {
    exists|i: int| 0 <= i < r.len() && r[i] == d
}

/// A FINDNODES request asks for the start distance first, then for no
/// distance twice, only for distances from 0 to 256 at most three away from
/// the start, and for every such distance (for a start from 0 to 256, the
/// bit counts of XOR distances).
pub proof fn law_find_nodes_distances_cover(start: int)
    requires
        0 <= start <= 256,
    ensures
        ({
            let r = find_nodes_distances_spec(start);
            &&& r.len() > 0 && r[0] == start
            &&& forall|i: int|
                0 <= i < r.len() ==> 0 <= #[trigger] r[i] <= 256 && r[i] - start <= 3 && start - r[i] <= 3
            &&& forall|i: int, j: int| 0 <= i < j < r.len() ==> #[trigger] r[i] != #[trigger] r[j]
            &&& forall|d: int|
                0 <= d <= 256 && d - start <= 3 && start - d <= 3 ==> #[trigger] asks_for(r, d)
        }),
{
    let r = find_nodes_distances_spec(start);
    let below: int = if start < 3 { start } else { 3 };
    let top: int = if start + 3 < 256 { start + 3 } else { 256 };
    let above: int = if top > start { top - start } else { 0 };
    let bs = Seq::new(below as nat, |d: int| start - (d + 1));
    let as_ = Seq::new(above as nat, |d: int| start + d + 1);
    assert(r == seq![start] + bs + as_);
    assert(r.len() == 1 + below + above);
    assert forall|i: int| 0 <= i < r.len() implies (i == 0 ==> r[i] == start) && (1 <= i < 1 + below
        ==> r[i] == start - i) && (1 + below <= i ==> r[i] == start + (i - below)) by {
        if i == 0 {
        } else if i < 1 + below {
            assert(r[i] == bs[i - 1]);
        } else {
            assert(r[i] == as_[i - 1 - below]);
        }
    }
    assert forall|i: int|
        0 <= i < r.len() implies 0 <= #[trigger] r[i] <= 256 && r[i] - start <= 3 && start - r[i] <= 3 by {
        if i == 0 {
            assert(r[0] == start);
        } else if i < 1 + below {
            assert(r[i] == bs[i - 1]);
            assert(r[i] == start - i);
        } else {
            assert(r[i] == as_[i - 1 - below]);
            assert(r[i] == start + (i - below));
            assert(above > 0);
            assert(i - 1 - below < above);
            assert(r[i] <= top);
        }
    }
    assert forall|i: int, j: int| 0 <= i < j < r.len() implies #[trigger] r[i] != #[trigger] r[j] by {
        if i == 0 {
        } else if i < 1 + below {
            assert(r[i] == bs[i - 1]);
        } else {
            assert(r[i] == as_[i - 1 - below]);
        }
        if j < 1 + below {
            assert(r[j] == bs[j - 1]);
        } else {
            assert(r[j] == as_[j - 1 - below]);
        }
    }
    assert forall|d: int| 0 <= d <= 256 && d - start <= 3 && start - d <= 3 implies #[trigger] asks_for(r, d) by {
        if d == start {
            assert(r[0] == d);
        } else if d < start {
            let i = start - d;
            assert(r[i] == bs[i - 1]);
            assert(r[i] == d);
        } else {
            let i = 1 + below + (d - start - 1);
            assert(r[i] == as_[i - 1 - below]);
            assert(r[i] == d);
        }
    }
}

/// The distances of a FINDNODES request to a peer whose XOR distance to
/// the target has the given bit count.
pub fn find_nodes_distances(start_distance: u16) -> (r: Vec<u16>)
    requires
        start_distance + FIND_NODES_MAX_DISTANCE_DIFFERENCE <= u16::MAX,
    ensures
        r@.map_values(|d: u16| d as int) == find_nodes_distances_spec(start_distance as int),
{
    let mut distances: Vec<u16> = Vec::new();
    distances.push(start_distance);
    let below = if start_distance < FIND_NODES_MAX_DISTANCE_DIFFERENCE {
        start_distance
    } else {
        FIND_NODES_MAX_DISTANCE_DIFFERENCE
    };
    let mut difference: u16 = 1;
    while difference <= below
        invariant
            1 <= difference <= below + 1,
            below <= start_distance,
            below <= FIND_NODES_MAX_DISTANCE_DIFFERENCE,
            distances@.len() == difference,
            distances@[0] == start_distance,
            forall|d: int| 1 <= d < difference ==> #[trigger] distances@[d] == start_distance - d,
        decreases below + 1 - difference,
    {
        distances.push(start_distance - difference);
        difference = difference + 1;
    }
    let top = if start_distance + FIND_NODES_MAX_DISTANCE_DIFFERENCE < 256 {
        start_distance + FIND_NODES_MAX_DISTANCE_DIFFERENCE
    } else {
        256
    };
    let ghost n0 = distances@.len();
    let mut distance: u16 = start_distance + 1;
    while distance <= top
        invariant
            n0 == below + 1,
            start_distance + 1 <= distance,
            distance <= top + 1 || distance == start_distance + 1,
            top <= 256,
            distances@.len() == n0 + (distance - start_distance - 1),
            distances@[0] == start_distance,
            forall|d: int| 1 <= d < n0 ==> #[trigger] distances@[d] == start_distance - d,
            forall|d: int| n0 <= d < distances@.len() ==> #[trigger] distances@[d] == start_distance + (d - n0) + 1,
        decreases top + 1 - distance,
    {
        distances.push(distance);
        distance = distance + 1;
    }
    proof {
        let spec_r = find_nodes_distances_spec(start_distance as int);
        let got = distances@.map_values(|d: u16| d as int);
        assert(got.len() == spec_r.len());
        assert forall|k: int| 0 <= k < got.len() implies got[k] == spec_r[k] by {
            if k == 0 {
            } else if k < n0 {
                assert(distances@[k] == start_distance - k);
            } else {
                assert(distances@[k] == start_distance + (k - n0) + 1);
            }
        }
        assert(got =~= spec_r);
    }
    distances
}

/// The distances of a FINDNODES request to a peer for a target: around the
/// bit count of their XOR distance (zero where they are equal).
pub fn find_nodes_request_distances(peer: &NodeId, target: &NodeId) -> (r: Vec<u16>)
    ensures
        r@.map_values(|d: u16| d as int) == find_nodes_distances_spec(
            if be_value(xor_seq(peer@, target@)) == 0 {
                0
            } else {
                256 - leading_zeros(xor_seq(peer@, target@))
            },
        ),
{
    let distance = XorMetric::distance(&peer.raw, &target.raw);
    let start: u16 = match distance.log2() {
        Some(k) => k as u16,
        None => 0,
    };
    find_nodes_distances(start)
}

/// The ping extension that a PING carries, as far as the answer depends
/// on it.
#[derive(Clone, Copy, Debug, PartialEq, Eq, Structural)]
pub enum PingRequestKind {
    Capabilities,
    BasicRadius,
    HistoryRadius,
    /// A known extension that is not supported here.
    Unsupported,
    /// A payload that could not be decoded.
    Undecodable,
}

/// The extensions this node announces as its capabilities.
#[derive(Clone, Copy, Debug, PartialEq, Eq, Structural)]
pub enum PingExtensionKind {
    Capabilities,
    HistoryRadius,
    Error,
}

/// Why a PING could not be answered with its extension.
#[derive(Clone, Copy, Debug, PartialEq, Eq, Structural)]
pub enum PingErrorKind {
    ExtensionNotSupported,
    FailedToDecodePayload,
}

/// The payload of a PONG.
#[derive(Debug)]
pub enum PongPayload {
    Capabilities { radius: Distance, capabilities: Vec<PingExtensionKind> },
    BasicRadius { radius: Distance },
    HistoryRadius { radius: Distance, ephemeral_header_count: u16 },
    Error(PingErrorKind),
}

/// The PONG payload for a PING: the same extension, announcing a zero
/// radius (and the capabilities `Capabilities`, `HistoryRadius`, `Error`),
/// or an error for an unsupported or undecodable extension.
pub fn pong_payload(kind: PingRequestKind) -> (r: PongPayload)
    ensures
        match kind {
            PingRequestKind::Capabilities => r matches PongPayload::Capabilities { radius, capabilities }
                && radius.value() == 0 && capabilities@ == seq![
                    PingExtensionKind::Capabilities,
                    PingExtensionKind::HistoryRadius,
                    PingExtensionKind::Error,
                ],
            PingRequestKind::BasicRadius => r matches PongPayload::BasicRadius { radius }
                && radius.value() == 0,
            PingRequestKind::HistoryRadius => r matches PongPayload::HistoryRadius {
                radius,
                ephemeral_header_count,
            } && radius.value() == 0 && ephemeral_header_count == 0,
            PingRequestKind::Unsupported => r matches PongPayload::Error(e) && e
                == PingErrorKind::ExtensionNotSupported,
            PingRequestKind::Undecodable => r matches PongPayload::Error(e) && e
                == PingErrorKind::FailedToDecodePayload,
        },
{
    match kind {
        PingRequestKind::Capabilities => PongPayload::Capabilities {
            radius: Distance::zero(),
            capabilities: vec![
                PingExtensionKind::Capabilities,
                PingExtensionKind::HistoryRadius,
                PingExtensionKind::Error,
            ],
        },
        PingRequestKind::BasicRadius => PongPayload::BasicRadius { radius: Distance::zero() },
        PingRequestKind::HistoryRadius => PongPayload::HistoryRadius {
            radius: Distance::zero(),
            ephemeral_header_count: 0,
        },
        PingRequestKind::Unsupported => PongPayload::Error(PingErrorKind::ExtensionNotSupported),
        PingRequestKind::Undecodable => PongPayload::Error(PingErrorKind::FailedToDecodePayload),
    }
}

/// The answer to a request for a peer's own record: exactly one record,
/// otherwise the number of records that came.
pub fn single_enr(enrs: Vec<Enr>) -> (r: Result<Enr, usize>)
    ensures
        enrs@.len() == 1 ==> (r matches Ok(e) && e@ == enrs@[0]@),
        enrs@.len() != 1 ==> r == Err::<Enr, usize>(enrs@.len() as usize),
{
    let mut enrs = enrs;
    if enrs.len() == 1 {
        Ok(enrs.remove(0))
    } else {
        Err(enrs.len())
    }
}

} // verus!
