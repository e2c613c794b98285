use vstd::prelude::*;

use crate::distance::{bytes32_eq, xor_value, Distance, NodeId, XorMetric};
use crate::enr::{Enr, EnrView};
use crate::id_set::IdSet;
use crate::peers::{alive_flags, zero_keys, Peers};
use crate::selection::is_stable_selection;

verus! {

/// Limits on how content is fetched.
#[derive(Clone, Copy, Debug)]
pub struct CoordinatorConfig {
    pub max_attempts_per_content: usize,
    pub concurrent_tasks_per_content: usize,
    pub concurrent_tasks_per_peer: usize,
}

/// A content item that still has to be fetched.
pub struct ContentInfo<K, V> {
    pub content_id: [u8; 32],
    pub content_key: K,
    pub content_value: Option<Box<V>>,
    pub active_tasks: usize,
    pub total_tasks: usize,
}

impl<K, V> ContentInfo<K, V> {
    pub fn new(content_id: [u8; 32], content_key: K) -> (c: Self)
        ensures
            c.content_id == content_id,
            c.content_key == content_key,
            c.content_value is None,
            c.active_tasks == 0,
            c.total_tasks == 0,
    {
        ContentInfo {
            content_id,
            content_key,
            content_value: None,
            active_tasks: 0,
            total_tasks: 0,
        }
    }
}

/// What the coordinator knows of a peer that content can be fetched from.
pub struct PeerInfo {
    pub enr: Enr,
    pub radius: Distance,
    pub useful: bool,
    pub content_in_progress: IdSet,
    pub unavailable_content: IdSet,
}

impl PeerInfo {
    pub fn new(enr: Enr, radius: Distance) -> (p: PeerInfo)
        ensures
            p.enr == enr,
            p.radius == radius,
            p.useful,
            p.content_in_progress.wf(),
            p.content_in_progress.size() == 0,
            forall|x: Seq<u8>| !p.content_in_progress.has(x),
            p.unavailable_content.wf(),
            p.unavailable_content.size() == 0,
            forall|x: Seq<u8>| !p.unavailable_content.has(x),
    {
        PeerInfo {
            enr,
            radius,
            useful: true,
            content_in_progress: IdSet::new(),
            unavailable_content: IdSet::new(),
        }
    }
}

/// How a fetch task ended.
pub enum TaskResult<V> {
    Success(Box<V>),
    ContentUnavailable,
    Failure,
}

/// A task: fetch one content item from one peer.
pub struct TaskInfo<K> {
    pub peer: Enr,
    pub content_id: [u8; 32],
    pub content_key: K,
}

/// Why no task could be created.
#[derive(Clone, Copy, Debug, PartialEq, Eq, Structural)]
pub enum CreateTaskError {
    /// There is no content that should be fetched.
    NoContent,
    /// There is content that should be fetched, but no useful peers.
    NoPeers,
    /// All useful peers are busy.
    Busy,
}

impl CreateTaskError {
    pub fn to_string(&self) -> (s: String)
        ensures
            s@ == match self {
                CreateTaskError::NoContent => "There is no content that should be fetched"@,
                CreateTaskError::NoPeers => "There is content that should be fetched, but no useful peers"@,
                CreateTaskError::Busy => "All useful peers are busy"@,
            },
    {
        match self {
            CreateTaskError::NoContent => "There is no content that should be fetched".to_string(),
            CreateTaskError::NoPeers => "There is content that should be fetched, but no useful peers".to_string(),
            CreateTaskError::Busy => "All useful peers are busy".to_string(),
        }
    }
}

/// A fetched (or given up) content item: its id, key and value.
pub type FinishedEntry<K, V> = ([u8; 32], K, Option<Box<V>>);

pub open spec fn find_content<K, V>(s: Seq<ContentInfo<K, V>>, id: Seq<u8>) -> int {
    if exists|i: int| 0 <= i < s.len() && s[i].content_id@ == id {
        choose|i: int| 0 <= i < s.len() && s[i].content_id@ == id
    } else {
        -1
    }
}

pub open spec fn find_finished<K, V>(s: Seq<FinishedEntry<K, V>>, id: Seq<u8>) -> int {
    if exists|i: int| 0 <= i < s.len() && s[i].0@ == id {
        choose|i: int| 0 <= i < s.len() && s[i].0@ == id
    } else {
        -1
    }
}

pub open spec fn find_peer(s: Seq<PeerInfo>, id: Seq<u8>) -> int {
    if exists|i: int| 0 <= i < s.len() && s[i].enr.node_id@ == id {
        choose|i: int| 0 <= i < s.len() && s[i].enr.node_id@ == id
    } else {
        -1
    }
}

pub open spec fn holds(p: PeerInfo, c: Seq<u8>) -> nat {
    if p.content_in_progress.has(c) {
        1
    } else {
        0
    }
}

/// How many peers have the content in progress.
pub open spec fn holders(s: Seq<PeerInfo>, c: Seq<u8>) -> nat
    decreases s.len(),
{
    if s.len() == 0 {
        0
    } else {
        holders(s.drop_last(), c) + holds(s.last(), c)
    }
}

/// Replacing one peer changes the holder count by what that peer holds.
pub proof fn lemma_holders_update(s: Seq<PeerInfo>, i: int, p: PeerInfo, c: Seq<u8>)
    requires
        0 <= i < s.len(),
    ensures
        holders(s.update(i, p), c) + holds(s[i], c) == holders(s, c) + holds(p, c),
    decreases s.len(),
{
    let t = s.update(i, p);
    if i == s.len() - 1 {
        assert(t.drop_last() =~= s.drop_last());
    } else {
        assert(t.drop_last() =~= s.drop_last().update(i, p));
        lemma_holders_update(s.drop_last(), i, p, c);
    }
}

/// The entries after one upsert: an entry with the same id is replaced in
/// place, otherwise the new entry goes at the end.
pub open spec fn finished_insert<K, V>(f: Seq<FinishedEntry<K, V>>, e: FinishedEntry<K, V>) -> Seq<
    FinishedEntry<K, V>,
> {
    let j = find_finished(f, e.0@);
    if j >= 0 {
        f.update(j, e)
    } else {
        f.push(e)
    }
}

/// The pending content after a task on `id` ended.
pub open spec fn pending_after_finish<K, V>(
    p: Seq<ContentInfo<K, V>>,
    id: Seq<u8>,
    success: bool,
    max_attempts: usize,
) -> Seq<ContentInfo<K, V>> {
    let k = find_content(p, id);
    if k < 0 {
        p
    } else if success || p[k].total_tasks >= max_attempts {
        p.remove(k)
    } else {
        p.update(k, ContentInfo { active_tasks: (p[k].active_tasks - 1) as usize, ..p[k] })
    }
}

/// The finished content after a task ended that was not a success.
pub open spec fn finished_after_failure<K, V>(
    p: Seq<ContentInfo<K, V>>,
    f: Seq<FinishedEntry<K, V>>,
    id: [u8; 32],
    key: K,
    max_attempts: usize,
) -> Seq<FinishedEntry<K, V>> {
    let k = find_content(p, id@);
    if k >= 0 && p[k].total_tasks >= max_attempts {
        finished_insert(f, (id, key, None))
    } else {
        f
    }
}

/// The content entries after one upsert by id.
pub open spec fn upsert_key<K>(acc: Seq<([u8; 32], K)>, e: ([u8; 32], K)) -> Seq<([u8; 32], K)> {
    if exists|i: int| 0 <= i < acc.len() && acc[i].0@ == e.0@ {
        acc.update(choose|i: int| 0 <= i < acc.len() && acc[i].0@ == e.0@, e)
    } else {
        acc.push(e)
    }
}

/// One entry per content id, in order of first appearance, holding the key
/// that came last with that id.
pub open spec fn keyed_last<K>(s: Seq<([u8; 32], K)>) -> Seq<([u8; 32], K)>
    decreases s.len(),
{
    if s.len() == 0 {
        Seq::empty()
    } else {
        upsert_key(keyed_last(s.drop_last()), s.last())
    }
}

pub open spec fn content_pairs<K, V>(p: Seq<ContentInfo<K, V>>) -> Seq<([u8; 32], K)> {
    p.map_values(|c: ContentInfo<K, V>| (c.content_id, c.content_key))
}

proof fn lemma_no_holders(q: Seq<PeerInfo>, c: Seq<u8>)
    requires
        forall|i: int| 0 <= i < q.len() ==> !q[i].content_in_progress.has(c),
    ensures
        holders(q, c) == 0,
    decreases q.len(),
{
    if q.len() > 0 {
        lemma_no_holders(q.drop_last(), c);
    }
}

pub open spec fn listed(e: Seq<usize>, j: int) -> bool {
    exists|w: int| 0 <= w < e.len() && e[w] == j
}

/// A peer that can take another task: still useful and below its limit of
/// concurrent tasks.
pub open spec fn eligible_peer(p: PeerInfo, cfg: CoordinatorConfig) -> bool {
    p.useful && p.content_in_progress.size() < cfg.concurrent_tasks_per_peer
}

/// Content that a peer holds within its radius and that may be attempted
/// again.
pub open spec fn interested<K, V>(p: PeerInfo, c: ContentInfo<K, V>, cfg: CoordinatorConfig) -> bool {
    xor_value(p.enr.node_id@, c.content_id@) <= p.radius.value() && c.total_tasks
        < cfg.max_attempts_per_content
}

/// Interesting content that is below its limit of concurrent tasks.
pub open spec fn available<K, V>(p: PeerInfo, c: ContentInfo<K, V>, cfg: CoordinatorConfig) -> bool {
    interested(p, c, cfg) && c.active_tasks < cfg.concurrent_tasks_per_content
}

pub open spec fn has_interest<K, V>(p: PeerInfo, s: Seq<ContentInfo<K, V>>, cfg: CoordinatorConfig) -> bool {
    exists|i: int| 0 <= i < s.len() && interested(p, s[i], cfg)
}

pub open spec fn has_available<K, V>(p: PeerInfo, s: Seq<ContentInfo<K, V>>, cfg: CoordinatorConfig) -> bool {
    exists|i: int| 0 <= i < s.len() && available(p, s[i], cfg)
}

/// Some eligible peer has available content: a task can be created.
pub open spec fn can_start<K, V>(q: Seq<PeerInfo>, s: Seq<ContentInfo<K, V>>, cfg: CoordinatorConfig) -> bool {
    exists|j: int| 0 <= j < q.len() && eligible_peer(q[j], cfg) && has_available(q[j], s, cfg)
}

/// The positions, in pending order, of the first `n` content items that are
/// available to a peer.
pub open spec fn avail_positions<K, V>(peer: PeerInfo, s: Seq<ContentInfo<K, V>>, cfg: CoordinatorConfig, n: nat) -> Seq<usize>
    decreases n,
{
    if n == 0 {
        Seq::empty()
    } else {
        let rest = avail_positions(peer, s, cfg, (n - 1) as nat);
        if available(peer, s[n - 1], cfg) {
            rest.push((n - 1) as usize)
        } else {
            rest
        }
    }
}

/// The entry at a chooser's answer, or the first one where the answer is
/// out of range.
pub open spec fn pick<T>(s: Seq<T>, k: usize) -> T {
    if k < s.len() {
        s[k as int]
    } else {
        s[0]
    }
}

/// The round of a search that started a task. `choose_peer` was handed
/// `choices`: the node id and number of tasks in progress of each peer still
/// in the search (`listed`: eligible peers in table order, including every
/// eligible peer with available content) and answered `k`; `choose_content`
/// was handed `weights`: the active task counts of the chosen peer's
/// available content, in pending order, and answered `m`.
pub open spec fn chosen_round<K, V>(
    q: Seq<PeerInfo>,
    p: Seq<ContentInfo<K, V>>,
    cfg: CoordinatorConfig,
    listed_peers: Seq<usize>,
    choices: Seq<(NodeId, usize)>,
    k: usize,
    weights: Seq<usize>,
    m: usize,
) -> bool {
    let pi = pick(listed_peers, k) as int;
    let avail = avail_positions(q[pi], p, cfg, p.len());
    &&& listed_peers.len() > 0
    &&& forall|a: int, b: int| 0 <= a < b < listed_peers.len() ==> listed_peers[a] < listed_peers[b]
    &&& forall|a: int|
        0 <= a < listed_peers.len() ==> listed_peers[a] < q.len() && eligible_peer(
            q[listed_peers[a] as int],
            cfg,
        )
    &&& forall|j: int|
        0 <= j < q.len() && eligible_peer(q[j], cfg) && has_available(q[j], p, cfg) ==> listed(
            listed_peers,
            j,
        )
    &&& choices.len() == listed_peers.len()
    &&& forall|a: int|
        0 <= a < choices.len() ==> #[trigger] choices[a].0@ == q[listed_peers[a] as int].enr.node_id@
            && choices[a].1 == q[listed_peers[a] as int].content_in_progress.size()
    &&& avail.len() > 0
    &&& weights.len() == avail.len()
    &&& forall|x: int| 0 <= x < weights.len() ==> #[trigger] weights[x] == p[avail[x] as int].active_tasks
}

/// A peer after a search for a task found nothing for it: an eligible peer
/// with no interesting content is no longer useful.
pub open spec fn after_search<K, V>(p: PeerInfo, s: Seq<ContentInfo<K, V>>, cfg: CoordinatorConfig) -> PeerInfo {
    PeerInfo { useful: p.useful && !(eligible_peer(p, cfg) && !has_interest(p, s, cfg)), ..p }
}

/// The content ids that are pending or finished.
pub open spec fn ids_of<K, V>(p: Seq<ContentInfo<K, V>>, f: Seq<FinishedEntry<K, V>>) -> Set<Seq<u8>> {
    Set::new(
        |x: Seq<u8>|
            (exists|i: int| 0 <= i < p.len() && p[i].content_id@ == x) || (exists|j: int|
                0 <= j < f.len() && f[j].0@ == x),
    )
}

proof fn lemma_upsert_ids<K, V>(f: Seq<FinishedEntry<K, V>>, e: FinishedEntry<K, V>, x: Seq<u8>)
    ensures
        (exists|j: int| 0 <= j < finished_insert(f, e).len() && finished_insert(f, e)[j].0@ == x)
            == (x == e.0@ || exists|j: int| 0 <= j < f.len() && f[j].0@ == x),
{
    let g = finished_insert(f, e);
    let k = find_finished(f, e.0@);
    if k >= 0 {
        assert(g[k].0@ == e.0@);
        if exists|j: int| 0 <= j < f.len() && f[j].0@ == x {
            let j = choose|j: int| 0 <= j < f.len() && f[j].0@ == x;
            if j == k {
                assert(g[k].0@ == x);
            } else {
                assert(g[j].0@ == x);
            }
        }
        if exists|j: int| 0 <= j < g.len() && g[j].0@ == x {
            let j = choose|j: int| 0 <= j < g.len() && g[j].0@ == x;
            if j != k {
                assert(f[j].0@ == x);
            }
        }
    } else {
        assert(g[f.len() as int].0@ == e.0@);
        if exists|j: int| 0 <= j < f.len() && f[j].0@ == x {
            let j = choose|j: int| 0 <= j < f.len() && f[j].0@ == x;
            assert(g[j].0@ == x);
        }
        if exists|j: int| 0 <= j < g.len() && g[j].0@ == x {
            let j = choose|j: int| 0 <= j < g.len() && g[j].0@ == x;
            if j < f.len() {
                assert(f[j].0@ == x);
            }
        }
    }
}

proof fn lemma_remove_ids<K, V>(p: Seq<ContentInfo<K, V>>, k: int, x: Seq<u8>)
    requires
        distinct_content(p),
        0 <= k < p.len(),
    ensures
        (exists|i: int| 0 <= i < p.remove(k).len() && p.remove(k)[i].content_id@ == x) == (x
            != p[k].content_id@ && exists|i: int| 0 <= i < p.len() && p[i].content_id@ == x),
{
    let r = p.remove(k);
    if exists|i: int| 0 <= i < r.len() && r[i].content_id@ == x {
        let i = choose|i: int| 0 <= i < r.len() && r[i].content_id@ == x;
        let i0 = if i < k { i } else { i + 1 };
        assert(r[i] == p[i0]);
        assert(p[i0].content_id@ != p[k].content_id@);
    }
    if x != p[k].content_id@ && exists|i: int| 0 <= i < p.len() && p[i].content_id@ == x {
        let i = choose|i: int| 0 <= i < p.len() && p[i].content_id@ == x;
        if i < k {
            assert(r[i] == p[i]);
        } else {
            assert(i != k);
            assert(r[i - 1] == p[i]);
        }
    }
}

proof fn lemma_update_same_id_keeps_ids<K, V>(
    p: Seq<ContentInfo<K, V>>,
    f: Seq<FinishedEntry<K, V>>,
    k: int,
    c: ContentInfo<K, V>,
)
    requires
        0 <= k < p.len(),
        c.content_id@ == p[k].content_id@,
    ensures
        ids_of(p.update(k, c), f) == ids_of(p, f),
{
    let p2 = p.update(k, c);
    assert forall|x: Seq<u8>| ids_of(p2, f).contains(x) == ids_of(p, f).contains(x) by {
        if exists|i: int| 0 <= i < p.len() && p[i].content_id@ == x {
            let i = choose|i: int| 0 <= i < p.len() && p[i].content_id@ == x;
            assert(p2[i].content_id@ == x);
        }
        if exists|i: int| 0 <= i < p2.len() && p2[i].content_id@ == x {
            let i = choose|i: int| 0 <= i < p2.len() && p2[i].content_id@ == x;
            assert(p[i].content_id@ == x);
        }
    }
    assert(ids_of(p2, f) =~= ids_of(p, f));
}

/// A successful task adds its content id to the known ids and loses none.
pub proof fn law_success_keeps_ids<K, V>(
    p: Seq<ContentInfo<K, V>>,
    f: Seq<FinishedEntry<K, V>>,
    id: [u8; 32],
    key: K,
    value: Box<V>,
    max_attempts: usize,
)
    requires
        distinct_content(p),
    ensures
        ids_of(pending_after_finish(p, id@, true, max_attempts), finished_insert(f, (id, key, Some(value))))
            == ids_of(p, f).insert(id@),
{
    let p2 = pending_after_finish(p, id@, true, max_attempts);
    let f2 = finished_insert(f, (id, key, Some(value)));
    let k = find_content(p, id@);
    assert forall|x: Seq<u8>| ids_of(p2, f2).contains(x) == ids_of(p, f).insert(id@).contains(x) by {
        lemma_upsert_ids(f, (id, key, Some(value)), x);
        if k >= 0 {
            lemma_remove_ids(p, k, x);
        }
    }
    assert(ids_of(p2, f2) =~= ids_of(p, f).insert(id@));
}

proof fn lemma_find_content_at<K, V>(p: Seq<ContentInfo<K, V>>, k: int)
    requires
        distinct_content(p),
        0 <= k < p.len(),
    ensures
        find_content(p, p[k].content_id@) == k,
{
    let id = p[k].content_id@;
    assert(exists|i: int| 0 <= i < p.len() && p[i].content_id@ == id);
    let c = choose|i: int| 0 <= i < p.len() && p[i].content_id@ == id;
    if c != k {
        if c < k {
            assert(p[c].content_id@ != p[k].content_id@);
        } else {
            assert(p[k].content_id@ != p[c].content_id@);
        }
    }
}

proof fn lemma_removed_content<K, V>(p: Seq<ContentInfo<K, V>>, k: int)
    requires
        distinct_content(p),
        0 <= k < p.len(),
    ensures
        p.remove(k).len() == p.len() - 1,
        forall|i: int| 0 <= i < p.remove(k).len() ==> #[trigger] p.remove(k)[i].content_id@ != p[k].content_id@,
        forall|i: int| 0 <= i < k ==> #[trigger] p.remove(k)[i] == p[i],
        forall|i: int| k < i < p.len() ==> p.remove(k)[i - 1] == #[trigger] p[i],
{
    let r = p.remove(k);
    assert forall|i: int| 0 <= i < r.len() implies #[trigger] r[i].content_id@ != p[k].content_id@ by {
        if i < k {
            assert(r[i] == p[i]);
        } else {
            assert(r[i] == p[i + 1]);
        }
    }
}

proof fn lemma_finished_insert_holds<K, V>(f: Seq<FinishedEntry<K, V>>, e: FinishedEntry<K, V>)
    requires
        distinct_finished(f),
    ensures
        exists|j: int| 0 <= j < finished_insert(f, e).len() && finished_insert(f, e)[j] == e,
        forall|h: int|
            0 <= h < f.len() && f[h].0@ != e.0@ ==> exists|j: int|
                0 <= j < finished_insert(f, e).len() && finished_insert(f, e)[j] == #[trigger] f[h],
{
    let g = finished_insert(f, e);
    let k = find_finished(f, e.0@);
    if k >= 0 {
        assert(g[k] == e);
        assert forall|h: int| 0 <= h < f.len() && f[h].0@ != e.0@ implies exists|j: int| 0 <= j < g.len() && g[j] == #[trigger] f[h] by {
            assert(g[h] == f[h]);
        }
    } else {
        assert(g[f.len() as int] == e);
        assert forall|h: int| 0 <= h < f.len() && f[h].0@ != e.0@ implies exists|j: int| 0 <= j < g.len() && g[j] == #[trigger] f[h] by {
            assert(g[h] == f[h]);
        }
    }
}

/// A successful task on content `id` takes every entry of that id out of
/// the pending content and keeps all others; the finished content then
/// holds the id with its key and the fetched value, and keeps every entry
/// of another id.
pub proof fn law_success_finishes_content<K, V>(
    p: Seq<ContentInfo<K, V>>,
    f: Seq<FinishedEntry<K, V>>,
    id: [u8; 32],
    key: K,
    value: Box<V>,
    max_attempts: usize,
)
    requires
        distinct_content(p),
        distinct_finished(f),
    ensures
        forall|i: int|
            0 <= i < pending_after_finish(p, id@, true, max_attempts).len() ==> #[trigger] pending_after_finish(
                p,
                id@,
                true,
                max_attempts,
            )[i].content_id@ != id@,
        forall|i: int|
            0 <= i < p.len() && p[i].content_id@ != id@ ==> exists|j: int|
                0 <= j < pending_after_finish(p, id@, true, max_attempts).len() && pending_after_finish(
                    p,
                    id@,
                    true,
                    max_attempts,
                )[j] == #[trigger] p[i],
        exists|j: int|
            0 <= j < finished_insert(f, (id, key, Some(value))).len() && finished_insert(f, (id, key, Some(value)))[j]
                == (id, key, Some(value)),
        forall|h: int|
            0 <= h < f.len() && f[h].0@ != id@ ==> exists|j: int|
                0 <= j < finished_insert(f, (id, key, Some(value))).len() && finished_insert(
                    f,
                    (id, key, Some(value)),
                )[j] == #[trigger] f[h],
{
    lemma_finished_insert_holds(f, (id, key, Some(value)));
    let k = find_content(p, id@);
    let p2 = pending_after_finish(p, id@, true, max_attempts);
    if k >= 0 {
        assert(p[k].content_id@ == id@);
        lemma_removed_content(p, k);
        assert(p2 == p.remove(k));
        assert forall|i: int| 0 <= i < p.len() && p[i].content_id@ != id@ implies exists|j: int|
            0 <= j < p2.len() && p2[j] == #[trigger] p[i] by {
            if i < k {
                assert(p2[i] == p[i]);
            } else {
                assert(p2[i - 1] == p[i]);
            }
        }
    } else {
        assert forall|i: int| 0 <= i < p2.len() implies #[trigger] p2[i].content_id@ != id@ by {
            assert(p2[i] == p[i]);
        }
        assert forall|i: int| 0 <= i < p.len() && p[i].content_id@ != id@ implies exists|j: int|
            0 <= j < p2.len() && p2[j] == #[trigger] p[i] by {
            assert(p2[i] == p[i]);
        }
    }
}

/// A task on pending content (at position `k`) that ended without success:
/// where the content's attempts are used up (`total_tasks` has reached
/// `max_attempts`) it leaves the pending content, the others stay, and the
/// finished content holds its id and key without a value, keeping every
/// entry of another id; otherwise it stays pending in place with its id,
/// key and attempt count, one active task fewer, everything else
/// unchanged, and the finished content does not change.
pub proof fn law_failure_retries_or_gives_up<K, V>(
    p: Seq<ContentInfo<K, V>>,
    f: Seq<FinishedEntry<K, V>>,
    id: [u8; 32],
    key: K,
    max_attempts: usize,
    k: int,
)
    requires
        distinct_content(p),
        distinct_finished(f),
        0 <= k < p.len(),
        p[k].content_id@ == id@,
    ensures
        ({
            let p2 = pending_after_finish(p, id@, false, max_attempts);
            let f2 = finished_after_failure(p, f, id, key, max_attempts);
            p[k].total_tasks >= max_attempts ==> {
                &&& forall|i: int| 0 <= i < p2.len() ==> #[trigger] p2[i].content_id@ != id@
                &&& forall|i: int|
                    0 <= i < p.len() && i != k ==> exists|j: int| 0 <= j < p2.len() && p2[j] == #[trigger] p[i]
                &&& exists|j: int| 0 <= j < f2.len() && f2[j] == (id, key, None::<Box<V>>)
                &&& forall|h: int|
                    0 <= h < f.len() && f[h].0@ != id@ ==> exists|j: int| 0 <= j < f2.len() && f2[j] == #[trigger] f[h]
            }
        }),
        ({
            let p2 = pending_after_finish(p, id@, false, max_attempts);
            let f2 = finished_after_failure(p, f, id, key, max_attempts);
            p[k].total_tasks < max_attempts ==> {
                &&& p2.len() == p.len()
                &&& forall|i: int| 0 <= i < p.len() && i != k ==> #[trigger] p2[i] == p[i]
                &&& p2[k].content_id == p[k].content_id
                &&& p2[k].content_key == p[k].content_key
                &&& p2[k].content_value == p[k].content_value
                &&& p2[k].total_tasks == p[k].total_tasks
                &&& p[k].active_tasks > 0 ==> p2[k].active_tasks + 1 == p[k].active_tasks
                &&& f2 == f
            }
        }),
{
    lemma_find_content_at(p, k);
    let p2 = pending_after_finish(p, id@, false, max_attempts);
    let f2 = finished_after_failure(p, f, id, key, max_attempts);
    if p[k].total_tasks >= max_attempts {
        lemma_removed_content(p, k);
        lemma_finished_insert_holds(f, (id, key, None::<Box<V>>));
        assert(p2 == p.remove(k));
        assert forall|i: int| 0 <= i < p.len() && i != k implies exists|j: int|
            0 <= j < p2.len() && p2[j] == #[trigger] p[i] by {
            if i < k {
                assert(p2[i] == p[i]);
            } else {
                assert(p2[i - 1] == p[i]);
            }
        }
        assert(f2 == finished_insert(f, (id, key, None::<Box<V>>)));
    }
}

/// A task on content that is not pending changes neither the pending nor
/// the finished content, unless it succeeded.
pub proof fn law_failure_on_unknown_content<K, V>(
    p: Seq<ContentInfo<K, V>>,
    f: Seq<FinishedEntry<K, V>>,
    id: [u8; 32],
    key: K,
    max_attempts: usize,
)
    requires
        forall|i: int| 0 <= i < p.len() ==> #[trigger] p[i].content_id@ != id@,
    ensures
        pending_after_finish(p, id@, false, max_attempts) == p,
        finished_after_failure(p, f, id, key, max_attempts) == f,
{
}

/// A task that ended without success neither loses nor adds content ids.
pub proof fn law_failure_keeps_ids<K, V>(
    p: Seq<ContentInfo<K, V>>,
    f: Seq<FinishedEntry<K, V>>,
    id: [u8; 32],
    key: K,
    max_attempts: usize,
)
    requires
        distinct_content(p),
    ensures
        ids_of(pending_after_finish(p, id@, false, max_attempts), finished_after_failure(p, f, id, key, max_attempts))
            == ids_of(p, f),
{
    let p2 = pending_after_finish(p, id@, false, max_attempts);
    let f2 = finished_after_failure(p, f, id, key, max_attempts);
    let k = find_content(p, id@);
    assert forall|x: Seq<u8>| ids_of(p2, f2).contains(x) == ids_of(p, f).contains(x) by {
        if k >= 0 {
            assert(p[k].content_id@ == id@);
            if p[k].total_tasks >= max_attempts {
                lemma_upsert_ids(f, (id, key, None), x);
                lemma_remove_ids(p, k, x);
                if x == id@ {
                    assert(p[k].content_id@ == x);
                }
            } else {
                let c = ContentInfo { active_tasks: (p[k].active_tasks - 1) as usize, ..p[k] };
                if exists|i: int| 0 <= i < p.len() && p[i].content_id@ == x {
                    let i = choose|i: int| 0 <= i < p.len() && p[i].content_id@ == x;
                    assert(p2[i].content_id@ == x);
                }
                if exists|i: int| 0 <= i < p2.len() && p2[i].content_id@ == x {
                    let i = choose|i: int| 0 <= i < p2.len() && p2[i].content_id@ == x;
                    assert(p[i].content_id@ == x);
                }
            }
        }
    }
    assert(ids_of(p2, f2) =~= ids_of(p, f));
}

/// Coordinates fetching a batch of content from the network: which peer is
/// asked for which content, and what came back.
pub struct Coordinator<K, V> {
    config: CoordinatorConfig,
    pending_content: Vec<ContentInfo<K, V>>,
    finished_content: Vec<FinishedEntry<K, V>>,
    peers: Vec<PeerInfo>,
}

impl<K, V> Coordinator<K, V> {
    pub closed spec fn config(&self) -> CoordinatorConfig {
        self.config
    }

    pub closed spec fn pending(&self) -> Seq<ContentInfo<K, V>> {
        self.pending_content@
    }

    pub closed spec fn finished(&self) -> Seq<FinishedEntry<K, V>> {
        self.finished_content@
    }

    pub closed spec fn peer_infos(&self) -> Seq<PeerInfo> {
        self.peers@
    }

    /// A coordinator for the given content (one entry per content id, the
    /// last key given for an id wins) and all alive peers of the table.
    pub fn new(config: CoordinatorConfig, content_keys: Vec<([u8; 32], K)>, peers: &Peers) -> (c:
        Self)
        requires
            peers.wf(),
        ensures
            c.wf(),
            c.config() == config,
            content_pairs(c.pending()) == keyed_last(content_keys@),
            forall|i: int|
                0 <= i < c.pending().len() ==> #[trigger] c.pending()[i].active_tasks == 0
                    && c.pending()[i].total_tasks == 0 && c.pending()[i].content_value is None,
            c.finished() == Seq::<FinishedEntry<K, V>>::empty(),
            exists|sel: Seq<usize>|
                {
                    &&& is_stable_selection(
                        zero_keys(peers.entries().len()),
                        alive_flags(peers.entries()),
                        peers.entries().len(),
                        sel,
                    )
                    &&& c.peer_infos().len() == sel.len()
                    &&& forall|i: int|
                        0 <= i < sel.len() ==> {
                            &&& #[trigger] c.peer_infos()[i].enr@ == peers.entries()[sel[i] as int].enr_view()
                            &&& c.peer_infos()[i].radius.value() == peers.entries()[sel[i] as int].radius_value()
                            &&& c.peer_infos()[i].useful
                            &&& c.peer_infos()[i].content_in_progress.size() == 0
                            &&& forall|x: Seq<u8>| !c.peer_infos()[i].content_in_progress.has(x)
                            &&& forall|x: Seq<u8>| !c.peer_infos()[i].unavailable_content.has(x)
                        }
                },
    {
        let ghost input = content_keys@;
        let mut rest = content_keys;
        let total = rest.len();
        let mut pending: Vec<ContentInfo<K, V>> = Vec::new();
        let mut n: usize = 0;
        proof {
            assert(input.take(0) =~= Seq::<([u8; 32], K)>::empty());
            assert(content_pairs(pending@) =~= Seq::<([u8; 32], K)>::empty());
        }
        while rest.len() > 0
            invariant
                n <= input.len(),
                input.len() == total,
                rest@ == input.subrange(n as int, input.len() as int),
                content_pairs(pending@) == keyed_last(input.take(n as int)),
                distinct_content(pending@),
                forall|i: int|
                    0 <= i < pending@.len() ==> #[trigger] pending@[i].active_tasks == 0
                        && pending@[i].total_tasks == 0 && pending@[i].content_value is None,
            decreases rest@.len(),
        {
            let (id, key) = rest.remove(0);
            let ghost acc = content_pairs(pending@);
            let ghost e = (id, key);
            proof {
                assert(input.take(n + 1).drop_last() =~= input.take(n as int));
                assert(input.take(n + 1).last() == input[n as int]);
                assert(input[n as int] == e);
            }
            match content_position(&pending, &id) {
                Some(k) => {
                    pending.set(k, ContentInfo::new(id, key));
                    proof {
                        assert(acc[k as int].0@ == id@);
                        let c = choose|i: int| 0 <= i < acc.len() && acc[i].0@ == e.0@;
                        if c != k {
                            if c < k {
                                assert(pending@[c].content_id@ != pending@[k as int].content_id@);
                            } else {
                                assert(pending@[k as int].content_id@ != pending@[c].content_id@);
                            }
                        }
                        assert(content_pairs(pending@) =~= acc.update(k as int, e));
                    }
                },
                None => {
                    pending.push(ContentInfo::new(id, key));
                    proof {
                        assert forall|i: int| 0 <= i < acc.len() implies acc[i].0@ != e.0@ by {
                            assert(pending@[i].content_id@ != id@);
                        }
                        assert(content_pairs(pending@) =~= acc.push(e));
                    }
                },
            }
            n = n + 1;
        }
        proof {
            assert(input.take(input.len() as int) =~= input);
        }
        let alive = peers.get_all_alive();
        let ghost sel = choose|sel: Seq<usize>|
            {
                &&& is_stable_selection(
                    zero_keys(peers.entries().len()),
                    alive_flags(peers.entries()),
                    peers.entries().len(),
                    sel,
                )
                &&& alive@.len() == sel.len()
                &&& forall|i: int|
                    0 <= i < sel.len() ==> {
                        &&& #[trigger] alive@[i].0@ == peers.entries()[sel[i] as int].enr_view()
                        &&& alive@[i].1.value() == peers.entries()[sel[i] as int].radius_value()
                    }
            };
        let mut infos: Vec<PeerInfo> = Vec::new();
        let mut i: usize = 0;
        while i < alive.len()
            invariant
                0 <= i <= alive@.len(),
                alive@.len() == sel.len(),
                peers.wf(),
                is_stable_selection(
                    zero_keys(peers.entries().len()),
                    alive_flags(peers.entries()),
                    peers.entries().len(),
                    sel,
                ),
                forall|j: int|
                    0 <= j < sel.len() ==> {
                        &&& #[trigger] alive@[j].0@ == peers.entries()[sel[j] as int].enr_view()
                        &&& alive@[j].1.value() == peers.entries()[sel[j] as int].radius_value()
                    },
                infos@.len() == i,
                forall|j: int|
                    #![trigger infos@[j]]
                    0 <= j < i ==> {
                        &&& infos@[j].enr@ == peers.entries()[sel[j] as int].enr_view()
                        &&& infos@[j].radius.value() == peers.entries()[sel[j] as int].radius_value()
                        &&& infos@[j].useful
                        &&& infos@[j].content_in_progress.wf()
                        &&& infos@[j].unavailable_content.wf()
                        &&& infos@[j].content_in_progress.size() == 0
                        &&& forall|x: Seq<u8>| !infos@[j].content_in_progress.has(x)
                        &&& forall|x: Seq<u8>| !infos@[j].unavailable_content.has(x)
                    },
            decreases alive@.len() - i,
        {
            let (enr, radius) = (alive[i].0.duplicate(), alive[i].1);
            infos.push(PeerInfo::new(enr, radius));
            i = i + 1;
        }
        proof {
            assert forall|a: int, b: int| 0 <= a < b < infos@.len() implies infos@[a].enr.node_id@
                != infos@[b].enr.node_id@ by {
                assert(crate::selection::goes_before(
                    zero_keys(peers.entries().len()),
                    sel[a] as int,
                    sel[b] as int,
                ));
                let sa = sel[a] as int;
                let sb = sel[b] as int;
                assert(sa < sb);
                assert(sb < peers.entries().len());
                assert(peers.entries()[sa].node_id_view() != peers.entries()[sb].node_id_view());
                crate::peers::lemma_enr_node_id(peers.entries()[sa]);
                crate::peers::lemma_enr_node_id(peers.entries()[sb]);
                assert(infos@[a].enr@ == peers.entries()[sa].enr_view());
                assert(infos@[b].enr@ == peers.entries()[sb].enr_view());
            }
        }
        let ghost pend = pending@;
        let c = Coordinator {
            config,
            pending_content: pending,
            finished_content: Vec::new(),
            peers: infos,
        };
        proof {
            assert forall|i: int| 0 <= i < c.pending().len() implies #[trigger] c.pending()[i].active_tasks
                == 0 && c.pending()[i].total_tasks == 0 && c.pending()[i].content_value is None by {
                assert(c.pending()[i] == pend[i]);
            }
            assert forall|i: int| 0 <= i < c.pending().len() implies #[trigger] c.pending()[i].active_tasks
                >= holders(c.peer_infos(), c.pending()[i].content_id@) by {
                let x = c.pending()[i].content_id@;
                assert forall|j: int| 0 <= j < c.peer_infos().len() implies !c.peer_infos()[j].content_in_progress.has(x) by {
                    assert(infos@[j] == c.peer_infos()[j]);
                }
                lemma_no_holders(c.peer_infos(), x);
            }
            assert forall|j: int| #![trigger c.peer_infos()[j]] 0 <= j < c.peer_infos().len() implies c.peer_infos()[j].content_in_progress.wf()
                && c.peer_infos()[j].unavailable_content.wf()
                && c.peer_infos()[j].content_in_progress.size() <= config.concurrent_tasks_per_peer by {
                assert(infos@[j] == c.peer_infos()[j]);
            }
            assert(distinct_content(c.pending()));
            assert(distinct_finished(c.finished()));
            assert(disjoint_ids(c.pending(), c.finished()));
            assert(distinct_peers(c.peer_infos()));
            assert(peer_sets_wf(c.peer_infos(), config.concurrent_tasks_per_peer));
            assert(tasks_bounded(c.pending(), c.peer_infos(), config.max_attempts_per_content, config.concurrent_tasks_per_content));
        }
        c
    }

    /// Records the result of a finished task. Nothing happens where the
    /// task's peer is unknown. Otherwise the content stops being in progress
    /// at the peer; a success moves the content to the finished content with
    /// its value (replacing an earlier finished entry of the same id); an
    /// unavailable content is remembered for the peer; where the task was no
    /// success and the content is still pending, its active task count goes
    /// down, and the content is finished without a value once its attempts
    /// are used up.
    pub fn on_task_finish(&mut self, task: TaskInfo<K>, result: TaskResult<V>)
        requires
            old(self).wf(),
            find_peer(old(self).peer_infos(), task.peer.node_id@) >= 0 && find_content(
                old(self).pending(),
                task.content_id@,
            ) >= 0 ==> old(self).peer_infos()[find_peer(
                old(self).peer_infos(),
                task.peer.node_id@,
            )].content_in_progress.has(task.content_id@),
        ensures
            final(self).wf(),
            final(self).config() == old(self).config(),
            old(self).all_ids().contains(task.content_id@) ==> old(self).leads_to(*final(self)),
            final(self).all_ids() == (if find_peer(old(self).peer_infos(), task.peer.node_id@) >= 0
                && result is Success {
                old(self).all_ids().insert(task.content_id@)
            } else {
                old(self).all_ids()
            }),
            ({
                let pi = find_peer(old(self).peer_infos(), task.peer.node_id@);
                let id = task.content_id;
                let old_p = old(self).pending();
                let old_f = old(self).finished();
                let old_q = old(self).peer_infos();
                if pi < 0 {
                    &&& final(self).pending() == old_p
                    &&& final(self).finished() == old_f
                    &&& final(self).peer_infos() == old_q
                } else {
                    &&& final(self).peer_infos().len() == old_q.len()
                    &&& forall|j: int|
                        0 <= j < old_q.len() && j != pi ==> #[trigger] final(self).peer_infos()[j]
                            == old_q[j]
                    &&& final(self).peer_infos()[pi].enr == old_q[pi].enr
                    &&& final(self).peer_infos()[pi].radius == old_q[pi].radius
                    &&& final(self).peer_infos()[pi].useful == old_q[pi].useful
                    &&& forall|x: Seq<u8>|
                        #[trigger] final(self).peer_infos()[pi].content_in_progress.has(x) == (
                        old_q[pi].content_in_progress.has(x) && x != id@)
                    &&& forall|x: Seq<u8>|
                        #[trigger] final(self).peer_infos()[pi].unavailable_content.has(x) == (
                        old_q[pi].unavailable_content.has(x) || (x == id@
                            && result is ContentUnavailable))
                    &&& match result {
                        TaskResult::Success(v) => {
                            &&& final(self).pending() == pending_after_finish(
                                old_p,
                                id@,
                                true,
                                old(self).config().max_attempts_per_content,
                            )
                            &&& final(self).finished() == finished_insert(
                                old_f,
                                (id, task.content_key, Some(v)),
                            )
                        },
                        _ => {
                            &&& final(self).pending() == pending_after_finish(
                                old_p,
                                id@,
                                false,
                                old(self).config().max_attempts_per_content,
                            )
                            &&& final(self).finished() == finished_after_failure(
                                old_p,
                                old_f,
                                id,
                                task.content_key,
                                old(self).config().max_attempts_per_content,
                            )
                        },
                    }
                }
            }),
    {
        let pi = match peer_position(&self.peers, &task.peer.node_id) {
            Some(i) => i,
            None => {
                return;
            },
        };
        let ghost old_q = self.peers@;
        let ghost old_p = self.pending_content@;
        let ghost old_f = self.finished_content@;
        let id = task.content_id;
        let mut peer = self.peers.remove(pi);
        let ghost before = peer;
        assert(before == old_q[pi as int]);
        peer.content_in_progress.remove(&id);
        let is_unavailable = match &result {
            TaskResult::ContentUnavailable => true,
            _ => false,
        };
        if is_unavailable {
            peer.unavailable_content.insert(id);
        }
        self.peers.insert(pi, peer);
        proof {
            let q = self.peers@;
            assert(q =~= old_q.update(pi as int, peer));
            assert forall|d: Seq<u8>| d != id@ implies holders(q, d) == holders(old_q, d) by {
                lemma_holders_update(old_q, pi as int, peer, d);
                assert(holds(peer, d) == holds(before, d));
            }
            lemma_holders_update(old_q, pi as int, peer, id@);
            assert(holds(peer, id@) == 0);
            assert forall|a: int, b: int| 0 <= a < b < q.len() implies q[a].enr.node_id@
                != q[b].enr.node_id@ by {
                assert(old_q[a].enr.node_id@ != old_q[b].enr.node_id@);
            }
            assert forall|j: int| #![trigger q[j]] 0 <= j < q.len() implies q[j].content_in_progress.wf()
                && q[j].unavailable_content.wf() by {
                if j != pi {
                    assert(q[j] == old_q[j]);
                    assert(old_q[j].content_in_progress.wf());
                }
            }
            assert(distinct_peers(q));
            assert(peer_sets_wf(q, self.config.concurrent_tasks_per_peer));
        }
        let ghost q = self.peers@;
        match result {
            TaskResult::Success(v) => {
                match content_position(&self.pending_content, &id) {
                    Some(k) => {
                        self.pending_content.remove(k);
                        proof {
                            lemma_remove_keeps_distinct(old_p, k as int);
                        }
                    },
                    None => {},
                }
                proof {
                    assert forall|i: int| 0 <= i < self.pending_content@.len() implies self.pending_content@[i].content_id@ != id@ by {
                        if find_content(old_p, id@) >= 0 {
                            let k = find_content(old_p, id@);
                            if i < k {
                                assert(old_p[i] == self.pending_content@[i]);
                                assert(old_p[i].content_id@ != old_p[k].content_id@);
                            } else {
                                assert(old_p[i + 1] == self.pending_content@[i]);
                                assert(old_p[k].content_id@ != old_p[i + 1].content_id@);
                            }
                        } else {
                            assert(self.pending_content@[i] == old_p[i]);
                        }
                    }
                }
                proof {
                    let p = self.pending_content@;
                    assert forall|i: int| #![trigger p[i]] 0 <= i < p.len() && p[i].content_id@ != id@ implies exists|i0: int|
                        0 <= i0 < old_p.len() && old_p[i0] == p[i] by {
                        if find_content(old_p, id@) >= 0 {
                            let k = find_content(old_p, id@);
                            if i < k {
                                assert(old_p[i] == p[i]);
                            } else {
                                assert(old_p[i + 1] == p[i]);
                            }
                        } else {
                            assert(old_p[i] == p[i]);
                        }
                    }
                }
                let ghost kg = task.content_key;
                let ghost vg = v;
                finished_upsert(&mut self.finished_content, id, task.content_key, Some(v));
                proof {
                    law_success_keeps_ids(old_p, old_f, id, kg, vg, self.config.max_attempts_per_content);
                    lemma_finish_wf(old_q, q, old_p, self.pending_content@, old_f, self.finished_content@, id@, self.config.max_attempts_per_content, self.config.concurrent_tasks_per_content);
                }
            },
            _ => {
                let ghost kg = task.content_key;
                proof {
                    law_failure_keeps_ids(old_p, old_f, id, kg, self.config.max_attempts_per_content);
                }
                match content_position(&self.pending_content, &id) {
                    Some(k) => {
                        let mut c = self.pending_content.remove(k);
                        proof {
                            lemma_remove_keeps_distinct(old_p, k as int);
                            lemma_holders_update(old_q, pi as int, peer, id@);
                            assert(holds(before, id@) == 1);
                            assert(old_p[k as int].active_tasks >= holders(old_q, id@));
                        }
                        assert(c == old_p[k as int]);
                        c.active_tasks = c.active_tasks - 1;
                        if c.total_tasks >= self.config.max_attempts_per_content {
                            proof {
                                assert forall|i: int| 0 <= i < self.pending_content@.len() implies self.pending_content@[i].content_id@ != id@ by {
                                    if i < k {
                                        assert(old_p[i].content_id@ != old_p[k as int].content_id@);
                                    } else {
                                        assert(old_p[k as int].content_id@ != old_p[i + 1].content_id@);
                                    }
                                }
                                assert(find_finished(old_f, id@) == -1) by {
                                    if find_finished(old_f, id@) >= 0 {
                                        let j = find_finished(old_f, id@);
                                        assert(old_p[k as int].content_id@ != old_f[j].0@);
                                    }
                                }
                            }
                            proof {
                                let p = self.pending_content@;
                                assert forall|i: int| #![trigger p[i]] 0 <= i < p.len() && p[i].content_id@ != id@ implies exists|i0: int|
                                    0 <= i0 < old_p.len() && old_p[i0] == p[i] by {
                                    if i < k {
                                        assert(old_p[i] == p[i]);
                                    } else {
                                        assert(old_p[i + 1] == p[i]);
                                    }
                                }
                            }
                            finished_upsert(&mut self.finished_content, id, task.content_key, None);
                            proof {
                                lemma_finish_wf(old_q, q, old_p, self.pending_content@, old_f, self.finished_content@, id@, self.config.max_attempts_per_content, self.config.concurrent_tasks_per_content);
                            }
                        } else {
                            self.pending_content.insert(k, c);
                            proof {
                                assert(self.pending_content@ =~= old_p.update(
                                    k as int,
                                    ContentInfo { active_tasks: (old_p[k as int].active_tasks - 1) as usize, ..old_p[k as int] },
                                ));
                                lemma_update_keeps_distinct(old_p, k as int, self.pending_content@[k as int]);
                                let p = self.pending_content@;
                                assert forall|i: int| #![trigger p[i]] 0 <= i < p.len() && p[i].content_id@ != id@ implies exists|i0: int|
                                    0 <= i0 < old_p.len() && old_p[i0] == p[i] by {
                                    assert(old_p[i] == p[i]);
                                }
                                assert forall|j: int| 0 <= j < old_f.len() implies old_f[j].0@ != id@ by {
                                    assert(old_p[k as int].content_id@ != old_f[j].0@);
                                }
                                assert forall|j: int| #![trigger old_f[j]] 0 <= j < old_f.len() && old_f[j].0@ != id@ implies exists|j0: int|
                                    0 <= j0 < old_f.len() && old_f[j0] == old_f[j] by {
                                }
                                lemma_finish_wf(old_q, q, old_p, self.pending_content@, old_f, self.finished_content@, id@, self.config.max_attempts_per_content, self.config.concurrent_tasks_per_content);
                            }
                        }
                    },
                    None => {
                        proof {
                            let p = self.pending_content@;
                            assert forall|i: int| 0 <= i < p.len() implies p[i].content_id@ != id@ by {
                                assert(p[i] == old_p[i]);
                            }
                            assert forall|i: int| #![trigger p[i]] 0 <= i < p.len() && p[i].content_id@ != id@ implies exists|i0: int|
                                0 <= i0 < old_p.len() && old_p[i0] == p[i] by {
                                assert(old_p[i] == p[i]);
                            }
                            assert forall|j: int| #![trigger old_f[j]] 0 <= j < old_f.len() && old_f[j].0@ != id@ implies exists|j0: int|
                                0 <= j0 < old_f.len() && old_f[j0] == old_f[j] by {
                            }
                            lemma_finish_wf(old_q, q, old_p, self.pending_content@, old_f, self.finished_content@, id@, self.config.max_attempts_per_content, self.config.concurrent_tasks_per_content);
                        }
                    },
                }
            },
        }
        proof {
            if old(self).all_ids().contains(id@) {
                assert(old(self).all_ids().insert(id@) =~= old(self).all_ids());
                assert forall|j: int| 0 <= j < old_q.len() implies #[trigger] self.peer_infos()[j].enr == old_q[j].enr
                    && (!old_q[j].useful ==> !self.peer_infos()[j].useful) by {
                    if j != pi {
                        assert(q[j] == old_q[j]);
                    }
                }
            }
        }
    }

    /// Whether the peer has interesting content, and the positions of all
    /// content available to it.
    fn candidates(&self, pi: usize) -> (r: (bool, Vec<usize>))
        requires
            pi < self.peer_infos().len(),
        ensures
            r.0 == has_interest(self.peer_infos()[pi as int], self.pending(), self.config()),
            forall|x: int|
                0 <= x < r.1@.len() ==> r.1@[x] < self.pending().len() && available(
                    self.peer_infos()[pi as int],
                    self.pending()[r.1@[x] as int],
                    self.config(),
                ),
            forall|ci: int|
                0 <= ci < self.pending().len() && available(
                    self.peer_infos()[pi as int],
                    self.pending()[ci],
                    self.config(),
                ) ==> r.1@.contains(ci as usize),
            r.1@ == avail_positions(self.peer_infos()[pi as int], self.pending(), self.config(), self.pending().len()),
    {
        let peer = &self.peers[pi];
        let mut any = false;
        let mut avail: Vec<usize> = Vec::new();
        let mut ci: usize = 0;
        while ci < self.pending_content.len()
            invariant
                pi < self.peers@.len(),
                peer == self.peers@[pi as int],
                0 <= ci <= self.pending_content@.len(),
                any == exists|i: int| 0 <= i < ci && interested(*peer, self.pending_content@[i], self.config),
                forall|x: int|
                    0 <= x < avail@.len() ==> avail@[x] < ci && available(
                        *peer,
                        self.pending_content@[avail@[x] as int],
                        self.config,
                    ),
                forall|i: int|
                    0 <= i < ci && available(*peer, self.pending_content@[i], self.config)
                        ==> avail@.contains(i as usize),
                avail@ == avail_positions(*peer, self.pending_content@, self.config, ci as nat),
            decreases self.pending_content@.len() - ci,
        {
            let ghost old_avail = avail@;
            let c = &self.pending_content[ci];
            let distance = XorMetric::distance(&peer.enr.node_id.raw, &c.content_id);
            let in_radius = distance.le(&peer.radius);
            let can_attempt = c.total_tasks < self.config.max_attempts_per_content;
            if in_radius && can_attempt {
                any = true;
                if c.active_tasks < self.config.concurrent_tasks_per_content {
                    avail.push(ci);
                    proof {
                        assert(avail@[avail@.len() - 1] == ci);
                    }
                }
            }
            proof {
                assert forall|i: int|
                    0 <= i < ci + 1 && available(*peer, self.pending_content@[i], self.config)
                        implies avail@.contains(i as usize) by {
                    if i < ci {
                        assert(old_avail.contains(i as usize));
                        let w = choose|w: int| 0 <= w < old_avail.len() && old_avail[w] == i as usize;
                        assert(avail@[w] == i as usize);
                    } else {
                        assert(avail@[avail@.len() - 1] == ci);
                    }
                }
            }
            ci = ci + 1;
        }
        (any, avail)
    }

    /// Marks a peer as not useful.
    fn mark_not_useful(&mut self, pi: usize)
        requires
            old(self).wf(),
            pi < old(self).peer_infos().len(),
        ensures
            final(self).wf(),
            final(self).peer_infos() == old(self).peer_infos().update(
                pi as int,
                PeerInfo { useful: false, ..old(self).peer_infos()[pi as int] },
            ),
            final(self).pending() == old(self).pending(),
            final(self).finished() == old(self).finished(),
            final(self).config() == old(self).config(),
    {
        let ghost old_q = self.peers@;
        let mut peer = self.peers.remove(pi);
        peer.useful = false;
        self.peers.insert(pi, peer);
        proof {
            let q = self.peers@;
            assert(q =~= old_q.update(pi as int, peer));
            assert forall|d: Seq<u8>| #[trigger] holders(q, d) == holders(old_q, d) by {
                lemma_holders_update(old_q, pi as int, peer, d);
            }
            assert forall|a: int, b: int| 0 <= a < b < q.len() implies q[a].enr.node_id@
                != q[b].enr.node_id@ by {
                assert(old_q[a].enr.node_id@ != old_q[b].enr.node_id@);
            }
            assert forall|j: int| #![trigger q[j]] 0 <= j < q.len() implies q[j].content_in_progress.wf()
                && q[j].unavailable_content.wf() by {
                assert(q[j].content_in_progress == old_q[j].content_in_progress);
                assert(q[j].unavailable_content == old_q[j].unavailable_content);
            }
            let p = self.pending_content@;
            assert forall|i: int| #![trigger p[i]] 0 <= i < p.len() implies p[i].active_tasks >= holders(
                q,
                p[i].content_id@,
            ) && p[i].total_tasks <= self.config.max_attempts_per_content by {
                assert(holders(q, p[i].content_id@) == holders(old_q, p[i].content_id@));
            }
        }
    }

    /// Starts a task: the content goes in progress at the peer, and its
    /// active and total task counts go up by one.
    fn start_task(&mut self, pi: usize, ci: usize) -> (t: TaskInfo<K>)
        where
            K: Clone,
        requires
            old(self).wf(),
            pi < old(self).peer_infos().len(),
            ci < old(self).pending().len(),
            eligible_peer(old(self).peer_infos()[pi as int], old(self).config()),
            available(old(self).peer_infos()[pi as int], old(self).pending()[ci as int], old(self).config()),
        ensures
            final(self).wf(),
            final(self).config() == old(self).config(),
            final(self).finished() == old(self).finished(),
            final(self).pending() == old(self).pending().update(
                ci as int,
                ContentInfo {
                    active_tasks: (old(self).pending()[ci as int].active_tasks + 1) as usize,
                    total_tasks: (old(self).pending()[ci as int].total_tasks + 1) as usize,
                    ..old(self).pending()[ci as int]
                },
            ),
            final(self).peer_infos().len() == old(self).peer_infos().len(),
            forall|j: int|
                0 <= j < old(self).peer_infos().len() && j != pi ==> #[trigger] final(self).peer_infos()[j]
                    == old(self).peer_infos()[j],
            final(self).peer_infos()[pi as int].enr == old(self).peer_infos()[pi as int].enr,
            final(self).peer_infos()[pi as int].radius == old(self).peer_infos()[pi as int].radius,
            final(self).peer_infos()[pi as int].useful == old(self).peer_infos()[pi as int].useful,
            final(self).peer_infos()[pi as int].unavailable_content == old(self).peer_infos()[pi as int].unavailable_content,
            forall|x: Seq<u8>|
                #[trigger] final(self).peer_infos()[pi as int].content_in_progress.has(x) == (old(
                    self,
                ).peer_infos()[pi as int].content_in_progress.has(x) || x == old(self).pending()[ci as int].content_id@),
            t.peer@ == old(self).peer_infos()[pi as int].enr@,
            t.content_id == old(self).pending()[ci as int].content_id,
            cloned(old(self).pending()[ci as int].content_key, t.content_key),
    {
        let ghost old_q = self.peers@;
        let ghost old_p = self.pending_content@;
        let id = self.pending_content[ci].content_id;
        let mut peer = self.peers.remove(pi);
        let ghost before = peer;
        assert(before == old_q[pi as int]);
        peer.content_in_progress.insert(id);
        let enr = peer.enr.duplicate();
        self.peers.insert(pi, peer);
        let mut c = self.pending_content.remove(ci);
        assert(c == old_p[ci as int]);
        c.active_tasks = c.active_tasks + 1;
        c.total_tasks = c.total_tasks + 1;
        let key = c.content_key.clone();
        self.pending_content.insert(ci, c);
        proof {
            let q = self.peers@;
            let p = self.pending_content@;
            assert(q =~= old_q.update(pi as int, peer));
            assert(p =~= old_p.update(ci as int, c));
            assert forall|d: Seq<u8>| d != id@ implies #[trigger] holders(q, d) == holders(old_q, d) by {
                lemma_holders_update(old_q, pi as int, peer, d);
                assert(holds(peer, d) == holds(before, d));
            }
            lemma_holders_update(old_q, pi as int, peer, id@);
            assert(holders(q, id@) <= holders(old_q, id@) + 1);
            assert forall|a: int, b: int| 0 <= a < b < q.len() implies q[a].enr.node_id@
                != q[b].enr.node_id@ by {
                assert(old_q[a].enr.node_id@ != old_q[b].enr.node_id@);
            }
            assert forall|j: int| #![trigger q[j]] 0 <= j < q.len() implies q[j].content_in_progress.wf()
                && q[j].unavailable_content.wf()
                && q[j].content_in_progress.size() <= self.config.concurrent_tasks_per_peer by {
                if j != pi {
                    assert(q[j] == old_q[j]);
                }
            }
            lemma_update_keeps_distinct(old_p, ci as int, c);
            assert forall|i: int, j: int| 0 <= i < p.len() && 0 <= j < self.finished_content@.len() implies p[i].content_id@ != self.finished_content@[j].0@ by {
                assert(p[i].content_id@ == old_p[i].content_id@);
            }
            assert forall|i: int| #![trigger p[i]] 0 <= i < p.len() implies p[i].active_tasks >= holders(
                q,
                p[i].content_id@,
            ) && p[i].total_tasks <= self.config.max_attempts_per_content by {
                if i != ci {
                    assert(p[i] == old_p[i]);
                    if p[i].content_id@ == id@ {
                        assert(old_p[i].content_id@ != old_p[ci as int].content_id@);
                    }
                }
            }
        }
        TaskInfo { peer: enr, content_id: id, content_key: key }
    }

    /// Creates a task. Fails with `NoContent` where nothing is pending.
    /// Otherwise it repeatedly lets `choose_peer` pick one of the eligible
    /// peers (useful, below their task limit; given as node id and number of
    /// tasks in progress); an eligible peer without interesting content
    /// (within its radius, attempts left) stops being useful, and a peer
    /// without available content (interesting and below its task limit)
    /// leaves the candidates. For the first peer with available content,
    /// `choose_content` picks one of those (given as their active task
    /// counts) and the task starts. A choice out of range counts as the
    /// first candidate. Where no peer had available content, the result is
    /// `Busy` if some peer is still useful and `NoPeers` otherwise.
    pub fn create_task<F, G>(&mut self, choose_peer: F, choose_content: G) -> (r: Result<
        TaskInfo<K>,
        CreateTaskError,
    >) where
        K: Clone,
        F: Fn(&Vec<(NodeId, usize)>) -> usize,
        G: Fn(&Vec<usize>) -> usize,

        requires
            old(self).wf(),
            forall|v: &Vec<(NodeId, usize)>| #[trigger] choose_peer.requires((v,)),
            forall|w: &Vec<usize>| #[trigger] choose_content.requires((w,)),
        ensures
            final(self).wf(),
            final(self).config() == old(self).config(),
            final(self).finished() == old(self).finished(),
            final(self).all_ids() == old(self).all_ids(),
            old(self).leads_to(*final(self)),
            r matches Ok(t) ==> final(self).all_ids().contains(t.content_id@),
            (r == Err::<TaskInfo<K>, CreateTaskError>(CreateTaskError::NoContent)) <==> old(
                self,
            ).pending().len() == 0,
            old(self).pending().len() == 0 ==> final(self).pending() == old(self).pending()
                && final(self).peer_infos() == old(self).peer_infos(),
            old(self).pending().len() > 0 ==> (r is Ok <==> can_start(
                old(self).peer_infos(),
                old(self).pending(),
                old(self).config(),
            )),
            old(self).pending().len() > 0 && r is Err ==> {
                &&& final(self).pending() == old(self).pending()
                &&& final(self).peer_infos().len() == old(self).peer_infos().len()
                &&& forall|j: int|
                    0 <= j < old(self).peer_infos().len() ==> #[trigger] final(self).peer_infos()[j]
                        == after_search(old(self).peer_infos()[j], old(self).pending(), old(self).config())
                &&& (r == Err::<TaskInfo<K>, CreateTaskError>(CreateTaskError::Busy)) <==> exists|j: int|
                    0 <= j < final(self).peer_infos().len() && final(self).peer_infos()[j].useful
            },
            r is Ok ==> exists|pi: int, ci: int|
                #![trigger old(self).peer_infos()[pi], old(self).pending()[ci]]
                {
                    let old_q = old(self).peer_infos();
                    let old_p = old(self).pending();
                    let cfg = old(self).config();
                    let t = r->Ok_0;
                    &&& 0 <= pi < old_q.len()
                    &&& 0 <= ci < old_p.len()
                    &&& eligible_peer(old_q[pi], cfg)
                    &&& available(old_q[pi], old_p[ci], cfg)
                    &&& t.peer@ == old_q[pi].enr@
                    &&& t.content_id == old_p[ci].content_id
                    &&& cloned(old_p[ci].content_key, t.content_key)
                    &&& final(self).pending() == old_p.update(
                        ci,
                        ContentInfo {
                            active_tasks: (old_p[ci].active_tasks + 1) as usize,
                            total_tasks: (old_p[ci].total_tasks + 1) as usize,
                            ..old_p[ci]
                        },
                    )
                    &&& final(self).peer_infos().len() == old_q.len()
                    &&& final(self).peer_infos()[pi].enr == old_q[pi].enr
                    &&& final(self).peer_infos()[pi].radius == old_q[pi].radius
                    &&& final(self).peer_infos()[pi].useful == old_q[pi].useful
                    &&& final(self).peer_infos()[pi].unavailable_content
                        == old_q[pi].unavailable_content
                    &&& forall|x: Seq<u8>|
                        #[trigger] final(self).peer_infos()[pi].content_in_progress.has(x) == (
                        old_q[pi].content_in_progress.has(x) || x == old_p[ci].content_id@)
                    &&& forall|j: int|
                        0 <= j < old_q.len() && j != pi ==> #[trigger] final(self).peer_infos()[j]
                            == old_q[j] || (final(self).peer_infos()[j] == after_search(
                            old_q[j],
                            old_p,
                            cfg,
                        ) && !(eligible_peer(old_q[j], cfg) && has_available(old_q[j], old_p, cfg)))
                },
            r is Ok ==> exists|v: Vec<(NodeId, usize)>, k: usize, w: Vec<usize>, m: usize, e: Seq<usize>|
                #![trigger chosen_round(old(self).peer_infos(), old(self).pending(), old(self).config(), e, v@, k, w@, m)]
                {
                    let old_q = old(self).peer_infos();
                    let old_p = old(self).pending();
                    let cfg = old(self).config();
                    let pi = pick(e, k) as int;
                    let ci = pick(avail_positions(old_q[pi], old_p, cfg, old_p.len()), m) as int;
                    &&& call_ensures(choose_peer, (&v,), k)
                    &&& call_ensures(choose_content, (&w,), m)
                    &&& chosen_round(old_q, old_p, cfg, e, v@, k, w@, m)
                    &&& r->Ok_0.peer@ == old_q[pi].enr@
                    &&& r->Ok_0.content_id == old_p[ci].content_id
                },
    {
        let ghost old_q = self.peers@;
        let ghost old_p = self.pending_content@;
        let ghost cfg = self.config;
        if self.pending_content.len() == 0 {
            return Err(CreateTaskError::NoContent);
        }
        let mut eligible: Vec<usize> = Vec::new();
        let mut i: usize = 0;
        while i < self.peers.len()
            invariant
                self.peers@ == old_q,
                self.config == cfg,
                0 <= i <= old_q.len(),
                forall|a: int, b: int| 0 <= a < b < eligible@.len() ==> eligible@[a] < eligible@[b],
                forall|a: int|
                    0 <= a < eligible@.len() ==> eligible@[a] < i && eligible_peer(
                        old_q[eligible@[a] as int],
                        cfg,
                    ),
                forall|j: int|
                    0 <= j < i && eligible_peer(old_q[j], cfg) ==> listed(eligible@, j),
            decreases old_q.len() - i,
        {
            let ghost before = eligible@;
            let p = &self.peers[i];
            if p.useful && p.content_in_progress.len() < self.config.concurrent_tasks_per_peer {
                eligible.push(i);
            }
            proof {
                assert forall|j: int|
                    0 <= j < i + 1 && eligible_peer(old_q[j], cfg) implies listed(eligible@, j) by {
                    if j < i {
                        assert(listed(before, j));
                        let w = choose|w: int| 0 <= w < before.len() && before[w] == j;
                        assert(eligible@[w] == j);
                    } else {
                        assert(eligible@[eligible@.len() - 1] == i);
                    }
                }
            }
            i = i + 1;
        }
        proof {
            assert forall|j: int|
                0 <= j < old_q.len() && !listed(eligible@, j) implies self.peer_infos()[j]
                    == after_search(old_q[j], old_p, cfg) && !(eligible_peer(old_q[j], cfg)
                    && has_available(old_q[j], old_p, cfg)) by {
                assert(!eligible_peer(old_q[j], cfg));
                assert(after_search(old_q[j], old_p, cfg) == old_q[j]);
            }
        }
        while eligible.len() > 0
            invariant
                self.wf(),
                self.pending() == old_p,
                self.finished() == old(self).finished(),
                self.config() == cfg,
                cfg == old(self).config(),
                old_q == old(self).peer_infos(),
                old_p == old(self).pending(),
                old_p.len() > 0,
                self.peer_infos().len() == old_q.len(),
                forall|v: &Vec<(NodeId, usize)>| #[trigger] choose_peer.requires((v,)),
                forall|w: &Vec<usize>| #[trigger] choose_content.requires((w,)),
                forall|a: int, b: int| 0 <= a < b < eligible@.len() ==> eligible@[a] < eligible@[b],
                forall|a: int|
                    0 <= a < eligible@.len() ==> eligible@[a] < old_q.len() && eligible_peer(
                        old_q[eligible@[a] as int],
                        cfg,
                    ),
                forall|j: int|
                    0 <= j < old_q.len() && listed(eligible@, j) ==> self.peer_infos()[j]
                        == old_q[j],
                forall|j: int|
                    0 <= j < old_q.len() && !listed(eligible@, j) ==> self.peer_infos()[j]
                        == after_search(old_q[j], old_p, cfg) && !(eligible_peer(old_q[j], cfg)
                        && has_available(old_q[j], old_p, cfg)),
            decreases eligible@.len(),
        {
            let mut choices: Vec<(NodeId, usize)> = Vec::new();
            let mut a: usize = 0;
            while a < eligible.len()
                invariant
                    0 <= a <= eligible@.len(),
                    forall|x: int| 0 <= x < eligible@.len() ==> eligible@[x] < self.peers@.len(),
                    choices@.len() == a,
                    forall|x: int|
                        0 <= x < a ==> #[trigger] choices@[x].0@ == self.peers@[eligible@[x] as int].enr.node_id@
                            && choices@[x].1 == self.peers@[eligible@[x] as int].content_in_progress.size(),
                decreases eligible@.len() - a,
            {
                let pe = &self.peers[eligible[a]];
                choices.push((pe.enr.node_id, pe.content_in_progress.len()));
                a = a + 1;
            }
            let k0 = choose_peer(&choices);
            let k = if k0 < eligible.len() {
                k0
            } else {
                0
            };
            let pi = eligible[k];
            assert(listed(eligible@, pi as int));
            let ghost before_q = self.peers@;
            assert(forall|x: int|
                0 <= x < choices@.len() ==> #[trigger] choices@[x].0@ == before_q[eligible@[x] as int].enr.node_id@
                    && choices@[x].1 == before_q[eligible@[x] as int].content_in_progress.size());
            assert(forall|j: int| 0 <= j < old_q.len() && listed(eligible@, j) ==> before_q[j] == old_q[j]);
            let (any, avail) = self.candidates(pi);
            if !any {
                self.mark_not_useful(pi);
            }
            if avail.len() == 0 {
                let ghost before = eligible@;
                eligible.remove(k);
                proof {
                    assert(before[k as int] == pi);
                    assert(!has_available(old_q[pi as int], old_p, cfg));
                    assert(self.peer_infos()[pi as int] == after_search(old_q[pi as int], old_p, cfg));
                    assert forall|j: int|
                        0 <= j < old_q.len() && listed(eligible@, j) implies self.peer_infos()[j]
                            == old_q[j] by {
                        let w = choose|w: int| 0 <= w < eligible@.len() && eligible@[w] == j;
                        if w < k {
                            assert(before[w] == j);
                        } else {
                            assert(before[w + 1] == j);
                        }
                        assert(listed(before, j));
                        if j == pi {
                            assert(false) by {
                                if w < k {
                                    assert(before[w] != before[k as int]);
                                } else {
                                    assert(before[k as int] != before[w + 1]);
                                }
                            }
                        }
                    }
                    assert forall|j: int|
                        0 <= j < old_q.len() && !listed(eligible@, j) implies self.peer_infos()[j]
                            == after_search(old_q[j], old_p, cfg) && !(eligible_peer(old_q[j], cfg)
                            && has_available(old_q[j], old_p, cfg)) by {
                        if j != pi {
                            if listed(before, j) {
                                let w = choose|w: int| 0 <= w < before.len() && before[w] == j;
                                if w < k {
                                    assert(eligible@[w] == j);
                                } else {
                                    assert(w != k);
                                    assert(eligible@[w - 1] == j);
                                }
                            }
                        }
                    }
                    assert forall|x: int, y: int| 0 <= x < y < eligible@.len() implies eligible@[x] < eligible@[y] by {
                        let x0 = if x < k { x } else { x + 1 };
                        let y0 = if y < k { y } else { y + 1 };
                        assert(eligible@[x] == before[x0]);
                        assert(eligible@[y] == before[y0]);
                    }
                }
                continue;
            }
            let mut weights: Vec<usize> = Vec::new();
            let mut b: usize = 0;
            while b < avail.len()
                invariant
                    0 <= b <= avail@.len(),
                    forall|x: int| 0 <= x < avail@.len() ==> avail@[x] < self.pending_content@.len(),
                    weights@.len() == b,
                    forall|x: int|
                        0 <= x < b ==> #[trigger] weights@[x] == self.pending_content@[avail@[x] as int].active_tasks,
                decreases avail@.len() - b,
            {
                weights.push(self.pending_content[avail[b]].active_tasks);
                b = b + 1;
            }
            let m0 = choose_content(&weights);
            let m = if m0 < avail.len() {
                m0
            } else {
                0
            };
            let ci = avail[m];
            let ghost mid_q = self.peers@;
            proof {
                assert(before_q[pi as int] == old_q[pi as int]);
                assert(pick(eligible@, k0) == pi);
                assert(pick(avail@, m0) == ci);
                assert forall|x: int|
                    0 <= x < choices@.len() implies #[trigger] choices@[x].0@ == old_q[eligible@[x] as int].enr.node_id@
                        && choices@[x].1 == old_q[eligible@[x] as int].content_in_progress.size() by {
                    assert(listed(eligible@, eligible@[x] as int));
                    assert(choices@[x].0@ == before_q[eligible@[x] as int].enr.node_id@);
                    assert(before_q[eligible@[x] as int] == old_q[eligible@[x] as int]);
                }
                assert(chosen_round(old_q, old_p, cfg, eligible@, choices@, k0, weights@, m0));
            }
            let task = self.start_task(pi, ci);
            proof {
                lemma_update_same_id_keeps_ids(old_p, old(self).finished(), ci as int, self.pending()[ci as int]);
                assert(mid_q[pi as int] == old_q[pi as int]);
                let final_q = self.peers@;
                assert forall|j: int|
                    0 <= j < old_q.len() && j != pi implies #[trigger] final_q[j] == old_q[j] || (final_q[j]
                        == after_search(old_q[j], old_p, cfg) && !(eligible_peer(old_q[j], cfg)
                        && has_available(old_q[j], old_p, cfg))) by {
                    assert(final_q[j] == mid_q[j]);
                }
            }
            return Ok(task);
        }
        let mut any_useful = false;
        let mut j: usize = 0;
        while j < self.peers.len()
            invariant
                0 <= j <= self.peers@.len(),
                any_useful == exists|x: int| 0 <= x < j && self.peers@[x].useful,
            decreases self.peers@.len() - j,
        {
            if self.peers[j].useful {
                any_useful = true;
            }
            j = j + 1;
        }
        proof {
            assert(eligible@.len() == 0);
            assert forall|x: int| 0 <= x < old_q.len() implies #[trigger] self.peer_infos()[x]
                == after_search(old_q[x], old_p, cfg) by {
                assert(!listed(eligible@, x));
            }
            assert forall|x: int| 0 <= x < old_q.len() && eligible_peer(old_q[x], cfg) implies !has_available(old_q[x], old_p, cfg) by {
                assert(!listed(eligible@, x));
                assert(self.peer_infos()[x] == after_search(old_q[x], old_p, cfg));
            }
        }
        if any_useful {
            Err(CreateTaskError::Busy)
        } else {
            Err(CreateTaskError::NoPeers)
        }
    }

    /// Whether a task may be reported as finished: where its peer is known
    /// and its content still pending, the content is in progress at that
    /// peer (as it is for a task this coordinator created and that was not
    /// reported yet).
    pub fn task_in_progress(&self, task: &TaskInfo<K>) -> (r: bool)
        requires
            self.wf(),
        ensures
            r == (find_peer(self.peer_infos(), task.peer.node_id@) >= 0 && find_content(
                self.pending(),
                task.content_id@,
            ) >= 0 ==> self.peer_infos()[find_peer(
                self.peer_infos(),
                task.peer.node_id@,
            )].content_in_progress.has(task.content_id@)),
    {
        match peer_position(&self.peers, &task.peer.node_id) {
            None => true,
            Some(pi) => match content_position(&self.pending_content, &task.content_id) {
                None => true,
                Some(_) => self.peers[pi].content_in_progress.contains(&task.content_id),
            },
        }
    }

    /// How many content items are still pending.
    pub fn pending_count(&self) -> (r: usize)
        ensures
            r == self.pending().len(),
    {
        self.pending_content.len()
    }

    /// All finished content, which leaves the coordinator; every content
    /// must be finished.
    pub fn get_content(&mut self) -> (r: Vec<FinishedEntry<K, V>>)
        requires
            old(self).wf(),
            old(self).pending().len() == 0,
        ensures
            final(self).wf(),
            r@ == old(self).finished(),
            final(self).finished() == Seq::<FinishedEntry<K, V>>::empty(),
            final(self).pending() == old(self).pending(),
            final(self).peer_infos() == old(self).peer_infos(),
            final(self).config() == old(self).config(),
    {
        let mut out: Vec<FinishedEntry<K, V>> = Vec::new();
        std::mem::swap(&mut out, &mut self.finished_content);
        assert(self.finished() =~= Seq::<FinishedEntry<K, V>>::empty());
        out
    }

    /// `next` is a state this coordinator can reach by creating and
    /// finishing its tasks: still well formed, with the same limits, the
    /// same content ids (pending or finished) and the same peers in the same
    /// places, and no peer that had stopped being useful is useful again.
    pub open spec fn leads_to(self, next: Self) -> bool {
        &&& next.wf()
        &&& next.config() == self.config()
        &&& next.all_ids() == self.all_ids()
        &&& next.peer_infos().len() == self.peer_infos().len()
        &&& forall|j: int|
            0 <= j < self.peer_infos().len() ==> #[trigger] next.peer_infos()[j].enr == self.peer_infos()[j].enr
                && (!self.peer_infos()[j].useful ==> !next.peer_infos()[j].useful)
    }

    /// Every content id that is pending or finished.
    pub open spec fn all_ids(&self) -> Set<Seq<u8>> {
        ids_of(self.pending(), self.finished())
    }

    /// The coordinator's invariant.
    pub open spec fn wf(&self) -> bool {
        &&& distinct_content(self.pending())
        &&& distinct_finished(self.finished())
        &&& disjoint_ids(self.pending(), self.finished())
        &&& distinct_peers(self.peer_infos())
        &&& peer_sets_wf(self.peer_infos(), self.config().concurrent_tasks_per_peer)
        &&& tasks_bounded(
            self.pending(),
            self.peer_infos(),
            self.config().max_attempts_per_content,
            self.config().concurrent_tasks_per_content,
        )
    }
}

/// Some entry carries the content id.
pub open spec fn lists_id<K>(out: Seq<([u8; 32], K)>, id: Seq<u8>) -> bool {
    exists|k: int| 0 <= k < out.len() && out[k].0@ == id
}

proof fn lemma_keyed_distinct<K>(s: Seq<([u8; 32], K)>)
    ensures
        forall|a: int, b: int|
            0 <= a < b < keyed_last(s).len() ==> #[trigger] keyed_last(s)[a].0@ != #[trigger] keyed_last(s)[b].0@,
    decreases s.len(),
{
    if s.len() > 0 {
        let prefix = s.drop_last();
        lemma_keyed_distinct(prefix);
        let acc = keyed_last(prefix);
        let e = s.last();
        let out = keyed_last(s);
        if exists|c: int| 0 <= c < acc.len() && acc[c].0@ == e.0@ {
            let c = choose|c: int| 0 <= c < acc.len() && acc[c].0@ == e.0@;
            assert(out == acc.update(c, e));
            assert forall|a: int, b: int| 0 <= a < b < out.len() implies #[trigger] out[a].0@ != #[trigger] out[b].0@ by {
                assert(out[a].0@ == acc[a].0@);
                assert(out[b].0@ == acc[b].0@);
            }
        } else {
            assert(out == acc.push(e));
            assert forall|a: int, b: int| 0 <= a < b < out.len() implies #[trigger] out[a].0@ != #[trigger] out[b].0@ by {
                assert(out[a] == acc[a]);
                if b < acc.len() {
                    assert(out[b] == acc[b]);
                }
            }
        }
    }
}

proof fn lemma_keyed_covers<K>(s: Seq<([u8; 32], K)>)
    ensures
        forall|i: int|
            #![trigger s[i]]
            0 <= i < s.len() ==> lists_id(keyed_last(s), s[i].0@),
    decreases s.len(),
{
    if s.len() > 0 {
        let prefix = s.drop_last();
        lemma_keyed_covers(prefix);
        let acc = keyed_last(prefix);
        let e = s.last();
        let n = s.len() - 1;
        let out = keyed_last(s);
        assert forall|i: int| #![trigger s[i]] 0 <= i < s.len() implies lists_id(out, s[i].0@) by {
            if exists|c: int| 0 <= c < acc.len() && acc[c].0@ == e.0@ {
                let c = choose|c: int| 0 <= c < acc.len() && acc[c].0@ == e.0@;
                assert(out == acc.update(c, e));
                if i == n {
                    assert(out[c].0@ == s[i].0@);
                } else {
                    assert(prefix[i] == s[i]);
                    assert(lists_id(acc, prefix[i].0@));
                    let k = choose|k: int| 0 <= k < acc.len() && #[trigger] acc[k].0@ == prefix[i].0@;
                    assert(out[k].0@ == acc[k].0@);
                }
            } else {
                assert(out == acc.push(e));
                if i == n {
                    assert(out[acc.len() as int].0@ == s[i].0@);
                } else {
                    assert(prefix[i] == s[i]);
                    assert(lists_id(acc, prefix[i].0@));
                    let k = choose|k: int| 0 <= k < acc.len() && #[trigger] acc[k].0@ == prefix[i].0@;
                    assert(out[k] == acc[k]);
                }
            }
        }
    }
}

proof fn lemma_keyed_from_last<K>(s: Seq<([u8; 32], K)>)
    ensures
        forall|k: int|
            #![trigger keyed_last(s)[k]]
            0 <= k < keyed_last(s).len() ==> exists|i: int|
                0 <= i < s.len() && #[trigger] s[i] == keyed_last(s)[k] && forall|j: int|
                    i < j < s.len() ==> s[j].0@ != s[i].0@,
    decreases s.len(),
{
    if s.len() > 0 {
        let prefix = s.drop_last();
        lemma_keyed_from_last(prefix);
        lemma_keyed_distinct(prefix);
        let acc = keyed_last(prefix);
        let e = s.last();
        let n = s.len() - 1;
        let out = keyed_last(s);
        let found = exists|c: int| 0 <= c < acc.len() && acc[c].0@ == e.0@;
        let c = if found {
            choose|c: int| 0 <= c < acc.len() && acc[c].0@ == e.0@
        } else {
            acc.len() as int
        };
        if found {
            assert(out == acc.update(c, e));
        } else {
            assert(out == acc.push(e));
        }
        assert forall|k: int| #![trigger out[k]] 0 <= k < out.len() implies exists|i: int|
            0 <= i < s.len() && #[trigger] s[i] == out[k] && forall|j: int| i < j < s.len() ==> s[j].0@ != s[i].0@ by {
            if k == c {
                assert(s[n] == out[k]);
            } else {
                assert(out[k] == acc[k]);
                let i = choose|i: int| 0 <= i < prefix.len() && #[trigger] prefix[i] == acc[k] && forall|j: int|
                    i < j < prefix.len() ==> prefix[j].0@ != prefix[i].0@;
                assert(prefix[i] == s[i]);
                if found {
                    if k < c {
                        assert(acc[k].0@ != acc[c].0@);
                    } else {
                        assert(acc[c].0@ != acc[k].0@);
                    }
                }
                assert forall|j: int| i < j < s.len() implies s[j].0@ != s[i].0@ by {
                    if j < n {
                        assert(prefix[j] == s[j]);
                    }
                }
            }
        }
    }
}

/// The content a coordinator starts with (`keyed_last` of the requested
/// pairs): no content id twice; every requested id is there; and each entry
/// is a requested pair after which no pair with the same id was requested
/// (the last key given for an id wins).
pub proof fn law_keyed_last<K>(s: Seq<([u8; 32], K)>)
    ensures
        forall|a: int, b: int|
            0 <= a < b < keyed_last(s).len() ==> #[trigger] keyed_last(s)[a].0@ != #[trigger] keyed_last(s)[b].0@,
        forall|i: int|
            #![trigger s[i]]
            0 <= i < s.len() ==> lists_id(keyed_last(s), s[i].0@),
        forall|k: int|
            #![trigger keyed_last(s)[k]]
            0 <= k < keyed_last(s).len() ==> exists|i: int|
                0 <= i < s.len() && #[trigger] s[i] == keyed_last(s)[k] && forall|j: int|
                    i < j < s.len() ==> s[j].0@ != s[i].0@,
{
    lemma_keyed_distinct(s);
    lemma_keyed_covers(s);
    lemma_keyed_from_last(s);
}

/// A task's peer and content: the peer is useful and below its task
/// limit, and the content lies within the peer's radius (the XOR distance
/// between the peer's node id and the content id is at most the radius),
/// still has attempts left and is below its limit of concurrent tasks.
pub proof fn law_task_content_within_radius<K, V>(peer: PeerInfo, c: ContentInfo<K, V>, cfg: CoordinatorConfig)
    requires
        eligible_peer(peer, cfg),
        available(peer, c, cfg),
    ensures
        peer.useful,
        peer.content_in_progress.size() < cfg.concurrent_tasks_per_peer,
        crate::distance::be_value(Seq::new(32, |x: int| peer.enr.node_id@[x] ^ c.content_id@[x]))
            <= crate::distance::be_value(peer.radius.bytes@),
        c.total_tasks < cfg.max_attempts_per_content,
        c.active_tasks < cfg.concurrent_tasks_per_content,
{
    assert(crate::distance::xor_seq(peer.enr.node_id@, c.content_id@) =~= Seq::new(
        32,
        |x: int| peer.enr.node_id@[x] ^ c.content_id@[x],
    ));
}

/// A task is owed whenever some useful peer below its task limit has
/// pending content within its radius (by XOR distance) with attempts left
/// and below its limit of concurrent tasks.
pub proof fn law_task_owed_for_content_in_radius<K, V>(
    q: Seq<PeerInfo>,
    p: Seq<ContentInfo<K, V>>,
    cfg: CoordinatorConfig,
    j: int,
    i: int,
)
    requires
        0 <= j < q.len(),
        0 <= i < p.len(),
        q[j].useful,
        q[j].content_in_progress.size() < cfg.concurrent_tasks_per_peer,
        crate::distance::be_value(Seq::new(32, |x: int| q[j].enr.node_id@[x] ^ p[i].content_id@[x]))
            <= crate::distance::be_value(q[j].radius.bytes@),
        p[i].total_tasks < cfg.max_attempts_per_content,
        p[i].active_tasks < cfg.concurrent_tasks_per_content,
    ensures
        can_start(q, p, cfg),
{
    assert(crate::distance::xor_seq(q[j].enr.node_id@, p[i].content_id@) =~= Seq::new(
        32,
        |x: int| q[j].enr.node_id@[x] ^ p[i].content_id@[x],
    ));
    assert(available(q[j], p[i], cfg));
    assert(has_available(q[j], p, cfg));
}

/// A search marks a useful peer as not useful only when no pending content
/// lies within its radius (by XOR distance) with attempts left.
pub proof fn law_not_useful_without_content_in_radius<K, V>(
    peer: PeerInfo,
    p: Seq<ContentInfo<K, V>>,
    cfg: CoordinatorConfig,
)
    requires
        peer.useful,
        !after_search(peer, p, cfg).useful,
    ensures
        forall|i: int|
            #![trigger p[i]]
            0 <= i < p.len() ==> !(crate::distance::be_value(
                Seq::new(32, |x: int| peer.enr.node_id@[x] ^ p[i].content_id@[x]),
            ) <= crate::distance::be_value(peer.radius.bytes@) && p[i].total_tasks
                < cfg.max_attempts_per_content),
{
    assert forall|i: int| #![trigger p[i]] 0 <= i < p.len() implies !(crate::distance::be_value(
        Seq::new(32, |x: int| peer.enr.node_id@[x] ^ p[i].content_id@[x]),
    ) <= crate::distance::be_value(peer.radius.bytes@) && p[i].total_tasks
        < cfg.max_attempts_per_content) by {
        assert(crate::distance::xor_seq(peer.enr.node_id@, p[i].content_id@) =~= Seq::new(
            32,
            |x: int| peer.enr.node_id@[x] ^ p[i].content_id@[x],
        ));
        assert(!interested(peer, p[i], cfg));
    }
}

/// Reaching is transitive: a state reached from a reached state is reached.
pub proof fn law_leads_to_chain<K, V>(a: Coordinator<K, V>, b: Coordinator<K, V>, c: Coordinator<K, V>)
    requires
        a.leads_to(b),
        b.leads_to(c),
    ensures
        a.leads_to(c),
{
    assert forall|j: int| 0 <= j < a.peer_infos().len() implies #[trigger] c.peer_infos()[j].enr
        == a.peer_infos()[j].enr && (!a.peer_infos()[j].useful ==> !c.peer_infos()[j].useful) by {
        assert(b.peer_infos()[j].enr == a.peer_infos()[j].enr);
        assert(c.peer_infos()[j].enr == b.peer_infos()[j].enr);
    }
}

/// Along any run of `create_task` and `on_task_finish` calls (each task
/// finished being one this coordinator created), every state keeps the
/// content ids of the first one, with pending and finished content
/// disjoint, the task counters within their limits, the same peers, and
/// no peer useful again once it stopped being useful.
pub proof fn law_run_keeps_invariant<K, V>(run: Seq<Coordinator<K, V>>)
    requires
        run.len() > 0,
        run[0].wf(),
        forall|i: int| 0 <= i < run.len() - 1 ==> #[trigger] run[i].leads_to(run[i + 1]),
    ensures
        forall|i: int| 0 < i < run.len() ==> #[trigger] run[0].leads_to(run[i]),
        forall|i: int|
            #![trigger run[i]]
            0 <= i < run.len() ==> run[i].all_ids() == run[0].all_ids() && disjoint_ids(
                run[i].pending(),
                run[i].finished(),
            ) && tasks_bounded(
                run[i].pending(),
                run[i].peer_infos(),
                run[0].config().max_attempts_per_content,
                run[0].config().concurrent_tasks_per_content,
            ),
    decreases run.len(),
{
    if run.len() > 1 {
        let prefix = run.drop_last();
        assert forall|i: int| 0 <= i < prefix.len() - 1 implies #[trigger] prefix[i].leads_to(prefix[i + 1]) by {
            assert(prefix[i] == run[i]);
            assert(prefix[i + 1] == run[i + 1]);
        }
        law_run_keeps_invariant(prefix);
        let n = run.len() - 1;
        assert forall|i: int| 0 < i < run.len() implies #[trigger] run[0].leads_to(run[i]) by {
            if i < n {
                assert(prefix[i] == run[i]);
                assert(prefix[0].leads_to(prefix[i]));
            } else if n > 1 {
                let j = n - 1;
                assert(prefix[0].leads_to(prefix[j]));
                assert(run[j].leads_to(run[j + 1]));
                law_leads_to_chain(run[0], run[j], run[j + 1]);
            } else {
                let j = 0int;
                assert(run[j].leads_to(run[j + 1]));
            }
        }
    }
    assert forall|i: int| #![trigger run[i]] 0 <= i < run.len() implies run[i].all_ids() == run[0].all_ids()
        && disjoint_ids(run[i].pending(), run[i].finished()) && tasks_bounded(
        run[i].pending(),
        run[i].peer_infos(),
        run[0].config().max_attempts_per_content,
        run[0].config().concurrent_tasks_per_content,
    ) by {
        if i > 0 {
            assert(run[0].leads_to(run[i]));
        }
    }
}

pub open spec fn distinct_content<K, V>(p: Seq<ContentInfo<K, V>>) -> bool {
    forall|i: int, j: int| 0 <= i < j < p.len() ==> p[i].content_id@ != p[j].content_id@
}

pub open spec fn distinct_finished<K, V>(f: Seq<FinishedEntry<K, V>>) -> bool {
    forall|i: int, j: int| 0 <= i < j < f.len() ==> f[i].0@ != f[j].0@
}

pub open spec fn distinct_peers(q: Seq<PeerInfo>) -> bool {
    forall|i: int, j: int| 0 <= i < j < q.len() ==> q[i].enr.node_id@ != q[j].enr.node_id@
}

pub open spec fn disjoint_ids<K, V>(p: Seq<ContentInfo<K, V>>, f: Seq<FinishedEntry<K, V>>) -> bool {
    forall|i: int, j: int| 0 <= i < p.len() && 0 <= j < f.len() ==> p[i].content_id@ != f[j].0@
}

pub open spec fn peer_sets_wf(q: Seq<PeerInfo>, per_peer: usize) -> bool {
    forall|i: int|
        #![trigger q[i]]
        0 <= i < q.len() ==> q[i].content_in_progress.wf() && q[i].unavailable_content.wf()
            && q[i].content_in_progress.size() <= per_peer
}

/// Every pending content counts at least as many active tasks as peers
/// that have it in progress, at most `per_content` of them, and was
/// attempted at most `max` times.
pub open spec fn tasks_bounded<K, V>(p: Seq<ContentInfo<K, V>>, q: Seq<PeerInfo>, max: usize, per_content: usize) -> bool {
    forall|i: int|
        #![trigger p[i]]
        0 <= i < p.len() ==> p[i].active_tasks >= holders(q, p[i].content_id@) && p[i].total_tasks
            <= max && p[i].active_tasks <= per_content
}

proof fn lemma_remove_keeps_distinct<K, V>(p: Seq<ContentInfo<K, V>>, k: int)
    requires
        distinct_content(p),
        0 <= k < p.len(),
    ensures
        distinct_content(p.remove(k)),
{
    let r = p.remove(k);
    assert forall|i: int, j: int| 0 <= i < j < r.len() implies r[i].content_id@ != r[j].content_id@ by {
        let a = if i < k { i } else { i + 1 };
        let b = if j < k { j } else { j + 1 };
        assert(r[i] == p[a]);
        assert(r[j] == p[b]);
    }
}

proof fn lemma_update_keeps_distinct<K, V>(p: Seq<ContentInfo<K, V>>, k: int, c: ContentInfo<K, V>)
    requires
        distinct_content(p),
        0 <= k < p.len(),
        c.content_id@ == p[k].content_id@,
    ensures
        distinct_content(p.update(k, c)),
{
    let r = p.update(k, c);
    assert forall|i: int, j: int| 0 <= i < j < r.len() implies r[i].content_id@ != r[j].content_id@ by {
        assert(r[i].content_id@ == p[i].content_id@);
        assert(r[j].content_id@ == p[j].content_id@);
    }
}

/// After a task on `id` ended: the invariant's content parts hold again
/// when every other entry came from before and the holder counts of other
/// ids did not change.
proof fn lemma_finish_wf<K, V>(
    old_q: Seq<PeerInfo>,
    q: Seq<PeerInfo>,
    old_p: Seq<ContentInfo<K, V>>,
    p: Seq<ContentInfo<K, V>>,
    old_f: Seq<FinishedEntry<K, V>>,
    f: Seq<FinishedEntry<K, V>>,
    id: Seq<u8>,
    max: usize,
    per_content: usize,
)
    requires
        disjoint_ids(old_p, old_f),
        tasks_bounded(old_p, old_q, max, per_content),
        forall|d: Seq<u8>| d != id ==> #[trigger] holders(q, d) == holders(old_q, d),
        forall|i: int|
            #![trigger p[i]]
            0 <= i < p.len() && p[i].content_id@ != id ==> exists|i0: int|
                0 <= i0 < old_p.len() && old_p[i0] == p[i],
        forall|i: int|
            #![trigger p[i]]
            0 <= i < p.len() && p[i].content_id@ == id ==> p[i].active_tasks >= holders(q, id)
                && p[i].total_tasks <= max && p[i].active_tasks <= per_content,
        forall|j: int|
            #![trigger f[j]]
            0 <= j < f.len() && f[j].0@ == id ==> forall|i: int|
                0 <= i < p.len() ==> p[i].content_id@ != id,
        forall|j: int|
            #![trigger f[j]]
            0 <= j < f.len() && f[j].0@ != id ==> exists|j0: int|
                0 <= j0 < old_f.len() && old_f[j0] == f[j],
    ensures
        disjoint_ids(p, f),
        tasks_bounded(p, q, max, per_content),
{
    assert forall|i: int, j: int| 0 <= i < p.len() && 0 <= j < f.len() implies p[i].content_id@
        != f[j].0@ by {
        if f[j].0@ != id {
            let j0 = choose|j0: int| 0 <= j0 < old_f.len() && old_f[j0] == f[j];
            if p[i].content_id@ != id {
                let i0 = choose|i0: int| 0 <= i0 < old_p.len() && old_p[i0] == p[i];
                assert(old_p[i0].content_id@ != old_f[j0].0@);
            }
        }
    }
    assert forall|i: int| #![trigger p[i]] 0 <= i < p.len() implies p[i].active_tasks >= holders(
        q,
        p[i].content_id@,
    ) && p[i].total_tasks <= max && p[i].active_tasks <= per_content by {
        if p[i].content_id@ != id {
            let i0 = choose|i0: int| 0 <= i0 < old_p.len() && old_p[i0] == p[i];
            assert(old_p[i0].active_tasks >= holders(old_q, old_p[i0].content_id@));
            assert(holders(q, p[i].content_id@) == holders(old_q, p[i].content_id@));
        }
    }
}

/// Puts a finished entry in place of the one with the same id, or at the
/// end.
fn finished_upsert<K, V>(f: &mut Vec<FinishedEntry<K, V>>, id: [u8; 32], key: K, value: Option<Box<V>>)
    requires
        distinct_finished(old(f)@),
    ensures
        distinct_finished(final(f)@),
        final(f)@ == finished_insert(old(f)@, (id, key, value)),
        forall|j: int|
            #![trigger final(f)@[j]]
            0 <= j < final(f)@.len() && final(f)@[j].0@ != id@ ==> exists|j0: int|
                0 <= j0 < old(f)@.len() && old(f)@[j0] == final(f)@[j],
{
    let ghost before = f@;
    match finished_position(f, &id) {
        Some(j) => {
            f.set(j, (id, key, value));
            proof {
                assert forall|a: int, b: int| 0 <= a < b < f@.len() implies f@[a].0@ != f@[b].0@ by {
                    assert(f@[a].0@ == before[a].0@);
                    assert(f@[b].0@ == before[b].0@);
                }
                assert forall|i: int|
                    #![trigger f@[i]]
                    0 <= i < f@.len() && f@[i].0@ != id@ implies exists|j0: int|
                        0 <= j0 < before.len() && before[j0] == f@[i] by {
                    assert(before[i] == f@[i]);
                }
            }
        },
        None => {
            f.push((id, key, value));
            proof {
                assert forall|a: int, b: int| 0 <= a < b < f@.len() implies f@[a].0@ != f@[b].0@ by {
                    if b == before.len() {
                        assert(before[a].0@ != id@);
                    }
                }
                assert forall|i: int|
                    #![trigger f@[i]]
                    0 <= i < f@.len() && f@[i].0@ != id@ implies exists|j0: int|
                        0 <= j0 < before.len() && before[j0] == f@[i] by {
                    assert(before[i] == f@[i]);
                }
            }
        },
    }
}

fn content_position<K, V>(v: &Vec<ContentInfo<K, V>>, id: &[u8; 32]) -> (r: Option<usize>)
    requires
        distinct_content(v@),
    ensures
        match r {
            Some(k) => k < v@.len() && k as int == find_content(v@, id@),
            None => find_content(v@, id@) == -1,
        },
{
    let mut i: usize = 0;
    while i < v.len()
        invariant
            distinct_content(v@),
            0 <= i <= v@.len(),
            forall|j: int| 0 <= j < i ==> v@[j].content_id@ != id@,
        decreases v@.len() - i,
    {
        if bytes32_eq(&v[i].content_id, id) {
            proof {
                let k = find_content(v@, id@);
                assert(0 <= k < v@.len() && v@[k].content_id@ == id@);
                if k > i {
                    assert(v@[i as int].content_id@ != v@[k].content_id@);
                }
            }
            return Some(i);
        }
        i = i + 1;
    }
    None
}

fn finished_position<K, V>(v: &Vec<FinishedEntry<K, V>>, id: &[u8; 32]) -> (r: Option<usize>)
    requires
        distinct_finished(v@),
    ensures
        match r {
            Some(k) => k < v@.len() && k as int == find_finished(v@, id@),
            None => find_finished(v@, id@) == -1,
        },
{
    let mut i: usize = 0;
    while i < v.len()
        invariant
            distinct_finished(v@),
            0 <= i <= v@.len(),
            forall|j: int| 0 <= j < i ==> v@[j].0@ != id@,
        decreases v@.len() - i,
    {
        if bytes32_eq(&v[i].0, id) {
            proof {
                let k = find_finished(v@, id@);
                assert(0 <= k < v@.len() && v@[k].0@ == id@);
                if k > i {
                    assert(v@[i as int].0@ != v@[k].0@);
                }
            }
            return Some(i);
        }
        i = i + 1;
    }
    None
}

fn peer_position(v: &Vec<PeerInfo>, node_id: &NodeId) -> (r: Option<usize>)
    requires
        distinct_peers(v@),
    ensures
        match r {
            Some(k) => k < v@.len() && k as int == find_peer(v@, node_id@),
            None => find_peer(v@, node_id@) == -1,
        },
{
    let mut i: usize = 0;
    while i < v.len()
        invariant
            distinct_peers(v@),
            0 <= i <= v@.len(),
            forall|j: int| 0 <= j < i ==> v@[j].enr.node_id@ != node_id@,
        decreases v@.len() - i,
    {
        if v[i].enr.node_id.same(node_id) {
            proof {
                let k = find_peer(v@, node_id@);
                assert(0 <= k < v@.len() && v@[k].enr.node_id@ == node_id@);
                if k > i {
                    assert(v@[i as int].enr.node_id@ != v@[k].enr.node_id@);
                }
            }
            return Some(i);
        }
        i = i + 1;
    }
    None
}

} // verus!
