use trin::coordinator::{Coordinator, CoordinatorConfig, CreateTaskError, TaskResult};
use trin::distance::{Distance, NodeId};
use trin::enr::Enr;
use trin::network::{collect_results, fetch_effects, worker_step, FetchOutcome, WorkerStep};
use trin::peers::Peers;

fn node(first: u8) -> NodeId {
    let mut raw = [0u8; 32];
    raw[0] = first;
    NodeId { raw }
}

fn record(first: u8) -> Enr {
    Enr {
        node_id: node(first),
        seq: 1,
        signature: vec![first],
        client: None,
        text: format!("record-{}", first),
    }
}

fn content_id(first: u8) -> [u8; 32] {
    let mut id = [0u8; 32];
    id[0] = first;
    id[31] = 1;
    id
}

fn config(max_attempts: usize, per_content: usize, per_peer: usize) -> CoordinatorConfig {
    CoordinatorConfig {
        max_attempts_per_content: max_attempts,
        concurrent_tasks_per_content: per_content,
        concurrent_tasks_per_peer: per_peer,
    }
}

fn first_peer(_v: &Vec<(NodeId, usize)>) -> usize {
    0
}

fn first_content(_v: &Vec<usize>) -> usize {
    0
}

fn full_radius_peers(ids: &[u8]) -> Peers {
    let mut peers = Peers::new();
    for id in ids {
        peers.record_successful_liveness_check(&record(*id), Distance { bytes: [0xff; 32] });
    }
    peers
}

#[test]
fn test_no_content_to_fetch() {
    let peers = full_radius_peers(&[1]);
    let mut c: Coordinator<u32, String> = Coordinator::new(config(2, 1, 1), Vec::new(), &peers);
    let r = c.create_task(first_peer, first_content);
    assert_eq!(r.err(), Some(CreateTaskError::NoContent));
    assert!(c.get_content().is_empty());
}

#[test]
fn test_no_peers_without_alive_peers() {
    let peers = Peers::new();
    let mut c: Coordinator<u32, String> =
        Coordinator::new(config(2, 1, 1), vec![(content_id(1), 7u32)], &peers);
    let r = c.create_task(first_peer, first_content);
    assert_eq!(r.err(), Some(CreateTaskError::NoPeers));
}

#[test]
fn test_peer_without_content_in_radius_is_not_useful() {
    let mut peers = Peers::new();
    peers.record_successful_liveness_check(&record(0x80), Distance::zero());
    let mut c: Coordinator<u32, String> =
        Coordinator::new(config(2, 1, 1), vec![(content_id(1), 7u32)], &peers);
    let r = c.create_task(first_peer, first_content);
    assert_eq!(r.err(), Some(CreateTaskError::NoPeers));
    let r = c.create_task(first_peer, first_content);
    assert_eq!(r.err(), Some(CreateTaskError::NoPeers));
}

#[test]
fn test_busy_peer_then_failures_use_up_attempts() {
    let peers = full_radius_peers(&[1]);
    let mut c: Coordinator<u32, String> =
        Coordinator::new(config(2, 1, 1), vec![(content_id(1), 7u32)], &peers);
    let task = c.create_task(first_peer, first_content).unwrap();
    assert_eq!(task.content_id, content_id(1));
    assert_eq!(task.content_key, 7);
    assert_eq!(task.peer, record(1));
    let busy = c.create_task(first_peer, first_content);
    assert_eq!(busy.err(), Some(CreateTaskError::Busy));
    c.on_task_finish(task, TaskResult::Failure);
    let task = c.create_task(first_peer, first_content).unwrap();
    assert_eq!(task.content_id, content_id(1));
    c.on_task_finish(task, TaskResult::Failure);
    let r = c.create_task(first_peer, first_content);
    assert_eq!(r.err(), Some(CreateTaskError::NoContent));
    let content = c.get_content();
    assert_eq!(content.len(), 1);
    assert_eq!(content[0].0, content_id(1));
    assert_eq!(content[0].1, 7);
    assert!(content[0].2.is_none());
}

#[test]
fn test_success_finishes_content_with_value() {
    let peers = full_radius_peers(&[1, 2]);
    let keys = vec![(content_id(1), 1u32), (content_id(2), 2u32)];
    let mut c: Coordinator<u32, String> = Coordinator::new(config(3, 1, 1), keys.clone(), &peers);
    let t1 = c.create_task(first_peer, first_content).unwrap();
    let t2 = c.create_task(first_peer, first_content).unwrap();
    assert!(t1.content_id != t2.content_id);
    assert!(!t1.peer.node_id.same(&t2.peer.node_id));
    let busy = c.create_task(first_peer, first_content);
    assert_eq!(busy.err(), Some(CreateTaskError::Busy));
    let id1 = t1.content_id;
    let id2 = t2.content_id;
    c.on_task_finish(t1, TaskResult::Success(Box::new(format!("value-{}", id1[0]))));
    c.on_task_finish(t2, TaskResult::Success(Box::new(format!("value-{}", id2[0]))));
    let r = c.create_task(first_peer, first_content);
    assert_eq!(r.err(), Some(CreateTaskError::NoContent));
    let finished = c.get_content();
    assert_eq!(finished.len(), 2);
    let answers = collect_results(keys, finished);
    assert_eq!(answers.len(), 2);
    assert_eq!(answers[0].0, 1);
    assert_eq!(answers[0].1.as_deref().map(|s| s.as_str()), Some("value-1"));
    assert_eq!(answers[1].0, 2);
    assert_eq!(answers[1].1.as_deref().map(|s| s.as_str()), Some("value-2"));
}

#[test]
fn test_unavailable_content_counts_as_attempt() {
    let peers = full_radius_peers(&[1]);
    let mut c: Coordinator<u32, String> =
        Coordinator::new(config(1, 1, 1), vec![(content_id(1), 5u32)], &peers);
    let task = c.create_task(first_peer, first_content).unwrap();
    c.on_task_finish(task, TaskResult::ContentUnavailable);
    let r = c.create_task(first_peer, first_content);
    assert_eq!(r.err(), Some(CreateTaskError::NoContent));
    let content = c.get_content();
    assert_eq!(content.len(), 1);
    assert!(content[0].2.is_none());
}

#[test]
fn test_out_of_range_choice_counts_as_first() {
    let peers = full_radius_peers(&[1]);
    let mut c: Coordinator<u32, String> = Coordinator::new(
        config(2, 1, 2),
        vec![(content_id(1), 1u32), (content_id(2), 2u32)],
        &peers,
    );
    let task = c
        .create_task(|_v: &Vec<(NodeId, usize)>| 99usize, |_w: &Vec<usize>| 99usize)
        .unwrap();
    assert_eq!(task.content_id, content_id(1));
    let task2 = c
        .create_task(|_v: &Vec<(NodeId, usize)>| 0usize, |_w: &Vec<usize>| 0usize)
        .unwrap();
    assert_eq!(task2.content_id, content_id(2));
}

#[test]
fn test_later_key_for_same_id_wins() {
    let peers = full_radius_peers(&[1]);
    let mut c: Coordinator<u32, String> = Coordinator::new(
        config(1, 1, 1),
        vec![(content_id(1), 1u32), (content_id(1), 2u32)],
        &peers,
    );
    let task = c.create_task(first_peer, first_content).unwrap();
    assert_eq!(task.content_key, 2);
    c.on_task_finish(task, TaskResult::Failure);
    assert_eq!(c.create_task(first_peer, first_content).err(), Some(CreateTaskError::NoContent));
}

#[test]
fn test_create_task_error_texts() {
    assert_eq!(CreateTaskError::NoContent.to_string(), "There is no content that should be fetched");
    assert_eq!(
        CreateTaskError::NoPeers.to_string(),
        "There is content that should be fetched, but no useful peers"
    );
    assert_eq!(CreateTaskError::Busy.to_string(), "All useful peers are busy");
}

#[test]
fn test_worker_steps_and_fetch_effects() {
    assert_eq!(worker_step(CreateTaskError::Busy), WorkerStep::Wait);
    assert_eq!(worker_step(CreateTaskError::NoPeers), WorkerStep::Stop);
    assert_eq!(worker_step(CreateTaskError::NoContent), WorkerStep::Stop);
    let e = fetch_effects(FetchOutcome::Content("v".to_string()));
    assert!(matches!(e.result, TaskResult::Success(ref b) if b.as_str() == "v"));
    assert_eq!(e.rpc_success, Some(true));
    assert!(e.discovered.is_empty());
    let e = fetch_effects::<String>(FetchOutcome::Peers(vec![record(3), record(4)]));
    assert!(matches!(e.result, TaskResult::ContentUnavailable));
    assert_eq!(e.rpc_success, None);
    assert_eq!(e.discovered, vec![record(3), record(4)]);
    let e = fetch_effects::<String>(FetchOutcome::Error);
    assert!(matches!(e.result, TaskResult::Failure));
    assert_eq!(e.rpc_success, Some(false));
}

#[test]
fn test_pending_count_follows_tasks() {
    let peers = full_radius_peers(&[1]);
    let mut c: Coordinator<u32, String> = Coordinator::new(
        config(1, 1, 1),
        vec![(content_id(1), 1u32), (content_id(2), 2u32)],
        &peers,
    );
    assert_eq!(c.pending_count(), 2);
    let task = c.create_task(first_peer, first_content).unwrap();
    c.on_task_finish(task, TaskResult::Success(Box::new("x".to_string())));
    assert_eq!(c.pending_count(), 1);
}

#[test]
fn test_choosers_pick_peer_and_content() {
    let peers = full_radius_peers(&[1, 2]);
    let mut c: Coordinator<u32, String> = Coordinator::new(
        config(3, 1, 1),
        vec![(content_id(1), 1u32), (content_id(2), 2u32), (content_id(3), 3u32)],
        &peers,
    );
    let task = c
        .create_task(
            |v: &Vec<(NodeId, usize)>| {
                assert_eq!(v.len(), 2);
                assert!(v[0].0.same(&node(1)) && v[1].0.same(&node(2)));
                assert_eq!((v[0].1, v[1].1), (0, 0));
                1usize
            },
            |w: &Vec<usize>| {
                assert_eq!(w, &vec![0, 0, 0]);
                2usize
            },
        )
        .unwrap();
    assert_eq!(task.peer, record(2));
    assert_eq!(task.content_id, content_id(3));
    assert!(c.task_in_progress(&task));
    let task2 = c
        .create_task(
            |v: &Vec<(NodeId, usize)>| {
                assert_eq!(v.len(), 1);
                assert!(v[0].0.same(&node(1)));
                0usize
            },
            |w: &Vec<usize>| {
                assert_eq!(w, &vec![0, 0]);
                1usize
            },
        )
        .unwrap();
    assert_eq!(task2.peer, record(1));
    assert_eq!(task2.content_id, content_id(2));
    let again = trin::coordinator::TaskInfo { peer: record(2), content_id: content_id(3), content_key: 3u32 };
    c.on_task_finish(task, TaskResult::Failure);
    assert!(!c.task_in_progress(&again));
}

#[test]
fn test_finished_ids_distinct_check() {
    let a: Vec<([u8; 32], u32, Option<Box<String>>)> =
        vec![(content_id(1), 1, None), (content_id(2), 2, None)];
    assert!(trin::network::finished_ids_distinct(&a));
    let b: Vec<([u8; 32], u32, Option<Box<String>>)> =
        vec![(content_id(1), 1, None), (content_id(1), 2, None)];
    assert!(!trin::network::finished_ids_distinct(&b));
    assert!(full_radius_peers(&[1, 2, 3]).is_well_formed());
}
