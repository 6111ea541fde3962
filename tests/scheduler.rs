use video_encoding_system::chunk::{convert_files_to_chunks, Chunk};
use video_encoding_system::error::VideoEncodeError;
use video_encoding_system::nodes::plan_nodes;
use video_encoding_system::scheduler::{Dispatch, EncodingState};

fn units(n: usize) -> Vec<Chunk> {
    let paths: Vec<String> = (0..n).map(|i| format!("seg/chunk_{:04}.mp4", i)).collect();
    convert_files_to_chunks(paths, vec!["-c:v".to_string(), "libx264".to_string()]).unwrap()
}

fn conserved(s: &EncodingState) -> bool {
    s.pending_chunks().len() + s.completed_chunks().len() + s.in_flight_count() == s.total_units()
}

fn sent(d: Dispatch) -> Chunk {
    match d {
        Dispatch::Send(c) => c,
        Dispatch::AtCapacity => panic!("unexpected: at capacity"),
        Dispatch::Drained => panic!("unexpected: drained"),
    }
}

#[test]
fn single_node_all_units_succeed() {
    let mut s = EncodingState::new(units(3), &vec![1]).unwrap();
    loop {
        match s.dispatch(0) {
            Dispatch::Send(c) => {
                assert!(conserved(&s));
                assert!(matches!(s.dispatch(0), Dispatch::AtCapacity));
                let path = format!("enc/encoded_chunk_{}.mkv", c.index);
                s.report_success(0, c.index, path).unwrap();
                assert!(conserved(&s));
            }
            Dispatch::AtCapacity => panic!("permit leaked"),
            Dispatch::Drained => break,
        }
    }
    assert!(s.run_finished());
    assert_eq!(s.completed_chunks().len(), 3);
    let ordered: Vec<usize> = s.ordered_completed().iter().map(|c| c.index).collect();
    assert_eq!(ordered, vec![0, 1, 2]);
    let paths = s.finish().unwrap();
    assert_eq!(
        paths,
        vec![
            "enc/encoded_chunk_0.mkv".to_string(),
            "enc/encoded_chunk_1.mkv".to_string(),
            "enc/encoded_chunk_2.mkv".to_string(),
        ]
    );
}

#[test]
fn two_nodes_one_failure_then_retry_elsewhere() {
    let mut s = EncodingState::new(units(5), &vec![2, 1]).unwrap();
    let a1 = sent(s.dispatch(0));
    let a2 = sent(s.dispatch(0));
    assert!(matches!(s.dispatch(0), Dispatch::AtCapacity));
    let b1 = sent(s.dispatch(1));
    assert!(matches!(s.dispatch(1), Dispatch::AtCapacity));
    assert!(conserved(&s));
    // a1 fails on node A and goes back to pending
    s.report_failure(0, a1.index).unwrap();
    assert!(conserved(&s));
    s.report_success(1, b1.index, format!("e{}", b1.index)).unwrap();
    // node B picks the requeued unit up and succeeds with it
    let retried = sent(s.dispatch(1));
    assert_eq!(retried, a1);
    s.report_success(1, retried.index, format!("e{}", retried.index)).unwrap();
    s.report_success(0, a2.index, format!("e{}", a2.index)).unwrap();
    let mut guard = 0;
    while !s.run_finished() {
        for node in 0..2 {
            if let Dispatch::Send(c) = s.dispatch(node) {
                s.report_success(node, c.index, format!("e{}", c.index)).unwrap();
            }
        }
        guard += 1;
        assert!(guard < 100);
    }
    assert_eq!(s.completed_chunks().len(), 5);
    let mut seen: Vec<usize> = s.completed_chunks().iter().map(|c| c.index).collect();
    seen.sort();
    seen.dedup();
    assert_eq!(seen, vec![0, 1, 2, 3, 4]);
    let paths = s.finish().unwrap();
    assert_eq!(paths.len(), 5);
    assert_eq!(paths[3], "e3".to_string());
}

#[test]
fn every_attempt_fails_is_never_reported_complete() {
    let mut s = EncodingState::new(units(2), &vec![1]).unwrap();
    for _ in 0..20 {
        let c = sent(s.dispatch(0));
        assert!(conserved(&s));
        s.report_failure(0, c.index).unwrap();
        assert!(conserved(&s));
    }
    assert!(!s.run_finished());
    assert_eq!(s.pending_chunks().len(), 2);
    assert!(matches!(s.finish(), Err(VideoEncodeError::ChunkProcessing(_))));
}

#[test]
fn mismatched_address_and_capacity_lists_are_a_configuration_error() {
    let addresses = vec!["http://a:50051".to_string(), "http://b:50051".to_string()];
    let r = plan_nodes(&addresses, &vec![2]);
    assert!(matches!(r, Err(VideoEncodeError::Config(_))));
}

#[test]
fn empty_node_set_is_a_configuration_error() {
    assert!(matches!(plan_nodes(&vec![], &vec![]), Err(VideoEncodeError::Config(_))));
    assert!(matches!(EncodingState::new(units(1), &vec![]), Err(VideoEncodeError::Config(_))));
    assert!(matches!(EncodingState::new(units(1), &vec![1, 0]), Err(VideoEncodeError::Config(_))));
}

#[test]
fn plan_nodes_pairs_addresses_with_capacities() {
    let addresses = vec!["http://a:1".to_string(), "http://b:2".to_string()];
    let v = plan_nodes(&addresses, &vec![3, 1]).unwrap();
    assert_eq!(v.len(), 2);
    assert_eq!(v[1].address, "http://b:2".to_string());
    assert_eq!(v[0].capacity, 3);
    assert_eq!(video_encoding_system::nodes::capacities(&v), vec![3, 1]);
}

#[test]
fn admission_never_exceeds_capacity() {
    let mut s = EncodingState::new(units(5), &vec![2]).unwrap();
    sent(s.dispatch(0));
    sent(s.dispatch(0));
    assert!(matches!(s.dispatch(0), Dispatch::AtCapacity));
    assert_eq!(s.slot(0).available, 0);
    assert_eq!(s.in_flight_count(), 2);
}

#[test]
fn permits_return_after_every_outcome() {
    let mut s = EncodingState::new(units(3), &vec![2]).unwrap();
    let a = sent(s.dispatch(0));
    let b = sent(s.dispatch(0));
    s.report_failure(0, a.index).unwrap();
    assert_eq!(s.slot(0).available, 1);
    s.report_success(0, b.index, "x".to_string()).unwrap();
    assert_eq!(s.slot(0).available, 2);
    while let Dispatch::Send(c) = s.dispatch(0) {
        s.report_success(0, c.index, "y".to_string()).unwrap();
    }
    assert!(s.node_finished(0));
    assert_eq!(s.slot(0).available, s.slot(0).capacity);
}

#[test]
fn requeued_unit_is_identical_to_the_dispatched_one() {
    let mut s = EncodingState::new(units(3), &vec![1]).unwrap();
    let before: Vec<Chunk> = s.pending_chunks().clone();
    let c = sent(s.dispatch(0));
    s.report_failure(0, c.index).unwrap();
    assert_eq!(s.pending_chunks(), &before);
    assert_eq!(s.pending_chunks().last().unwrap(), &c);
    assert_eq!(c.encoded_path, None);
}

#[test]
fn reports_for_units_not_in_flight_change_nothing() {
    let mut s = EncodingState::new(units(2), &vec![1, 1]).unwrap();
    let c = sent(s.dispatch(0));
    assert!(matches!(s.report_success(1, c.index, "p".to_string()), Err(VideoEncodeError::ChunkProcessing(_))));
    assert!(matches!(s.report_failure(0, 7), Err(VideoEncodeError::ChunkProcessing(_))));
    s.report_success(0, c.index, "p".to_string()).unwrap();
    assert!(matches!(s.report_success(0, c.index, "p".to_string()), Err(VideoEncodeError::ChunkProcessing(_))));
    assert_eq!(s.completed_chunks().len(), 1);
}

#[test]
fn loop_stops_pulling_on_first_empty_observation() {
    let mut s = EncodingState::new(units(1), &vec![1, 1]).unwrap();
    let c = sent(s.dispatch(0));
    assert!(matches!(s.dispatch(1), Dispatch::Drained));
    s.report_failure(0, c.index).unwrap();
    assert!(matches!(s.dispatch(1), Dispatch::Drained));
    assert!(s.node_finished(1));
    let again = sent(s.dispatch(0));
    assert_eq!(again, c);
}

#[test]
fn units_must_be_numbered_by_position() {
    let mut v = units(2);
    v.swap(0, 1);
    assert!(matches!(EncodingState::new(v, &vec![1]), Err(VideoEncodeError::ChunkProcessing(_))));
    let mut w = units(2);
    w[1].encoded_path = Some("done".to_string());
    assert!(matches!(EncodingState::new(w, &vec![1]), Err(VideoEncodeError::ChunkProcessing(_))));
}

#[test]
fn empty_run_is_complete_at_once() {
    let mut s = EncodingState::new(Vec::new(), &vec![1]).unwrap();
    assert!(matches!(s.dispatch(0), Dispatch::Drained));
    assert!(s.run_finished());
    assert_eq!(s.finish().unwrap(), Vec::<String>::new());
}

#[test]
fn ordering_ignores_completion_order() {
    let mut s = EncodingState::new(units(4), &vec![4]).unwrap();
    let mut taken = Vec::new();
    for _ in 0..4 {
        taken.push(sent(s.dispatch(0)));
    }
    for c in taken.iter() {
        s.report_success(0, c.index, format!("p{}", c.index)).unwrap();
    }
    let ordered: Vec<usize> = s.ordered_completed().iter().map(|c| c.index).collect();
    assert_eq!(ordered, vec![0, 1, 2, 3]);
    let raw: Vec<usize> = s.completed_chunks().iter().map(|c| c.index).collect();
    assert_eq!(raw, vec![3, 2, 1, 0]);
}
