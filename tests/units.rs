use video_encoding_system::chunk::{convert_files_to_chunks, Chunk};
use video_encoding_system::config::{generate_hash, TempConfig};
use video_encoding_system::error::VideoEncodeError;
use video_encoding_system::media::{
    check_segment_count, concat_args, concat_list, extract_args, is_segment_file, segment_args,
    select_segments,
};
use video_encoding_system::rpc::{
    build_request, check_response, encoded_chunk_path, failure_response, success_response,
    EncodeChunkRequest, VideoEncodingNode,
};
use video_encoding_system::scheduler::{Dispatch, EncodingState};
use video_encoding_system::settings::{split_encoder_params, ClientSettings, NodeSettings};
use video_encoding_system::text::{join_path, numbered};

fn strs(v: &[&str]) -> Vec<String> {
    v.iter().map(|s| s.to_string()).collect()
}

#[test]
fn chunks_take_their_position_as_index() {
    let chunks = convert_files_to_chunks(strs(&["a.mp4", "b.mp4", "c.mp4"]), strs(&["-crf", "20"])).unwrap();
    assert_eq!(chunks.len(), 3);
    assert_eq!(chunks[2].index, 2);
    assert_eq!(chunks[1].source_path, "b.mp4".to_string());
    assert_eq!(chunks[0].encoder_parameters, strs(&["-crf", "20"]));
    assert_eq!(chunks[0].encoded_path, None);
    assert!(convert_files_to_chunks(vec![], vec![]).unwrap().is_empty());
}

#[test]
fn new_chunk_is_not_encoded() {
    let c = Chunk::new("s.mp4".to_string(), 4, strs(&["-y"]));
    assert_eq!(c.index, 4);
    assert_eq!(c.encoded_path, None);
    let d = c.with_encoded("o.mkv".to_string());
    assert_eq!(d.encoded_path, Some("o.mkv".to_string()));
    assert_eq!(d.source_path, c.source_path);
    assert_eq!(c.clone(), c);
}

#[test]
fn encoder_arguments_pass_parameters_verbatim() {
    let c = Chunk::new("in/chunk_1.mkv".to_string(), 1, strs(&["-c:v", "libx265", "-y"]));
    assert_eq!(
        c.encode_args("out/encoded_chunk_1.mkv"),
        strs(&["-hide_banner", "-i", "in/chunk_1.mkv", "-c:v", "libx265", "-y", "out/encoded_chunk_1.mkv"])
    );
}

#[test]
fn encode_result_follows_the_run() {
    let c = Chunk::new("s".to_string(), 0, vec![]);
    let ok = c.encode_result("o".to_string(), true, String::new()).unwrap();
    assert_eq!(ok.encoded_path, Some("o".to_string()));
    let err = c.encode_result("o".to_string(), false, "boom".to_string());
    assert_eq!(err, Err(VideoEncodeError::Encoding("boom".to_string())));
}

#[test]
fn run_label_is_eight_hex_digits_of_the_digest() {
    assert_eq!(generate_hash("input.mp4", "output.mkv"), "24b0178e".to_string());
    assert_eq!(generate_hash("movie.mkv", "out.mkv"), "a3ce6589".to_string());
}

#[test]
fn temp_config_without_base_uses_the_label() {
    let t = TempConfig::new(None, "input.mp4", "output.mkv");
    assert_eq!(t.temp_dir, "./24b0178e".to_string());
    assert_eq!(t.temp_segments, "./24b0178e/segments".to_string());
    assert_eq!(t.temp_encoded, "./24b0178e/encoded".to_string());
}

#[test]
fn temp_config_directories() {
    let t = TempConfig::new(Some("/tmp/work".to_string()), "i", "o");
    assert_eq!(t.segment_dir(), "/tmp/work/segments".to_string());
    assert_eq!(t.encode_dir(), "/tmp/work/encoded".to_string());
    let u = TempConfig::new(Some("/tmp/work/".to_string()), "i", "o");
    assert_eq!(u.segment_dir(), "/tmp/work/segments".to_string());
}

#[test]
fn paths_and_numbers() {
    assert_eq!(numbered("chunk_", 0, ".mkv"), "chunk_0.mkv".to_string());
    assert_eq!(numbered("chunk_", 1207, ".mkv"), "chunk_1207.mkv".to_string());
    assert_eq!(numbered("", usize::MAX, ""), usize::MAX.to_string());
    assert_eq!(join_path("", "a"), "a".to_string());
    assert_eq!(join_path("d", "a"), "d/a".to_string());
    assert_eq!(encoded_chunk_path("enc", 12), "enc/encoded_chunk_12.mkv".to_string());
}

#[test]
fn request_carries_index_and_parameters() {
    let c = Chunk::new("s".to_string(), 9, strs(&["-preset", "slow"]));
    let q = build_request(&c, vec![1, 2, 3]).unwrap();
    assert_eq!(q.chunk_index, 9);
    assert_eq!(q.chunk_data, vec![1, 2, 3]);
    assert_eq!(q.encoder_parameters, strs(&["-preset", "slow"]));
    let big = Chunk::new("s".to_string(), 1usize << 31, vec![]);
    assert!(matches!(build_request(&big, vec![]), Err(VideoEncodeError::ChunkProcessing(_))));
}

#[test]
fn responses_are_checked_against_the_unit() {
    let c = Chunk::new("s".to_string(), 3, vec![]);
    assert_eq!(check_response(&c, &success_response(3, vec![7])), Ok(()));
    assert!(matches!(
        check_response(&c, &success_response(4, vec![7])),
        Err(VideoEncodeError::ChunkProcessing(_))
    ));
    assert_eq!(
        check_response(&c, &failure_response(3, "disk".to_string())),
        Err(VideoEncodeError::Encoding("disk".to_string()))
    );
}

#[test]
fn worker_write_failure_is_reported_and_the_unit_requeued() {
    let node = VideoEncodingNode::new(TempConfig::new(Some("/ro".to_string()), "i", "o"));
    let mut s = EncodingState::new(
        convert_files_to_chunks(strs(&["a", "b"]), strs(&["-y"])).unwrap(),
        &vec![1],
    )
    .unwrap();
    let c = match s.dispatch(0) {
        Dispatch::Send(c) => c,
        _ => panic!("expected a unit"),
    };
    let request = build_request(&c, vec![0, 1]).unwrap();
    let job = node.plan(&request).unwrap();
    assert_eq!(job.input_path, "/ro/segments/chunk_1.mkv".to_string());
    assert_eq!(job.output_path, "/ro/encoded/encoded_chunk_1.mkv".to_string());
    // writing the payload to the read-only directory failed
    let response = failure_response(request.chunk_index, "read-only file system".to_string());
    assert!(!response.success);
    let outcome = check_response(&c, &response);
    assert!(matches!(outcome, Err(VideoEncodeError::Encoding(_))));
    s.report_failure(0, c.index).unwrap();
    assert_eq!(s.pending_chunks().len(), 2);
    assert_eq!(s.pending_chunks()[1], c);
}

#[test]
fn negative_request_index_is_a_reported_failure() {
    let node = VideoEncodingNode::new(TempConfig::new(Some("w".to_string()), "i", "o"));
    let request = EncodeChunkRequest { chunk_data: vec![], chunk_index: -1, encoder_parameters: vec![] };
    let r = node.plan(&request).unwrap_err();
    assert!(!r.success);
    assert_eq!(r.chunk_index, -1);
}

#[test]
fn concat_list_lines_follow_the_order() {
    assert_eq!(concat_list(&strs(&["a.mkv", "b.mkv"])), "file 'a.mkv'\nfile 'b.mkv'\n".to_string());
    assert_eq!(concat_list(&vec![]), String::new());
}

#[test]
fn segment_count_must_match() {
    assert_eq!(check_segment_count(3, 3), Ok(()));
    assert!(matches!(check_segment_count(2, 3), Err(VideoEncodeError::Concatenation(_))));
}

#[test]
fn media_arguments() {
    assert_eq!(
        concat_args("list.txt", "audio.mkv", "out.mkv"),
        strs(&["-hide_banner", "-f", "concat", "-safe", "0", "-i", "list.txt", "-i", "audio.mkv", "-map", "0:v", "-map", "1", "-c", "copy", "out.mkv"])
    );
    assert_eq!(
        extract_args("in.mp4", "t/audio.mkv"),
        strs(&["-hide_banner", "-i", "in.mp4", "-y", "-vn", "-c", "copy", "t/audio.mkv"])
    );
    let s = segment_args("in.mp4", "10", "seg/chunk_%04d.mp4");
    assert_eq!(s.len(), 19);
    assert_eq!(s[13], "10".to_string());
    assert_eq!(s[18], "seg/chunk_%04d.mp4".to_string());
}

#[test]
fn segment_files_are_picked_by_extension() {
    assert!(is_segment_file("seg/chunk_0001.mp4"));
    assert!(!is_segment_file("seg/.mp4"));
    assert!(!is_segment_file("seg/chunk.mkv"));
    assert!(!is_segment_file("mp4"));
    let kept = select_segments(strs(&["s/a.mp4", "s/list.txt", "s/b.mp4"]));
    assert_eq!(kept, strs(&["s/a.mp4", "s/b.mp4"]));
}

#[test]
fn settings_overrides() {
    let mut c = ClientSettings { node_addresses: strs(&["a"]), encoder_params: strs(&["-y"]) };
    c.override_nodes(vec![]);
    assert_eq!(c.node_addresses, strs(&["a"]));
    c.override_nodes(strs(&["b", "c"]));
    assert_eq!(c.node_addresses, strs(&["b", "c"]));
    let mut n = NodeSettings { address: "0.0.0.0:1".to_string() };
    n.override_address(None);
    assert_eq!(n.address, "0.0.0.0:1".to_string());
    n.override_address(Some("[::1]:2".to_string()));
    assert_eq!(n.address, "[::1]:2".to_string());
}

#[test]
fn malformed_address_is_a_connection_error() {
    let addresses = vec!["http://a:50051".to_string(), "not an address".to_string()];
    let r = video_encoding_system::nodes::plan_nodes(&addresses, &vec![1, 1]);
    assert!(matches!(r, Err(VideoEncodeError::NodeConnection(_))));
    let zero = video_encoding_system::nodes::plan_nodes(&addresses, &vec![1, 0]);
    assert!(matches!(zero, Err(VideoEncodeError::Config(_))));
}

#[test]
fn encoder_params_are_split_into_tokens() {
    let raw = strs(&["-c:v libx264  -crf 23", " -preset\tslow ", "   "]);
    assert_eq!(
        split_encoder_params(&raw),
        strs(&["-c:v", "libx264", "-crf", "23", "-preset\tslow", "-y"])
    );
    assert_eq!(split_encoder_params(&vec![]), strs(&["-y"]));
    let mut c = ClientSettings { node_addresses: vec![], encoder_params: strs(&["-a"]) };
    c.override_encoder_params(None);
    assert_eq!(c.encoder_params, strs(&["-a"]));
    c.override_encoder_params(Some(strs(&["\u{3000}-b x\n"])));
    assert_eq!(c.encoder_params, strs(&["-b", "x", "-y"]));
}
