//! Scenarios for the master's metadata, replica placement, and per-file
//! reader/writer admission, plus the file-transfer codec.

use maplejuice::client::{frame_payload, generate_filename_bytes, parse_filename, parse_framed};
use maplejuice::errors::ClusterError;
use maplejuice::filesync::{FileState, FileSync, RequestType};
use maplejuice::master::GetAdmission;
use maplejuice::metadata::Metadata;

fn all_alive() -> Vec<u8> {
    vec![1, 1, 1, 1, 1, 1, 1, 1, 1, 1]
}

#[test]
fn single_put_and_get() {
    let mut meta = Metadata::new();
    let name = b"foo".to_vec();

    // The writer is admitted at once and gets four replicas.
    assert!(!meta.put_check(&name, 1));
    let cohort = meta.put_assign(&name, 4, all_alive());
    assert_eq!(cohort, vec![1, 2, 3, 4]);

    // All four datanodes confirm the write.
    for node in [1u8, 2, 3, 4] {
        let woken = meta.file_received(&name, node).unwrap();
        if node == 4 {
            assert_eq!(woken, None);
        } else {
            assert_eq!(woken, None);
        }
    }
    assert_eq!(meta.get_nodes_for_file(&name), vec![1, 2, 3, 4]);

    // A reader is served from the lowest-indexed replica.
    assert_eq!(meta.get_check(&name, 2), GetAdmission::Proceed);
    assert_eq!(meta.get_assign(&name), 1);
    let woken = meta.file_sent(&name, 1).unwrap();
    assert_eq!(woken, None);
}

#[test]
fn file_bytes_survive_framing() {
    let data = b"the quick brown fox".to_vec();
    let framed = frame_payload(&data);
    assert_eq!(parse_framed(&framed).unwrap(), data);

    let empty: Vec<u8> = Vec::new();
    assert_eq!(parse_framed(&frame_payload(&empty)).unwrap(), empty);

    let big: Vec<u8> = (0..5000u32).map(|i| (i % 251) as u8).collect();
    assert_eq!(parse_framed(&frame_payload(&big)).unwrap(), big);
}

#[test]
fn truncated_transfer_is_rejected() {
    let data = b"abc".to_vec();
    let mut framed = frame_payload(&data);
    framed.pop();
    assert_eq!(parse_framed(&framed), Err(ClusterError::ProtocolViolation));
}

#[test]
fn concurrent_writers_same_file() {
    let mut meta = Metadata::new();
    let name = b"foo".to_vec();

    // First writer proceeds, second queues.
    assert!(!meta.put_check(&name, 10));
    let cohort = meta.put_assign(&name, 4, all_alive());
    assert_eq!(cohort, vec![1, 2, 3, 4]);
    assert!(meta.put_check(&name, 20));

    // The last acknowledgement frees the file and wakes the writer.
    let mut woken = None;
    for node in [1u8, 2, 3, 4] {
        woken = meta.file_received(&name, node).unwrap();
    }
    assert_eq!(woken, Some((RequestType::Write, 20)));

    // The awakened writer reuses the same four replicas.
    let cohort2 = meta.put_assign(&name, 4, all_alive());
    assert_eq!(cohort2, vec![1, 2, 3, 4]);
    for node in [1u8, 2, 3, 4] {
        meta.file_received(&name, node).unwrap();
    }
    assert_eq!(meta.get_nodes_for_file(&name), vec![1, 2, 3, 4]);
}

#[test]
fn reader_cap_admits_two() {
    let mut meta = Metadata::new();
    let name = b"foo".to_vec();
    assert!(!meta.put_check(&name, 1));
    meta.put_assign(&name, 2, all_alive());
    meta.file_received(&name, 1).unwrap();
    meta.file_received(&name, 2).unwrap();

    // Two readers run in parallel; the third waits.
    assert_eq!(meta.get_check(&name, 31), GetAdmission::Proceed);
    assert_eq!(meta.get_assign(&name), 1);
    assert_eq!(meta.get_check(&name, 32), GetAdmission::Proceed);
    assert_eq!(meta.get_assign(&name), 1);
    assert_eq!(meta.get_check(&name, 33), GetAdmission::Wait);

    // A finished read wakes the queued reader; all three succeed.
    let woken = meta.file_sent(&name, 1).unwrap();
    assert_eq!(woken, Some((RequestType::Read, 33)));
    assert_eq!(meta.get_assign(&name), 1);
    assert_eq!(meta.file_sent(&name, 1).unwrap(), None);
    assert_eq!(meta.file_sent(&name, 1).unwrap(), None);
}

#[test]
fn missing_file_reports_not_found() {
    let mut meta = Metadata::new();
    let name = b"nope".to_vec();
    assert_eq!(meta.get_check(&name, 1), GetAdmission::NotFound);
    assert_eq!(meta.get_nodes_for_file(&name), vec![0]);
    assert_eq!(maplejuice::client::get_file(0), Err(ClusterError::NotFound));
    assert_eq!(maplejuice::client::get_file(3), Ok(3));
}

#[test]
fn unknown_ack_is_protocol_violation() {
    let mut meta = Metadata::new();
    let name = b"ghost".to_vec();
    assert_eq!(
        meta.file_received(&name, 1),
        Err(ClusterError::ProtocolViolation)
    );
    assert_eq!(
        meta.file_sent(&name, 1),
        Err(ClusterError::ProtocolViolation)
    );
}

#[test]
fn replicas_stay_unique_and_bounded() {
    let mut meta = Metadata::new();
    let name = b"foo".to_vec();
    assert!(!meta.put_check(&name, 1));
    let cohort = meta.put_assign(&name, 4, all_alive());
    assert_eq!(cohort.len(), 4);
    // A repeated acknowledgement from the same node adds nothing.
    meta.file_received(&name, 3).unwrap();
    meta.add_file(b"foo".to_vec(), 3);
    meta.file_received(&name, 1).unwrap();
    let nodes = meta.get_nodes_for_file(&name);
    assert_eq!(nodes, vec![1, 3]);
    assert!(nodes.len() <= 4);
}

#[test]
fn placement_prefers_low_load() {
    let mut meta = Metadata::new();
    // Nodes 1 and 2 already store files.
    meta.add_file(b"a".to_vec(), 1);
    meta.add_file(b"b".to_vec(), 2);
    let picked = meta.get_n_free_nodes(4, all_alive());
    assert_eq!(picked, vec![3, 4, 5, 6]);

    // With only a few nodes alive, the alive ones win regardless of load.
    let membership = vec![1, 1, 0, 0, 0, 0, 0, 0, 0, 1];
    let picked = meta.get_n_free_nodes(3, membership);
    assert_eq!(picked, vec![10, 1, 2]);
}

#[test]
fn filesync_free_exactly_when_idle() {
    let mut fs = FileSync::new();
    assert_eq!(fs.state, FileState::Free);
    assert!(fs.ops.is_empty());

    fs.add_writer(vec![1, 2]);
    assert_eq!(fs.state, FileState::Write);
    assert_eq!(fs.write_complete(1), None);
    assert_eq!(fs.state, FileState::Write);
    assert!(!fs.ops.is_empty());
    assert_eq!(fs.write_complete(2), None);
    assert_eq!(fs.state, FileState::Free);
    assert!(fs.ops.is_empty());

    fs.add_reader(5);
    assert_eq!(fs.state, FileState::Read);
    assert_eq!(fs.read_complete(5), None);
    assert_eq!(fs.state, FileState::Free);
    assert!(fs.ops.is_empty());
}

#[test]
fn queued_writer_is_woken_by_the_last_reader() {
    let mut fs = FileSync::new();
    fs.add_reader(1);
    fs.add_reader(2);
    fs.queue.push((RequestType::Write, 77));
    // A finishing read does not wake a queued writer while another
    // reader is active.
    assert_eq!(fs.read_complete(1), None);
    assert_eq!(fs.state, FileState::Read);
    // The last read frees the file and hands the queued writer back.
    assert_eq!(fs.read_complete(2), Some((RequestType::Write, 77)));
    assert_eq!(fs.state, FileState::Free);
    assert!(fs.ops.is_empty());
    assert!(fs.queue.is_empty());
}

#[test]
fn metadata_text_round_trip() {
    let mut meta = Metadata::new();
    meta.add_file(b"alpha".to_vec(), 2);
    meta.add_file(b"alpha".to_vec(), 1);
    meta.add_file(b"beta".to_vec(), 3);
    let text = meta.to_text();
    assert_eq!(text, b"alpha:1\nalpha:2\nbeta:3\n".to_vec());

    let rebuilt = Metadata::from_text(&text);
    assert_eq!(rebuilt.get_nodes_for_file(&b"alpha".to_vec()), vec![1, 2]);
    assert_eq!(rebuilt.get_nodes_for_file(&b"beta".to_vec()), vec![3]);
    assert_eq!(rebuilt.get_nodes_for_file(&b"gamma".to_vec()), vec![0]);
}

#[test]
fn malformed_metadata_lines_are_skipped() {
    let text = b"good:4\nnocolon\nbad:99\nalso:bad\n".to_vec();
    let meta = Metadata::from_text(&text);
    assert_eq!(meta.get_nodes_for_file(&b"good".to_vec()), vec![4]);
    assert_eq!(meta.get_nodes_for_file(&b"nocolon".to_vec()), vec![0]);
    assert_eq!(meta.get_nodes_for_file(&b"bad".to_vec()), vec![0]);
    assert_eq!(meta.get_nodes_for_file(&b"also".to_vec()), vec![0]);
}

#[test]
fn filename_wire_format_round_trips() {
    let name = b"results.csv".to_vec();
    let bytes = generate_filename_bytes(&name);
    assert_eq!(bytes[0] as usize, name.len());
    let (parsed, after) = parse_filename(&bytes, 0).unwrap();
    assert_eq!(parsed, name);
    assert_eq!(after, bytes.len());
    assert!(parse_filename(&bytes[..4].to_vec(), 0).is_none());
}

#[test]
fn write_confirmations_filter_replicas() {
    let good = [0xDE, 0xAD, 0xBE, 0xEF];
    let bad = [0, 0, 0, 0];
    let replies = vec![(1u8, good), (2, bad), (3, good)];
    assert_eq!(maplejuice::client::confirmed_nodes(&replies), vec![1, 3]);

    // The master's reply parser for a put request.
    let reply = vec![3u8, 1, 2, 3];
    assert_eq!(maplejuice::client::put_file(&reply), Ok(vec![1, 2, 3]));
    let short = vec![4u8, 1, 2];
    assert_eq!(
        maplejuice::client::put_file(&short),
        Err(ClusterError::ProtocolViolation)
    );
}

#[test]
fn metadata_accepts_padded_node_digits() {
    // Leading zeros are digits too; anything else in the node field is not.
    let meta = Metadata::from_text(&b"a:010\nb:2x\nc: 3\n".to_vec());
    assert_eq!(meta.get_nodes_for_file(&b"a".to_vec()), vec![10]);
    assert_eq!(meta.get_nodes_for_file(&b"b".to_vec()), vec![0]);
    assert_eq!(meta.get_nodes_for_file(&b"c".to_vec()), vec![0]);
}

#[test]
fn read_acks_leave_the_replica_map_alone() {
    let mut meta = Metadata::new();
    let name = b"foo".to_vec();
    assert!(!meta.put_check(&name, 1));
    meta.put_assign(&name, 2, all_alive());
    meta.file_received(&name, 1).unwrap();
    meta.file_received(&name, 2).unwrap();
    assert_eq!(meta.get_nodes_for_file(&name), vec![1, 2]);

    // A read by node 1 — and even a stray ack from node 9, which never
    // stored the file — changes no replica record.
    assert_eq!(meta.get_check(&name, 5), GetAdmission::Proceed);
    assert_eq!(meta.get_assign(&name), 1);
    meta.file_sent(&name, 1).unwrap();
    meta.file_sent(&name, 9).unwrap();
    assert_eq!(meta.get_nodes_for_file(&name), vec![1, 2]);
}

#[test]
fn restart_rebuilds_the_load_table() {
    // The rebuilt usage table drives placement after a restart: a node
    // holds exactly the files the metadata text stores on it.
    let meta = Metadata::from_text(&b"a:1\na:2\nb:1\n".to_vec());
    let picked = meta.get_n_free_nodes(3, vec![1, 1, 1, 1, 0, 0, 0, 0, 0, 0]);
    // Node 1 carries two files, node 2 one, nodes 3 and 4 none.
    assert_eq!(picked, vec![3, 4, 2]);

    // An empty text leaves every slot empty, so placement is by index.
    let empty = Metadata::from_text(&Vec::new());
    let picked = empty.get_n_free_nodes(2, vec![1, 1, 1, 1, 1, 1, 1, 1, 1, 1]);
    assert_eq!(picked, vec![1, 2]);
}
