//! Scenarios for the job engine: worker selection, partitioning, the
//! leader's bookkeeping, and an end-to-end word count over the verified
//! pieces.

use maplejuice::errors::ClusterError;
use maplejuice::leader::{
    get_available_workers, partition_juice_keys, partition_map_tasks, JobState,
};
use maplejuice::textutil::trim_newline;
use maplejuice::worker::{
    group_lines_by_key, join_keys, key_filename, parse_kv_line, replace_invalid_chars,
    split_keys, trim_field,
};

#[test]
fn workers_come_from_the_alive_set() {
    // Slot 0 is the leader and never chosen; the first alive slots win.
    let membership = vec![1, 0, 1, 1, 0, 1, 0, 0, 0, 0];
    assert_eq!(get_available_workers(2, &membership), Ok(vec![2, 3]));
    assert_eq!(get_available_workers(3, &membership), Ok(vec![2, 3, 5]));
    assert_eq!(
        get_available_workers(4, &membership),
        Err(ClusterError::NoCapacity)
    );
}

#[test]
fn map_ranges_cover_the_rows() {
    // Eleven lines: one schema row, ten data rows over three tasks.
    let ranges = partition_map_tasks(11, 3).unwrap();
    assert_eq!(ranges, vec![(1, 3), (4, 6), (7, 10)]);

    // An empty table is malformed.
    assert_eq!(partition_map_tasks(0, 2), Err(ClusterError::MalformedInput));
    assert_eq!(partition_map_tasks(1, 2), Err(ClusterError::MalformedInput));
}

#[test]
fn juice_ranges_cover_the_keys() {
    assert_eq!(partition_juice_keys(5, 4), vec![(0, 0), (1, 1), (2, 2), (3, 4)]);
    // More workers than keys: only as many tasks as keys.
    assert_eq!(partition_juice_keys(2, 3), vec![(0, 0), (1, 1)]);
    assert_eq!(partition_juice_keys(1, 1), vec![(0, 0)]);
}

#[test]
fn keys_survive_comma_joining() {
    let keys = vec![b"alpha".to_vec(), b"beta".to_vec(), b"gamma".to_vec()];
    let joined = join_keys(&keys);
    assert_eq!(joined, b"alpha,beta,gamma".to_vec());
    assert_eq!(split_keys(&joined), keys);
}

#[test]
fn rows_are_grouped_by_sanitized_key() {
    let lines = vec![
        b"a/b, 1".to_vec(),
        b"a/b, 2".to_vec(),
        b"z, 9".to_vec(),
    ];
    let groups = group_lines_by_key(&lines);
    assert_eq!(groups.len(), 2);
    assert_eq!(groups[0].0, b"a_b".to_vec());
    assert_eq!(groups[0].1, vec![b"a/b, 1".to_vec(), b"a/b, 2".to_vec()]);
    assert_eq!(groups[1].0, b"z".to_vec());

    let (key, value) = parse_kv_line(&b" spark , 7 ".to_vec());
    assert_eq!(key, b"spark".to_vec());
    assert_eq!(value, Some(b"7".to_vec()));
    let (key, value) = parse_kv_line(&b"lonely".to_vec());
    assert_eq!(key, b"lonely".to_vec());
    assert_eq!(value, None);
}

#[test]
fn key_files_carry_prefix_worker_and_key() {
    let name = key_filename(&b"wc".to_vec(), 3, &b"word".to_vec());
    assert_eq!(name, b"wc_3_word".to_vec());
    let name = key_filename(&b"job".to_vec(), 10, &b"k".to_vec());
    assert_eq!(name, b"job_10_k".to_vec());
    assert_eq!(replace_invalid_chars(&b"usr/bin".to_vec()), b"usr_bin".to_vec());
}

#[test]
fn text_helpers_trim() {
    let mut s = b"line\r\n".to_vec();
    trim_newline(&mut s);
    assert_eq!(s, b"line".to_vec());
    let mut s = b"line\n".to_vec();
    trim_newline(&mut s);
    assert_eq!(s, b"line".to_vec());
    assert_eq!(trim_field(&b"  padded\t".to_vec()), b"padded".to_vec());
    assert_eq!(trim_field(&b" \t ".to_vec()), b"".to_vec());
}

#[test]
fn maple_replies_collect_partials() {
    let mut jobs = JobState::new();
    jobs.start_job(b"wc".to_vec(), vec![1, 2]);

    // Worker 2 (stored as 1) reports one key file.
    let reply = vec![(b"word".to_vec(), b"wc_2_word".to_vec())];
    assert_eq!(jobs.record_maple_reply(2, &b"wc".to_vec(), &reply), Ok(false));
    // Worker 3 (stored as 2) reports; the job is complete.
    let reply = vec![(b"word".to_vec(), b"wc_3_word".to_vec())];
    assert_eq!(jobs.record_maple_reply(3, &b"wc".to_vec(), &reply), Ok(true));

    let coalesced = jobs.coalesce_keys(&b"wc".to_vec());
    assert_eq!(coalesced.len(), 1);
    assert_eq!(coalesced[0].0, b"wc_word".to_vec());
    assert_eq!(
        coalesced[0].1,
        vec![b"wc_2_word".to_vec(), b"wc_3_word".to_vec()]
    );
    assert_eq!(
        jobs.job_keys_of(&b"wc".to_vec()),
        Some(vec![b"wc_word".to_vec()])
    );

    // A reply for an unknown job is a protocol violation.
    assert_eq!(
        jobs.record_maple_reply(2, &b"nope".to_vec(), &Vec::new()),
        Err(ClusterError::ProtocolViolation)
    );
}

#[test]
fn juice_replies_collect_outputs() {
    let mut jobs = JobState::new();
    jobs.start_job(b"out".to_vec(), vec![1, 2]);
    assert_eq!(
        jobs.record_juice_reply(2, &b"out".to_vec(), b"out_2".to_vec()),
        Ok(false)
    );
    assert_eq!(
        jobs.record_juice_reply(3, &b"out".to_vec(), b"out_3".to_vec()),
        Ok(true)
    );
    assert_eq!(
        jobs.reduce_partials_of(&b"out".to_vec()),
        vec![b"out_2".to_vec(), b"out_3".to_vec()]
    );
}

/// The identity map: each data row is emitted unchanged.
fn identity_map(rows: &[Vec<u8>]) -> Vec<Vec<u8>> {
    rows.to_vec()
}

/// The sum reduce: add up the numeric second column of a key's rows.
fn sum_reduce(key: &[u8], rows: &[Vec<u8>]) -> Vec<u8> {
    let mut total: u64 = 0;
    for row in rows {
        let (_, value) = parse_kv_line(&row.to_vec());
        let digits = value.unwrap();
        let text = String::from_utf8(digits).unwrap();
        total += text.parse::<u64>().unwrap();
    }
    let mut out = key.to_vec();
    out.push(b',');
    out.extend_from_slice(total.to_string().as_bytes());
    out
}

#[test]
fn word_count_end_to_end() {
    // A table of one schema row and three `word,1` rows, three workers.
    let table: Vec<Vec<u8>> = vec![
        b"word,count".to_vec(),
        b"word,1".to_vec(),
        b"word,1".to_vec(),
        b"word,1".to_vec(),
    ];
    let workers = get_available_workers(3, &vec![1, 1, 1, 1, 0, 0, 0, 0, 0, 0]).unwrap();
    assert_eq!(workers, vec![1, 2, 3]);
    let ranges = partition_map_tasks(table.len(), 3).unwrap();
    assert_eq!(ranges, vec![(1, 1), (2, 2), (3, 3)]);

    let mut jobs = JobState::new();
    jobs.start_job(b"wc".to_vec(), workers.clone());

    // Each worker maps its row slice and reports its per-key files, with
    // the file contents kept beside the names.
    let mut stored: Vec<(Vec<u8>, Vec<Vec<u8>>)> = Vec::new();
    let mut done = false;
    for (w, (lo, hi)) in workers.iter().zip(ranges.iter()) {
        let slice: Vec<Vec<u8>> = table[*lo..=*hi].to_vec();
        let mapped = identity_map(&slice);
        let groups = group_lines_by_key(&mapped);
        let worker_index = w + 1;
        let mut reply: Vec<(Vec<u8>, Vec<u8>)> = Vec::new();
        for (key, rows) in groups {
            let file = key_filename(&b"wc".to_vec(), worker_index, &key);
            stored.push((file.clone(), rows));
            reply.push((key, file));
        }
        done = jobs
            .record_maple_reply(worker_index, &b"wc".to_vec(), &reply)
            .unwrap();
    }
    assert!(done);

    // The leader coalesces the per-worker files into one file per key.
    let coalesced = jobs.coalesce_keys(&b"wc".to_vec());
    assert_eq!(coalesced.len(), 1);
    let mut keyfile_rows: Vec<Vec<u8>> = Vec::new();
    for partial in &coalesced[0].1 {
        let rows = &stored.iter().find(|(name, _)| name == partial).unwrap().1;
        keyfile_rows.extend(rows.iter().cloned());
    }
    assert_eq!(keyfile_rows.len(), 3);

    // One reduce worker sums the single key file.
    let keys = jobs.job_keys_of(&b"wc".to_vec()).unwrap();
    assert_eq!(keys, vec![b"wc_word".to_vec()]);
    let juice_ranges = partition_juice_keys(keys.len(), 1);
    assert_eq!(juice_ranges, vec![(0, 0)]);
    jobs.start_job(b"out".to_vec(), vec![1]);
    let reduced = sum_reduce(b"word", &keyfile_rows);
    assert_eq!(
        jobs.record_juice_reply(2, &b"out".to_vec(), reduced.clone()),
        Ok(true)
    );
    assert_eq!(reduced, b"word,3".to_vec());
}

#[test]
fn sql_queries_become_filter_jobs() {
    let req = maplejuice::leader::sql_to_maple(
        b"table.csv".to_vec(),
        b"^a.*b$".to_vec(),
        b"result".to_vec(),
        3,
    );
    assert!(!req.reduce);
    assert_eq!(req.num_tasks, 3);
    assert_eq!(req.exe, b"sql_filter".to_vec());
    assert_eq!(req.prefix, b"result".to_vec());
    assert_eq!(req.target, b"table.csv".to_vec());
    assert_eq!(req.params, vec![b"^a.*b$".to_vec()]);
}

#[test]
fn rows_sort_lexicographically() {
    let rows = vec![
        b"pear,2".to_vec(),
        b"apple,1".to_vec(),
        b"apple,3".to_vec(),
        b"fig,9".to_vec(),
    ];
    let sorted = maplejuice::worker::sort_rows(rows);
    assert_eq!(
        sorted,
        vec![
            b"apple,1".to_vec(),
            b"apple,3".to_vec(),
            b"fig,9".to_vec(),
            b"pear,2".to_vec(),
        ]
    );
    assert_eq!(maplejuice::worker::sort_rows(Vec::new()), Vec::<Vec<u8>>::new());
}

#[test]
fn shared_keys_land_in_one_group() {
    // Rows whose keys sanitize to the same name are not adjacent even
    // after sorting, yet they must share one group — and one per-key
    // file.
    let rows = maplejuice::worker::sort_rows(vec![
        b"x/y,1".to_vec(),
        b"xAy,2".to_vec(),
        b"x_y,3".to_vec(),
    ]);
    let groups = group_lines_by_key(&rows);
    assert_eq!(groups.len(), 2);
    assert_eq!(groups[0].0, b"x_y".to_vec());
    assert_eq!(groups[0].1, vec![b"x/y,1".to_vec(), b"x_y,3".to_vec()]);
    assert_eq!(groups[1].0, b"xAy".to_vec());
}

#[test]
fn reduce_partials_are_named_after_worker() {
    let name = maplejuice::worker::reduce_partial_filename(&b"out".to_vec(), 7);
    assert_eq!(name, b"out_7".to_vec());
    let name = maplejuice::worker::reduce_partial_filename(&b"totals".to_vec(), 10);
    assert_eq!(name, b"totals_10".to_vec());
}
