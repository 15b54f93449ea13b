use bson_dissector::aggregate::{
    array_fragment, AggregateError, Aggregator, ArrayOutput, ARRAY_CLOSE, ARRAY_OPEN,
};
use bson_dissector::bridge::BridgeError;
use bson_dissector::scanner::ScanError;
use bson_dissector::config::{Args, ConfigError, IndexSource, OutputMode};
use bson_dissector::export::{
    artifact_name, locate, partition, settle, FailurePolicy, Progress, RecordFailure,
};
use bson_dissector::loader::{settle_decoded, LoadError};
use bson_dissector::record::DocOffset;
use bson_dissector::slice::Bound;
use std::path::PathBuf;

fn index(n: u64) -> Vec<DocOffset> {
    (0..n).map(|k| DocOffset { offset: k * 16, size: 16 }).collect()
}

/// The order in which `workers` workers finish `count` batches when worker
/// `w` takes the batches `w, w + workers, ..` and the workers finish their
/// batches in turn, the last worker first.
fn completion_order(count: usize, workers: usize) -> Vec<usize> {
    let mut order = Vec::new();
    let mut round = 0;
    while round * workers < count {
        for w in (0..workers).rev() {
            let batch = round * workers + w;
            if batch < count {
                order.push(batch);
            }
        }
        round += 1;
    }
    order
}

#[test]
fn partition_of_thousand_records_by_thirty_seven() {
    let records = index(1000);
    let batches = partition(&records, 37).unwrap();
    assert_eq!(batches.len(), 28);
    for batch in &batches[..27] {
        assert_eq!(batch.len(), 37);
    }
    assert_eq!(batches[27].len(), 1);
    let flat: Vec<DocOffset> = batches.iter().flatten().copied().collect();
    assert_eq!(flat, records);
}

#[test]
fn per_file_export_names_every_record_once() {
    let records = index(1000);
    let batches = partition(&records, 37).unwrap();
    let mut names = Vec::new();
    for batch in completion_order(batches.len(), 4) {
        for nth in 0..batches[batch].len() {
            names.push(artifact_name(batch, nth));
        }
    }
    assert_eq!(names.len(), 1000);
    let mut unique = names.clone();
    unique.sort();
    unique.dedup();
    assert_eq!(unique.len(), 1000);
}

#[test]
fn aggregate_export_keeps_record_order() {
    let records = index(1000);
    let batches = partition(&records, 37).unwrap();
    let order = completion_order(batches.len(), 4);
    assert_ne!(order, (0..batches.len()).collect::<Vec<usize>>());
    let mut aggregator = Aggregator::new(batches.len());
    let mut written = Vec::new();
    for batch in order {
        assert!(!aggregator.is_complete());
        written.extend(aggregator.submit(batch, batches[batch].clone()).unwrap());
    }
    assert!(aggregator.is_complete());
    assert_eq!(written.len(), 1000);
    assert_eq!(written, records);
}

#[test]
fn aggregate_export_in_reverse_completion_order() {
    let batches: Vec<Vec<u32>> = vec![vec![1, 2], vec![], vec![3], vec![4, 5, 6]];
    let mut aggregator = Aggregator::new(4);
    assert_eq!(aggregator.submit(3, batches[3].clone()), Ok(vec![]));
    assert_eq!(aggregator.submit(2, batches[2].clone()), Ok(vec![]));
    assert_eq!(aggregator.submit(1, batches[1].clone()), Ok(vec![]));
    assert_eq!(aggregator.next(), 0);
    assert_eq!(aggregator.submit(0, batches[0].clone()), Ok(vec![1, 2, 3, 4, 5, 6]));
    assert_eq!(aggregator.next(), 4);
    assert!(aggregator.is_complete());
}

#[test]
fn aggregator_flushes_what_waits_behind() {
    let mut aggregator = Aggregator::new(5);
    assert_eq!(aggregator.submit(1, vec!["b"]), Ok(vec![]));
    assert_eq!(aggregator.submit(0, vec!["a"]), Ok(vec!["a", "b"]));
    assert_eq!(aggregator.submit(3, vec!["d"]), Ok(vec![]));
    assert_eq!(aggregator.submit(2, vec!["c"]), Ok(vec!["c", "d"]));
    assert_eq!(aggregator.next(), 4);
    assert!(!aggregator.is_complete());
    assert_eq!(aggregator.submit(4, vec!["e"]), Ok(vec!["e"]));
    assert!(aggregator.is_complete());
}

#[test]
fn aggregator_refuses_unknown_and_repeated_batches() {
    let mut aggregator = Aggregator::new(3);
    assert_eq!(aggregator.submit(3, vec![1]), Err(AggregateError::OutOfRange));
    assert_eq!(aggregator.submit(2, vec![1]), Ok(vec![]));
    assert_eq!(aggregator.submit(2, vec![1]), Err(AggregateError::Duplicate));
    assert_eq!(aggregator.submit(0, vec![7]), Ok(vec![7]));
    assert_eq!(aggregator.submit(0, vec![7]), Err(AggregateError::Duplicate));
    assert_eq!(aggregator.submit(1, vec![8]), Ok(vec![8, 1]));
    let mut empty: Aggregator<u8> = Aggregator::new(0);
    assert!(empty.is_complete());
    assert_eq!(empty.submit(0, vec![]), Err(AggregateError::OutOfRange));
}

#[test]
fn partition_edge_cases() {
    assert_eq!(partition(&index(0), 5), Ok(vec![]));
    assert_eq!(partition(&index(3), 0), Err(ConfigError::ZeroBatch));
    assert_eq!(partition(&index(3), 5), Ok(vec![index(3)]));
    assert_eq!(partition(&index(4), 2), Ok(vec![index(4)[..2].to_vec(), index(4)[2..].to_vec()]));
    assert_eq!(partition(&index(2), usize::MAX), Ok(vec![index(2)]));
}

#[test]
fn artifact_names_are_batch_and_place() {
    assert_eq!(artifact_name(0, 0), "0-0.json");
    assert_eq!(artifact_name(12, 345), "12-345.json");
    assert_ne!(artifact_name(1, 23), artifact_name(12, 3));
    assert_eq!(
        artifact_name(usize::MAX, usize::MAX),
        format!("{}-{}.json", usize::MAX, usize::MAX)
    );
}

#[test]
fn skip_policy_reports_every_failure() {
    let outcomes: Vec<Result<u32, &str>> = vec![Ok(1), Err("bad"), Ok(3), Err("worse")];
    assert_eq!(settle(outcomes, FailurePolicy::Skip), Ok((vec![1, 3], vec!["bad", "worse"])));
    let clean: Vec<Result<u32, &str>> = vec![Ok(1), Ok(2)];
    assert_eq!(settle(clean, FailurePolicy::Skip), Ok((vec![1, 2], vec![])));
}

#[test]
fn abort_policy_stops_at_first_failure() {
    let outcomes: Vec<Result<u32, &str>> = vec![Ok(1), Err("bad"), Ok(3), Err("worse")];
    assert_eq!(settle(outcomes, FailurePolicy::Abort), Err("bad"));
    let clean: Vec<Result<u32, &str>> = vec![Ok(1), Ok(2)];
    assert_eq!(settle(clean, FailurePolicy::Abort), Ok((vec![1, 2], vec![])));
    let none: Vec<Result<u32, &str>> = vec![];
    assert_eq!(settle(none, FailurePolicy::Abort), Ok((vec![], vec![])));
}

#[test]
fn failures_carry_the_offset_of_their_record() {
    let record = DocOffset { offset: 4096, size: 20 };
    let failed: Result<u8, &str> = Err("script execution failed");
    assert_eq!(
        locate(&record, failed),
        Err(RecordFailure { offset: 4096, cause: "script execution failed" })
    );
    let fine: Result<u8, &str> = Ok(9);
    assert_eq!(locate(&record, fine), Ok(9));
    let decoded: Result<&str, u8> = Ok("doc");
    assert_eq!(settle_decoded(&record, decoded), Ok("doc"));
    let refused: Result<&str, u8> = Err(1);
    assert_eq!(settle_decoded(&record, refused), Err(LoadError::Malformed { offset: 4096 }));
}

#[test]
fn progress_counts_up_to_the_total() {
    let mut progress = Progress::new(2);
    assert!(!progress.is_finished());
    progress.advance();
    assert_eq!(progress, Progress { done: 1, total: 2 });
    progress.advance();
    assert!(progress.is_finished());
    progress.advance();
    assert_eq!(progress, Progress { done: 2, total: 2 });
    assert!(Progress::new(0).is_finished());
    let mut batches = Progress::new(100);
    batches.advance_by(37);
    batches.advance_by(37);
    assert_eq!(batches, Progress { done: 74, total: 100 });
    batches.advance_by(37);
    assert_eq!(batches, Progress { done: 100, total: 100 });
    batches.advance_by(u64::MAX);
    assert_eq!(batches, Progress { done: 100, total: 100 });
}

#[test]
fn args_defaults_and_decisions() {
    let mut args = Args::new(PathBuf::from("dump.bson"), PathBuf::from("out"));
    assert_eq!(args.threads, 4);
    assert_eq!(args.batch, 100);
    assert_eq!(args.range(), Ok((Bound::Unbounded, Bound::Unbounded)));
    assert_eq!(args.batch_size(), Ok(100));
    assert_eq!(args.output_mode(true), Ok(OutputMode::PerDocument));
    assert_eq!(args.output_mode(false), Ok(OutputMode::PerDocument));
    assert!(args.creates_output_dir(false));
    assert!(!args.creates_output_dir(true));
    assert!(!args.indents());
    args.pretty = true;
    assert!(args.indents());
    assert_eq!(args.index_source(true), IndexSource::Stored);
    assert_eq!(args.index_source(false), IndexSource::Scan);
    assert_eq!(args.failure_policy(), FailurePolicy::Abort);
    args.skip_failed = true;
    assert_eq!(args.failure_policy(), FailurePolicy::Skip);

    args.single = true;
    args.inspect = true;
    args.batch = 0;
    args.slice = Some("[50..]".to_string());
    assert!(!args.indents());
    assert_eq!(args.output_mode(true), Err(ConfigError::OutputIsDirectory));
    assert_eq!(args.output_mode(false), Ok(OutputMode::Single));
    assert!(!args.creates_output_dir(false));
    assert_eq!(args.index_source(true), IndexSource::Scan);
    assert_eq!(args.batch_size(), Err(ConfigError::ZeroBatch));
    assert_eq!(args.range(), Ok((Bound::Included(50), Bound::Unbounded)));
    args.slice = Some("9..1".to_string());
    assert_eq!(args.range(), Err(ConfigError::InvalidSlice));
}

#[test]
fn failure_messages_name_the_place() {
    assert_eq!(
        ScanError::Malformed { offset: 1024, size: 3 }.message(),
        "malformed document at offset 1024: declared length 3"
    );
    assert_eq!(
        ScanError::Malformed { offset: 0, size: -7 }.message(),
        "malformed document at offset 0: declared length -7"
    );
    assert_eq!(
        ScanError::UnexpectedEof { offset: u64::MAX }.message(),
        "unexpected end of input in the document at offset 18446744073709551615"
    );
    assert_eq!(
        LoadError::Truncated { offset: 12, size: 400 }.message(),
        "truncated read at offset 12: the record declares 400 bytes"
    );
    assert_eq!(LoadError::Malformed { offset: 77 }.message(), "malformed document at offset 77");
    assert_eq!(ConfigError::InvalidSlice.message(), "Invalid slice format");
    assert_eq!(
        ConfigError::OutputIsDirectory.message(),
        "Output path must be a file when using --single"
    );
    assert_eq!(ConfigError::ZeroBatch.message(), "Batch size must be at least 1");
    assert_eq!(
        ConfigError::SliceOutOfBounds.message(),
        "Slice reaches past the end of the index"
    );
    assert_eq!(BridgeError::InvalidIdentifier.message(), "Invalid ObjectId");
    assert_eq!(
        BridgeError::UnsupportedKey.message(),
        "Table key is neither a string nor an integer"
    );
    assert_eq!(
        BridgeError::NotADocument.message(),
        "The script did not leave a document behind"
    );
}

#[test]
fn array_fragments_put_commas_between_items() {
    let items = vec!["{\"a\":1}".to_string(), "{}".to_string(), "{\"b\":2}".to_string()];
    assert_eq!(array_fragment(&items, false), "{\"a\":1},{},{\"b\":2}");
    assert_eq!(array_fragment(&items, true), ",{\"a\":1},{},{\"b\":2}");
    assert_eq!(array_fragment(&vec![], false), "");
    assert_eq!(array_fragment(&vec![], true), "");
    assert_eq!(array_fragment(&vec!["1".to_string()], false), "1");
}

#[test]
fn aggregated_output_is_one_array_in_record_order() {
    let batches: Vec<Vec<String>> = vec![
        vec!["1".to_string(), "2".to_string()],
        vec![],
        vec!["3".to_string()],
        vec!["4".to_string(), "5".to_string()],
    ];
    for order in [[0, 1, 2, 3], [3, 2, 1, 0], [2, 0, 3, 1], [1, 3, 0, 2]] {
        let mut output = ArrayOutput::new(batches.len());
        let mut text = ARRAY_OPEN.to_string();
        for batch in order {
            assert!(!output.is_complete());
            text.push_str(&output.submit(batch, batches[batch].clone()).unwrap());
        }
        assert!(output.is_complete());
        text.push_str(ARRAY_CLOSE);
        assert_eq!(text, "[1,2,3,4,5]");
        let parsed: Vec<u32> = serde_json::from_str(&text).unwrap();
        assert_eq!(parsed, vec![1, 2, 3, 4, 5]);
    }
    let mut empty = ArrayOutput::new(0);
    assert!(empty.is_complete());
    assert_eq!(empty.submit(0, vec![]), Err(AggregateError::OutOfRange));
}
