use stopfeeds::aggregate::build_artifact_bytes;
use stopfeeds::aggregate::merge_results;
use stopfeeds::aggregate::BuildError;
use stopfeeds::aggregate::FeedOutcome;
use stopfeeds::codec::decode_artifact;
use stopfeeds::errors::FeedError;
use stopfeeds::errors::FeedErrorKind;
use stopfeeds::index::Point;
use stopfeeds::pipeline::process_feed;
use stopfeeds::registry::feed_registry;

fn make_zip(member: &str, content: &[u8]) -> Vec<u8> {
    let cursor = std::io::Cursor::new(Vec::new());
    let mut w = zip::ZipWriter::new(cursor);
    let opts = zip::write::SimpleFileOptions::default();
    w.start_file(member, opts).unwrap();
    std::io::Write::write_all(&mut w, content).unwrap();
    w.finish().unwrap().into_inner()
}

#[test]
fn pipeline_extracts_and_decodes_a_feed() {
    let csv = b"stop_id,stop_name,stop_lat,stop_lon\nA,North,1.5,2.5\nB,South,-1.5,-2.5\n";
    let archive = make_zip("stops.txt", csv);
    let stops = process_feed(&b"ttc".to_vec(), &archive).unwrap();
    assert_eq!(stops.len(), 2);
    assert_eq!(stops[0].stop_id, b"A".to_vec());
    assert_eq!(stops[1].stop_lat, -15_000_000);
}

#[test]
fn pipeline_rejects_garbage_bytes() {
    let err = process_feed(&b"yrt".to_vec(), &b"not a zip at all".to_vec()).unwrap_err();
    assert_eq!(err.agency, b"yrt".to_vec());
    assert_eq!(err.kind, FeedErrorKind::Archive);
}

#[test]
fn pipeline_requires_the_stops_member() {
    let archive = make_zip("routes.txt", b"whatever");
    let err = process_feed(&b"grt".to_vec(), &archive).unwrap_err();
    assert_eq!(err.kind, FeedErrorKind::MissingMember);
}

#[test]
fn pipeline_tags_decode_failures_with_the_agency() {
    let archive = make_zip("stops.txt", b"stop_id,stop_name,stop_lat,stop_lon\nA,North,x,2\n");
    let err = process_feed(&b"miway".to_vec(), &archive).unwrap_err();
    assert_eq!(err.agency, b"miway".to_vec());
    assert_eq!(err.kind, FeedErrorKind::Decode);
}

#[test]
fn one_failing_fetch_fails_the_whole_run() {
    let csv = b"stop_id,stop_name,stop_lat,stop_lon\nA,North,1,1\nB,Mid,2,2\nC,South,3,3\n";
    let archive = make_zip("stops.txt", csv);
    let good = process_feed(&b"first".to_vec(), &archive).unwrap();
    assert_eq!(good.len(), 3);
    let outs = vec![
        FeedOutcome { agency: b"first".to_vec(), outcome: Ok(good) },
        FeedOutcome { agency: b"second".to_vec(), outcome: Err(FeedErrorKind::Transport) },
    ];
    match build_artifact_bytes(outs) {
        Err(BuildError::Feed(e)) => {
            assert_eq!(e.agency, b"second".to_vec());
            assert_eq!(e.kind, FeedErrorKind::Transport);
        },
        _ => panic!("a failing pipeline must fail the run"),
    }
}

#[test]
fn merge_reports_the_first_failure_in_completion_order() {
    let outs = vec![
        FeedOutcome { agency: b"a".to_vec(), outcome: Err(FeedErrorKind::Decode) },
        FeedOutcome { agency: b"b".to_vec(), outcome: Err(FeedErrorKind::Transport) },
    ];
    let err: FeedError = merge_results(outs).unwrap_err();
    assert_eq!(err.agency, b"a".to_vec());
    assert_eq!(err.kind, FeedErrorKind::Decode);
}

#[test]
fn two_good_feeds_merge_into_one_indexed_artifact() {
    let csv1 = b"stop_id,stop_name,stop_lat,stop_lon\nA,North,1,1\nB,Mid,2,2\n";
    let csv2 = b"stop_id,stop_name,stop_lat,stop_lon\nC,South,3,3\nD,East,4,4\n";
    let s1 = process_feed(&b"one".to_vec(), &make_zip("stops.txt", csv1)).unwrap();
    let s2 = process_feed(&b"two".to_vec(), &make_zip("stops.txt", csv2)).unwrap();
    let outs = vec![
        FeedOutcome { agency: b"one".to_vec(), outcome: Ok(s1) },
        FeedOutcome { agency: b"two".to_vec(), outcome: Ok(s2) },
    ];
    let bytes = build_artifact_bytes(outs).unwrap();
    let artifact = decode_artifact(&bytes).unwrap();
    assert_eq!(artifact.stops.len(), 4);
    assert_eq!(artifact.stops[0].stop_id, b"A".to_vec());
    assert_eq!(artifact.stops[3].stop_id, b"D".to_vec());
    for (i, s) in artifact.stops.iter().enumerate() {
        let q = Point { lat: s.stop_lat, lon: s.stop_lon };
        assert_eq!(artifact.index.nearest(q), Ok(i));
    }
}

#[test]
fn registry_holds_the_sixteen_agencies() {
    let reg = feed_registry();
    assert_eq!(reg.len(), 16);
    assert_eq!(reg[0].0, "ttc");
    assert_eq!(reg[3].1, "https://www.viarail.ca/sites/all/files/gtfs/viarail.zip");
    assert_eq!(reg[15].0, "milton");
}

#[test]
fn errors_describe_themselves() {
    let e = FeedError { agency: b"ttc".to_vec(), kind: FeedErrorKind::MissingMember };
    assert_eq!(e.describe(), "archive has no stops.txt member");
}
