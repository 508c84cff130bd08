use stopfeeds::codec::Artifact;
use stopfeeds::codec::decode_artifact;
use stopfeeds::codec::encode_artifact;
use stopfeeds::index::Point;
use stopfeeds::stop::StopRecord;

fn stop(id: &str, lat: i32, lon: i32, code: Option<&str>, wheel: Option<u32>) -> StopRecord {
    StopRecord {
        stop_id: id.as_bytes().to_vec(),
        stop_code: code.map(|c| c.as_bytes().to_vec()),
        stop_name: format!("{} name", id).into_bytes(),
        tts_stop_name: None,
        stop_desc: Some(b"desc".to_vec()),
        stop_lat: lat,
        stop_lon: lon,
        zone_id: None,
        stop_url: None,
        location_type: None,
        parent_station: None,
        stop_timezone: Some(b"America/Toronto".to_vec()),
        wheelchair_boarding: wheel,
        level_id: None,
        platform_code: None,
    }
}

#[test]
fn round_trip_preserves_records_and_points() {
    let stops = vec![
        stop("s1", 436_452_000, -793_806_000, Some("c1"), Some(1)),
        stop("s2", -10, 20, None, None),
        stop("s3", 0, 0, Some(""), Some(0)),
    ];
    let artifact = Artifact::assemble(stops.clone());
    let bytes = encode_artifact(&artifact).unwrap();
    let back = decode_artifact(&bytes).unwrap();
    assert_eq!(back.stops, stops);
    assert_eq!(back.index.points.len(), stops.len());
    for (i, s) in stops.iter().enumerate() {
        assert_eq!(back.index.points[i], Point { lat: s.stop_lat, lon: s.stop_lon });
    }
}

#[test]
fn round_trip_of_the_empty_collection() {
    let artifact = Artifact::assemble(Vec::new());
    let bytes = encode_artifact(&artifact).unwrap();
    let back = decode_artifact(&bytes).unwrap();
    assert!(back.stops.is_empty());
    assert!(back.index.points.is_empty());
}

#[test]
fn reconstructed_index_queries_like_the_original() {
    let stops = vec![stop("a", 5, 5, None, None), stop("b", 50, 50, None, None)];
    let artifact = Artifact::assemble(stops);
    let bytes = encode_artifact(&artifact).unwrap();
    let back = decode_artifact(&bytes).unwrap();
    assert_eq!(back.index.nearest(Point { lat: 6, lon: 6 }), Ok(0));
    assert_eq!(back.index.nearest(Point { lat: 49, lon: 49 }), Ok(1));
}

#[test]
fn malformed_bytes_are_rejected() {
    assert!(decode_artifact(&Vec::new()).is_none());
    assert!(decode_artifact(&vec![1, 2, 3]).is_none());
    assert!(decode_artifact(&vec![0; 64]).is_none());
    let artifact = Artifact::assemble(vec![stop("a", 1, 2, None, None)]);
    let mut bytes = encode_artifact(&artifact).unwrap();
    bytes.pop();
    assert!(decode_artifact(&bytes).is_none());
}
