use stopfeeds::index::Point;
use stopfeeds::index::SpatialIndex;
use stopfeeds::stop::StopRecord;

fn stop(id: &str, lat: i32, lon: i32) -> StopRecord {
    StopRecord {
        stop_id: id.as_bytes().to_vec(),
        stop_code: None,
        stop_name: id.as_bytes().to_vec(),
        tts_stop_name: None,
        stop_desc: None,
        stop_lat: lat,
        stop_lon: lon,
        zone_id: None,
        stop_url: None,
        location_type: None,
        parent_station: None,
        stop_timezone: None,
        wheelchair_boarding: None,
        level_id: None,
        platform_code: None,
    }
}

#[test]
fn query_on_stored_point_returns_its_index() {
    let stops = vec![
        stop("a", 10, 10),
        stop("b", 20, -5),
        stop("c", -30, 40),
        stop("d", 0, 0),
    ];
    let idx = SpatialIndex::build(&stops);
    for (i, s) in stops.iter().enumerate() {
        let q = Point { lat: s.stop_lat, lon: s.stop_lon };
        assert_eq!(idx.nearest(q), Ok(i));
    }
}

#[test]
fn exact_duplicates_resolve_to_the_lowest_index() {
    let stops = vec![stop("a", 5, 5), stop("b", 7, 7), stop("c", 7, 7)];
    let idx = SpatialIndex::build(&stops);
    assert_eq!(idx.nearest(Point { lat: 7, lon: 7 }), Ok(1));
}

#[test]
fn nearest_picks_the_closest_point() {
    let stops = vec![stop("a", 0, 0), stop("b", 100, 100), stop("c", 10, 0)];
    let idx = SpatialIndex::build(&stops);
    assert_eq!(idx.nearest(Point { lat: 4, lon: 0 }), Ok(0));
    assert_eq!(idx.nearest(Point { lat: 7, lon: 0 }), Ok(2));
    assert_eq!(idx.nearest(Point { lat: 90, lon: 95 }), Ok(1));
}

#[test]
fn empty_index_refuses_queries() {
    let idx = SpatialIndex::build(&Vec::new());
    assert!(idx.nearest(Point { lat: 0, lon: 0 }).is_err());
    assert!(idx.k_nearest(Point { lat: 0, lon: 0 }, 3).is_err());
}

#[test]
fn k_nearest_ranks_by_distance_then_index() {
    let stops = vec![stop("a", 0, 0), stop("b", 10, 0), stop("c", 3, 0), stop("d", 10, 0)];
    let idx = SpatialIndex::build(&stops);
    let got = idx.k_nearest(Point { lat: 1, lon: 0 }, 3).unwrap();
    assert_eq!(got, vec![0, 2, 1]);
}

#[test]
fn k_nearest_caps_at_the_point_count() {
    let stops = vec![stop("a", 0, 0), stop("b", 10, 0)];
    let idx = SpatialIndex::build(&stops);
    let got = idx.k_nearest(Point { lat: 0, lon: 0 }, 10).unwrap();
    assert_eq!(got, vec![0, 1]);
}

#[test]
fn zero_neighbours_is_an_empty_answer() {
    let stops = vec![stop("a", 0, 0)];
    let idx = SpatialIndex::build(&stops);
    assert_eq!(idx.len(), 1);
    assert_eq!(idx.k_nearest(Point { lat: 0, lon: 0 }, 0).unwrap(), Vec::<usize>::new());
}
