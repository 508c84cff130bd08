use stopfeeds::errors::FeedErrorKind;
use stopfeeds::rows::encode_row;
use stopfeeds::rows::parse_stops;
use stopfeeds::rows::tokenize;
use stopfeeds::stop::StopRecord;

const CANONICAL_HEADER: &str = "stop_id,stop_code,stop_name,tts_stop_name,stop_desc,stop_lat,stop_lon,zone_id,stop_url,location_type,parent_station,stop_timezone,wheelchair_boarding,level_id,platform_code";

fn parse(text: &str) -> Result<Vec<StopRecord>, FeedErrorKind> {
    parse_stops(&text.as_bytes().to_vec())
}

#[test]
fn parses_full_schema_row() {
    let text = "stop_id,stop_code,stop_name,tts_stop_name,stop_desc,stop_lat,stop_lon,zone_id,stop_url,location_type,parent_station,stop_timezone,wheelchair_boarding,level_id,platform_code\n\
                S1,C1,Main St,Main Street,corner stop,43.65,-79.38,Z1,http://x,0,P1,America/Toronto,1,L1,A\n";
    let stops = parse(text).unwrap();
    assert_eq!(stops.len(), 1);
    let s = &stops[0];
    assert_eq!(s.stop_id, b"S1".to_vec());
    assert_eq!(s.stop_code, Some(b"C1".to_vec()));
    assert_eq!(s.stop_name, b"Main St".to_vec());
    assert_eq!(s.tts_stop_name, Some(b"Main Street".to_vec()));
    assert_eq!(s.stop_desc, Some(b"corner stop".to_vec()));
    assert_eq!(s.stop_lat, 436_500_000);
    assert_eq!(s.stop_lon, -793_800_000);
    assert_eq!(s.zone_id, Some(b"Z1".to_vec()));
    assert_eq!(s.stop_url, Some(b"http://x".to_vec()));
    assert_eq!(s.location_type, Some(b"0".to_vec()));
    assert_eq!(s.parent_station, Some(b"P1".to_vec()));
    assert_eq!(s.stop_timezone, Some(b"America/Toronto".to_vec()));
    assert_eq!(s.wheelchair_boarding, Some(1));
    assert_eq!(s.level_id, Some(b"L1".to_vec()));
    assert_eq!(s.platform_code, Some(b"A".to_vec()));
}

#[test]
fn header_order_does_not_matter() {
    let text = "stop_lat,stop_id,stop_lon,stop_name\n1.5,A,2.5,North\n";
    let stops = parse(text).unwrap();
    assert_eq!(stops[0].stop_id, b"A".to_vec());
    assert_eq!(stops[0].stop_name, b"North".to_vec());
    assert_eq!(stops[0].stop_lat, 15_000_000);
    assert_eq!(stops[0].stop_lon, 25_000_000);
}

#[test]
fn missing_optional_columns_yield_absent_fields() {
    let text = "stop_id,stop_name,stop_lat,stop_lon\nA,North,1.5,2.5\n";
    let stops = parse(text).unwrap();
    let s = &stops[0];
    assert_eq!(s.stop_code, None);
    assert_eq!(s.tts_stop_name, None);
    assert_eq!(s.stop_desc, None);
    assert_eq!(s.zone_id, None);
    assert_eq!(s.stop_url, None);
    assert_eq!(s.location_type, None);
    assert_eq!(s.parent_station, None);
    assert_eq!(s.stop_timezone, None);
    assert_eq!(s.wheelchair_boarding, None);
    assert_eq!(s.level_id, None);
    assert_eq!(s.platform_code, None);
}

#[test]
fn blank_optional_cell_is_absent() {
    let text = "stop_id,stop_code,stop_name,stop_lat,stop_lon,wheelchair_boarding\nA,,North,1.5,2.5,\n";
    let stops = parse(text).unwrap();
    assert_eq!(stops[0].stop_code, None);
    assert_eq!(stops[0].wheelchair_boarding, None);
}

#[test]
fn fields_are_trimmed() {
    let text = "stop_id,stop_name,stop_lat,stop_lon\n  A ,\tNorth ,  1.5 , 2.5\n";
    let stops = parse(text).unwrap();
    assert_eq!(stops[0].stop_id, b"A".to_vec());
    assert_eq!(stops[0].stop_name, b"North".to_vec());
    assert_eq!(stops[0].stop_lat, 15_000_000);
}

#[test]
fn non_numeric_latitude_fails_the_feed() {
    let text = "stop_id,stop_name,stop_lat,stop_lon\nA,North,1.5,2.5\nB,South,forty,2.5\n";
    assert_eq!(parse(text), Err(FeedErrorKind::Decode));
}

#[test]
fn missing_required_column_fails_the_feed() {
    let text = "stop_id,stop_name,stop_lat\nA,North,1.5\n";
    assert_eq!(parse(text), Err(FeedErrorKind::Decode));
}

#[test]
fn ragged_row_fails_the_feed() {
    let text = "stop_id,stop_name,stop_lat,stop_lon\nA,North,1.5\n";
    assert_eq!(parse(text), Err(FeedErrorKind::Decode));
}

#[test]
fn non_numeric_wheelchair_code_fails_the_feed() {
    let text = "stop_id,stop_name,stop_lat,stop_lon,wheelchair_boarding\nA,North,1.5,2.5,yes\n";
    assert_eq!(parse(text), Err(FeedErrorKind::Decode));
}

#[test]
fn empty_input_fails_the_feed() {
    assert_eq!(parse(""), Err(FeedErrorKind::Decode));
}

#[test]
fn blank_lines_are_skipped() {
    let text = "stop_id,stop_name,stop_lat,stop_lon\n\nA,North,1.5,2.5\n\n";
    let stops = parse(text).unwrap();
    assert_eq!(stops.len(), 1);
}

#[test]
fn quoted_fields_carry_separators_and_quotes() {
    let text = "stop_id,stop_name,stop_lat,stop_lon\nA,\"Main St, at 1st (\"\"Hub\"\")\",1.5,2.5\n";
    let stops = parse(text).unwrap();
    assert_eq!(stops[0].stop_name, b"Main St, at 1st (\"Hub\")".to_vec());
}

#[test]
fn crlf_line_ends_are_accepted() {
    let text = "stop_id,stop_name,stop_lat,stop_lon\r\nA,North,1.5,2.5\r\n";
    let stops = parse(text).unwrap();
    assert_eq!(stops.len(), 1);
    assert_eq!(stops[0].stop_id, b"A".to_vec());
}

#[test]
fn tokenize_splits_records_and_fields() {
    let rows = tokenize(&b"a,b\nc,d".to_vec());
    assert_eq!(rows.len(), 2);
    assert_eq!(rows[0], vec![b"a".to_vec(), b"b".to_vec()]);
    assert_eq!(rows[1], vec![b"c".to_vec(), b"d".to_vec()]);
}

#[test]
fn reencoding_a_decoded_row_preserves_required_fields() {
    let text = "stop_id,stop_name,stop_lat,stop_lon\nS-42,Union Station,43.6452,-79.3806\n";
    let first = parse_stops(&text.as_bytes().to_vec()).unwrap();
    let mut line = CANONICAL_HEADER.as_bytes().to_vec();
    line.push(b'\n');
    line.extend_from_slice(&encode_row(&first[0]));
    let second = parse_stops(&line).unwrap();
    assert_eq!(second[0].stop_id, first[0].stop_id);
    assert_eq!(second[0].stop_name, first[0].stop_name);
    assert_eq!(second[0].stop_lat, first[0].stop_lat);
    assert_eq!(second[0].stop_lon, first[0].stop_lon);
}

#[test]
fn reencoding_quotes_fields_that_need_it() {
    let text = "stop_id,stop_name,stop_lat,stop_lon\nA,\"Main, \"\"Hub\"\"\",1.5,2.5\n";
    let first = parse_stops(&text.as_bytes().to_vec()).unwrap();
    assert_eq!(first[0].stop_name, b"Main, \"Hub\"".to_vec());
    let mut line = CANONICAL_HEADER.as_bytes().to_vec();
    line.push(b'\n');
    line.extend_from_slice(&encode_row(&first[0]));
    let second = parse_stops(&line).unwrap();
    assert_eq!(second[0], first[0]);
}

#[test]
fn encode_row_lays_out_the_canonical_columns() {
    let text = "stop_id,stop_name,stop_lat,stop_lon,wheelchair_boarding\nA,North,1.5,-2.5,1\n";
    let stops = parse_stops(&text.as_bytes().to_vec()).unwrap();
    assert_eq!(
        encode_row(&stops[0]),
        b"A,,North,,,1.5000000,-2.5000000,,,,,,1,,\n".to_vec()
    );
}
