//! The normalized stop record and its mathematical model.
//!
//! Field text is kept as the UTF-8 bytes the feed delivered, trimmed of
//! surrounding ASCII whitespace.  Coordinates are stored in fixed point:
//! decimal degrees scaled by `10^7` (about centimetre precision), which
//! covers the full range of latitudes and longitudes within `i32`.

use vstd::prelude::*;

verus! {

/// Mathematical model of one stop record.  Optional fields are `None` when
/// the source feed omitted the column or left the value blank.
pub struct StopData {
    pub stop_id: Seq<u8>,
    pub stop_code: Option<Seq<u8>>,
    pub stop_name: Seq<u8>,
    pub tts_stop_name: Option<Seq<u8>>,
    pub stop_desc: Option<Seq<u8>>,
    pub stop_lat: int,
    pub stop_lon: int,
    pub zone_id: Option<Seq<u8>>,
    pub stop_url: Option<Seq<u8>>,
    pub location_type: Option<Seq<u8>>,
    pub parent_station: Option<Seq<u8>>,
    pub stop_timezone: Option<Seq<u8>>,
    pub wheelchair_boarding: Option<u32>,
    pub level_id: Option<Seq<u8>>,
    pub platform_code: Option<Seq<u8>>,
}

/// One transit stop, agency-agnostic.  Immutable once parsed: later stages
/// only move records into larger containers.
#[derive(Debug, PartialEq, Eq, Clone)]
pub struct StopRecord {
    pub stop_id: Vec<u8>,
    pub stop_code: Option<Vec<u8>>,
    pub stop_name: Vec<u8>,
    pub tts_stop_name: Option<Vec<u8>>,
    pub stop_desc: Option<Vec<u8>>,
    /// Latitude in decimal degrees times `10^7`.
    pub stop_lat: i32,
    /// Longitude in decimal degrees times `10^7`.
    pub stop_lon: i32,
    pub zone_id: Option<Vec<u8>>,
    pub stop_url: Option<Vec<u8>>,
    pub location_type: Option<Vec<u8>>,
    pub parent_station: Option<Vec<u8>>,
    pub stop_timezone: Option<Vec<u8>>,
    pub wheelchair_boarding: Option<u32>,
    pub level_id: Option<Vec<u8>>,
    pub platform_code: Option<Vec<u8>>,
}

/// View of an optional byte-vector field.
pub open spec fn opt_bytes(o: Option<Vec<u8>>) -> Option<Seq<u8>> {
    match o {
        Some(v) => Some(v@),
        None => None,
    }
}

impl View for StopRecord {
    type V = StopData;

    open spec fn view(&self) -> StopData {
        StopData {
            stop_id: self.stop_id@,
            stop_code: opt_bytes(self.stop_code),
            stop_name: self.stop_name@,
            tts_stop_name: opt_bytes(self.tts_stop_name),
            stop_desc: opt_bytes(self.stop_desc),
            stop_lat: self.stop_lat as int,
            stop_lon: self.stop_lon as int,
            zone_id: opt_bytes(self.zone_id),
            stop_url: opt_bytes(self.stop_url),
            location_type: opt_bytes(self.location_type),
            parent_station: opt_bytes(self.parent_station),
            stop_timezone: opt_bytes(self.stop_timezone),
            wheelchair_boarding: self.wheelchair_boarding,
            level_id: opt_bytes(self.level_id),
            platform_code: opt_bytes(self.platform_code),
        }
    }
}

/// The models of a whole collection of records, in order.
pub open spec fn stops_view(stops: Seq<StopRecord>) -> Seq<StopData> {
    stops.map_values(|s: StopRecord| s@)
}

} // verus!
