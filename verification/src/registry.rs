//! The feed registry: the fixed mapping from agency identifier to source
//! URL, read-only at run time.

use vstd::prelude::*;

verus! {

/// The registry contents: agency identifier and source URL pairs.
pub open spec fn registry_spec() -> Seq<(Seq<char>, Seq<char>)> {
    seq![
        ("ttc"@, "http://opendata.toronto.ca/toronto.transit.commission/ttc-routes-and-schedules/OpenData_TTC_Schedules.zip"@),
        ("upexpress"@, "https://assets.metrolinx.com/raw/upload/v1703103920/Documents/Metrolinx/Open%20Data/UP%20GTFS/UP-GTFS.zip"@),
        ("gotransit"@, "https://assets.metrolinx.com/raw/upload/Documents/Metrolinx/Open%20Data/GO-GTFS.zip"@),
        ("viarail"@, "https://www.viarail.ca/sites/all/files/gtfs/viarail.zip"@),
        ("yrt"@, "https://www.yrt.ca/google/google_transit.zip"@),
        ("miway"@, "https://www.miapp.ca/GTFS/google_transit.zip"@),
        ("brampton"@, "https://brampton.maps.arcgis.com/sharing/rest/content/items/a355aabd5a8c490186bdce559c9c75fb/data"@),
        ("durham"@, "https://maps.durham.ca/OpenDataGTFS/GTFS_Durham_TXT.zip"@),
        ("grt"@, "https://www.regionofwaterloo.ca/opendatadownloads/GRT_GTFS.zip"@),
        ("hsr"@, "http://googlehsrdocs.hamilton.ca/"@),
        ("guelph"@, "http://guelph.ca/uploads/google/google_transit.zip"@),
        ("burlington"@, "https://opendata.burlington.ca/gtfs-rt/GTFS_Data.zip"@),
        ("oakville"@, "https://www.arcgis.com/sharing/rest/content/items/d78a1c1ad6a940009de8b68839a8f606/data"@),
        ("barrie"@, "http://www.myridebarrie.ca/gtfs/Google_transit.zip"@),
        ("niagara"@, "https://maps.niagararegion.ca/googletransit/NiagaraRegionTransit.zip"@),
        ("milton"@, "http://metrolinx.tmix.se/gtfs/gtfs-milton.zip"@),
    ]
}

/// The fixed registry, one entry per agency.
pub fn feed_registry() -> (r: Vec<(String, String)>)
    ensures
        r@.map_values(|p: (String, String)| (p.0@, p.1@)) == registry_spec(),
{
    let mut v: Vec<(String, String)> = Vec::new();
    v.push(("ttc".to_owned(), "http://opendata.toronto.ca/toronto.transit.commission/ttc-routes-and-schedules/OpenData_TTC_Schedules.zip".to_owned()));
    v.push(("upexpress".to_owned(), "https://assets.metrolinx.com/raw/upload/v1703103920/Documents/Metrolinx/Open%20Data/UP%20GTFS/UP-GTFS.zip".to_owned()));
    v.push(("gotransit".to_owned(), "https://assets.metrolinx.com/raw/upload/Documents/Metrolinx/Open%20Data/GO-GTFS.zip".to_owned()));
    v.push(("viarail".to_owned(), "https://www.viarail.ca/sites/all/files/gtfs/viarail.zip".to_owned()));
    v.push(("yrt".to_owned(), "https://www.yrt.ca/google/google_transit.zip".to_owned()));
    v.push(("miway".to_owned(), "https://www.miapp.ca/GTFS/google_transit.zip".to_owned()));
    v.push(("brampton".to_owned(), "https://brampton.maps.arcgis.com/sharing/rest/content/items/a355aabd5a8c490186bdce559c9c75fb/data".to_owned()));
    v.push(("durham".to_owned(), "https://maps.durham.ca/OpenDataGTFS/GTFS_Durham_TXT.zip".to_owned()));
    v.push(("grt".to_owned(), "https://www.regionofwaterloo.ca/opendatadownloads/GRT_GTFS.zip".to_owned()));
    v.push(("hsr".to_owned(), "http://googlehsrdocs.hamilton.ca/".to_owned()));
    v.push(("guelph".to_owned(), "http://guelph.ca/uploads/google/google_transit.zip".to_owned()));
    v.push(("burlington".to_owned(), "https://opendata.burlington.ca/gtfs-rt/GTFS_Data.zip".to_owned()));
    v.push(("oakville".to_owned(), "https://www.arcgis.com/sharing/rest/content/items/d78a1c1ad6a940009de8b68839a8f606/data".to_owned()));
    v.push(("barrie".to_owned(), "http://www.myridebarrie.ca/gtfs/Google_transit.zip".to_owned()));
    v.push(("niagara".to_owned(), "https://maps.niagararegion.ca/googletransit/NiagaraRegionTransit.zip".to_owned()));
    v.push(("milton".to_owned(), "http://metrolinx.tmix.se/gtfs/gtfs-milton.zip".to_owned()));
    proof {
        assert(v@.map_values(|p: (String, String)| (p.0@, p.1@)) =~= registry_spec());
    }
    v
}

} // verus!
