//! Where OSM extracts come from.

use vstd::prelude::*;
use vstd::string::StringExecFns;

verus! {

/// A source of OSM data.
#[derive(Clone, Debug, PartialEq, Eq)]
pub enum OsmSource {
    /// The whole planet.
    Planet,
    /// A country extract.
    Country(String),
    /// A region of a country: country, region.
    Region(String, String),
    /// A US state.
    State(String),
    /// Any URL of an OSM PBF file.
    CustomUrl(String),
    /// A file on this machine.
    LocalFile(String),
}

/// What `str::to_lowercase` makes of a text.
pub uninterp spec fn lower_of(s: Seq<char>) -> Seq<char>;

/// Relies on std's `str::to_lowercase`: the lowercase form, a function of the
/// characters alone.
#[verifier::external_body]
fn lowercase(s: &str) -> (r: String)
    ensures
        r@ == lower_of(s@),
{
    s.to_lowercase()
}

/// The download address of a source, or none for a local file.
pub open spec fn source_url(src: OsmSource) -> Option<Seq<char>> {
    match src {
        OsmSource::Planet => Some("https://planet.openstreetmap.org/pbf/planet-latest.osm.pbf"@),
        OsmSource::Country(c) => Some("https://download.geofabrik.de/"@ + lower_of(c@) + ".osm.pbf"@),
        OsmSource::Region(c, r) => Some(
            "https://download.geofabrik.de/"@ + lower_of(c@) + "/"@ + lower_of(r@) + ".osm.pbf"@,
        ),
        OsmSource::State(s) => Some(
            "https://download.geofabrik.de/north-america/us/"@ + lower_of(s@) + "-latest.osm.pbf"@,
        ),
        OsmSource::CustomUrl(u) => Some(u@),
        OsmSource::LocalFile(_) => None,
    }
}

impl OsmSource {
    /// The address to download this source from, or none for a local file.
    pub fn url(&self) -> (r: Option<String>)
        ensures
            match r {
                Some(u) => source_url(*self) == Some(u@),
                None => source_url(*self) is None,
            },
    {
        match self {
            OsmSource::Planet => Some(
                String::from_str("https://planet.openstreetmap.org/pbf/planet-latest.osm.pbf"),
            ),
            OsmSource::Country(c) => {
                let mut u = String::from_str("https://download.geofabrik.de/");
                let l = lowercase(c.as_str());
                u.append(l.as_str());
                u.append(".osm.pbf");
                Some(u)
            },
            OsmSource::Region(c, r) => {
                let mut u = String::from_str("https://download.geofabrik.de/");
                let lc = lowercase(c.as_str());
                u.append(lc.as_str());
                u.append("/");
                let lr = lowercase(r.as_str());
                u.append(lr.as_str());
                u.append(".osm.pbf");
                Some(u)
            },
            OsmSource::State(s) => {
                let mut u = String::from_str("https://download.geofabrik.de/north-america/us/");
                let l = lowercase(s.as_str());
                u.append(l.as_str());
                u.append("-latest.osm.pbf");
                Some(u)
            },
            OsmSource::CustomUrl(u) => Some(u.clone()),
            OsmSource::LocalFile(_) => None,
        }
    }
}

} // verus!
