//! Place names: the facts about where a picture was taken that a folder pattern can
//! read, and the GeoNames files they are looked up in.
use vstd::prelude::*;
use crate::error::Error;
use crate::text::owned;
use crate::paths::{join_path, joined_path};

verus! {

/// The gazetteer of cities.
pub const GAZETTEER_FILE: &'static str = "cities.txt";
/// The country names.
pub const COUNTRIES_FILE: &'static str = "countryInfo.txt";
/// The region names.
pub const REGIONS_FILE: &'static str = "admin1Codes.txt";
/// Where the place names come from, as the licence asks it to be said.
pub const CREDIT: &'static str = "Place names from GeoNames, CC BY 4.0, geonames.org";
/// The folder under the models that holds the place names.
pub const FOLDER: &'static str = "geonames";
/// The width of a lookup cell, in whole degrees.
pub const CELL_DEGREES: i32 = 1;

/// One file to fetch: where from, which member of an archive (if it is one), the name
/// it is kept under, and about how large it is.
pub struct Download {
    pub url: &'static str,
    pub member: Option<&'static str>,
    pub file: &'static str,
    pub bytes: u64,
}

/// The files that make up the place names.
pub fn downloads() -> (r: Vec<Download>)
    ensures
        r.len() == 3,
        r@[0].bytes == 11_500_000 && r@[1].bytes == 31_000 && r@[2].bytes == 120_000,
        r@[0].member is Some && r@[1].member is None && r@[2].member is None,
        r@[0].file@ == GAZETTEER_FILE@ && r@[1].file@ == COUNTRIES_FILE@ && r@[2].file@ == REGIONS_FILE@,
{
    let mut r: Vec<Download> = Vec::new();
    r.push(Download {
        url: "https://download.geonames.org/export/dump/cities500.zip",
        member: Some("cities500.txt"),
        file: GAZETTEER_FILE,
        bytes: 11_500_000,
    });
    r.push(Download {
        url: "https://download.geonames.org/export/dump/countryInfo.txt",
        member: None,
        file: COUNTRIES_FILE,
        bytes: 31_000,
    });
    r.push(Download {
        url: "https://download.geonames.org/export/dump/admin1CodesASCII.txt",
        member: None,
        file: REGIONS_FILE,
        bytes: 120_000,
    });
    r
}

/// The folder the place names are kept in: `geonames` under the models.
pub fn directory(models: &str) -> (r: String)
    ensures
        r@ == joined_path(models@, FOLDER@),
{
    join_path(models, FOLDER)
}

/// How many bytes the place names take in all.
pub fn total_bytes() -> (n: u64)
    ensures
        n == 11_500_000 + 31_000 + 120_000,
{
    let all = downloads();
    let mut n: u64 = 0;
    let mut i: usize = 0;
    while i < all.len()
        invariant
            all.len() == 3,
            all@[0].bytes == 11_500_000 && all@[1].bytes == 31_000 && all@[2].bytes == 120_000,
            i <= 3,
            n as int == (if i == 0 { 0int } else if i == 1 { 11_500_000int } else if i == 2 {
                11_531_000int
            } else {
                11_651_000int
            }),
        decreases 3 - i,
    {
        n = n + all[i].bytes;
        i = i + 1;
    }
    n
}

/// Fetching the place names, in a build that was made without a way to fetch them:
/// it says so rather than pretending.
pub fn download(models: &str) -> (r: Result<(), Error>)
    ensures
        r matches Err(Error::Download(m)) && m@ == "this build was made without downloading"@,
{
    Err(Error::Download(owned("this build was made without downloading")))
}

/// The lookup cells in a full circle of longitude.
pub const LONGITUDE_CELLS: i32 = 360;

/// A longitude cell brought into `-180..180`, so the cells on either side of the date
/// line are neighbours.
pub open spec fn spec_wrap_longitude(cell: int) -> int {
    (cell + 180) % 360 - 180
}

/// `cell` brought into the range `-180..180`.
pub fn wrap_longitude(cell: i32) -> (r: i32)
    ensures
        r == spec_wrap_longitude(cell as int),
        -180 <= r < 180,
{
    let span: i64 = (LONGITUDE_CELLS / CELL_DEGREES) as i64;
    let half: i64 = span / 2;
    let shifted: i64 = cell as i64 + half;
    let m: i64 = shifted % span;
    let wrapped: i64 = if m < 0 { m + span } else { m };
    assert(wrapped == (cell as int + 180) % 360);
    (wrapped - half) as i32
}

/// Where a picture was taken, as far as the gazetteer can say.
#[derive(Debug, Clone, PartialEq, Eq)]
pub struct Place {
    pub city: Option<String>,
    pub region: Option<String>,
    pub country: Option<String>,
    pub country_code: Option<String>,
}

impl Default for Place {
    fn default() -> (p: Place)
        ensures
            p.city is None && p.region is None && p.country is None && p.country_code is None,
    {
        Place { city: None, region: None, country: None, country_code: None }
    }
}

impl Place {
    /// Whether nothing at all is known of the place.
    pub fn is_empty(&self) -> (b: bool)
        ensures
            b == (self.city is None && self.region is None && self.country is None
                && self.country_code is None),
    {
        self.city.is_none() && self.region.is_none() && self.country.is_none()
            && self.country_code.is_none()
    }
}

} // verus!
