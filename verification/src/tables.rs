use vstd::prelude::*;

use crate::text::chars_of;

verus! {

/// The files of a GTFS feed.
#[derive(Debug, Copy, Clone, PartialEq, Eq, Structural)]
pub enum GtfsTable {
    Calendar,
    Stops,
    CalendarDates,
    Routes,
    Trips,
    StopTimes,
    Agency,
    Shapes,
    FareAttributes,
    FeedInfo,
}

pub open spec fn table_file_name(t: GtfsTable) -> Seq<char> {
    match t {
        GtfsTable::Calendar => "calendar.txt"@,
        GtfsTable::Stops => "stops.txt"@,
        GtfsTable::CalendarDates => "calendar_dates.txt"@,
        GtfsTable::Routes => "routes.txt"@,
        GtfsTable::Trips => "trips.txt"@,
        GtfsTable::StopTimes => "stop_times.txt"@,
        GtfsTable::Agency => "agency.txt"@,
        GtfsTable::Shapes => "shapes.txt"@,
        GtfsTable::FareAttributes => "fare_attributes.txt"@,
        GtfsTable::FeedInfo => "feed_info.txt"@,
    }
}

pub open spec fn ends_with(s: Seq<char>, suffix: Seq<char>) -> bool {
    suffix.len() <= s.len() && s.skip(s.len() - suffix.len()) == suffix
}

/// The table that a file of an archive holds, judged by the end of its name
/// (so that files in a subdirectory count); the names are tried in this order.
pub open spec fn table_of_name(name: Seq<char>) -> Option<GtfsTable> {
    if ends_with(name, "calendar.txt"@) {
        Some(GtfsTable::Calendar)
    } else if ends_with(name, "stops.txt"@) {
        Some(GtfsTable::Stops)
    } else if ends_with(name, "calendar_dates.txt"@) {
        Some(GtfsTable::CalendarDates)
    } else if ends_with(name, "routes.txt"@) {
        Some(GtfsTable::Routes)
    } else if ends_with(name, "trips.txt"@) {
        Some(GtfsTable::Trips)
    } else if ends_with(name, "stop_times.txt"@) {
        Some(GtfsTable::StopTimes)
    } else if ends_with(name, "agency.txt"@) {
        Some(GtfsTable::Agency)
    } else if ends_with(name, "shapes.txt"@) {
        Some(GtfsTable::Shapes)
    } else if ends_with(name, "fare_attributes.txt"@) {
        Some(GtfsTable::FareAttributes)
    } else if ends_with(name, "feed_info.txt"@) {
        Some(GtfsTable::FeedInfo)
    } else {
        None
    }
}

fn has_suffix(name: &Vec<char>, suffix: &str) -> (r: bool)
    ensures
        r == ends_with(name@, suffix@),
{
    let suf = chars_of(suffix);
    let n = name.len();
    let m = suf.len();
    if m > n {
        return false;
    }
    let base = n - m;
    for i in 0..m
        invariant
            n == name@.len(),
            m == suf@.len(),
            suf@ == suffix@,
            base == n - m,
            forall|j: int| 0 <= j < i ==> name@[base + j] == suf@[j],
    {
        if name[base + i] != suf[i] {
            assert(name@.skip(base as int)[i as int] != suf@[i as int]);
            return false;
        }
    }
    assert(name@.skip(base as int) =~= suf@);
    true
}

impl GtfsTable {
    /// The name of the file that holds the table.
    pub fn file_name(&self) -> (r: &'static str)
        ensures
            r@ == table_file_name(*self),
    {
        match self {
            GtfsTable::Calendar => "calendar.txt",
            GtfsTable::Stops => "stops.txt",
            GtfsTable::CalendarDates => "calendar_dates.txt",
            GtfsTable::Routes => "routes.txt",
            GtfsTable::Trips => "trips.txt",
            GtfsTable::StopTimes => "stop_times.txt",
            GtfsTable::Agency => "agency.txt",
            GtfsTable::Shapes => "shapes.txt",
            GtfsTable::FareAttributes => "fare_attributes.txt",
            GtfsTable::FeedInfo => "feed_info.txt",
        }
    }

    /// Whether a feed read from a directory must hold the table: shapes,
    /// fare attributes and feed info may be missing.
    pub fn required(&self) -> (r: bool)
        ensures
            r == !(*self == GtfsTable::Shapes || *self == GtfsTable::FareAttributes
                || *self == GtfsTable::FeedInfo),
    {
        match self {
            GtfsTable::Shapes | GtfsTable::FareAttributes | GtfsTable::FeedInfo => false,
            _ => true,
        }
    }
}

/// The table that a file of an archive holds, judged by the end of its name.
pub fn table_of_file(name: &str) -> (r: Option<GtfsTable>)
    ensures
        r == table_of_name(name@),
{
    let v = chars_of(name);
    if has_suffix(&v, "calendar.txt") {
        Some(GtfsTable::Calendar)
    } else if has_suffix(&v, "stops.txt") {
        Some(GtfsTable::Stops)
    } else if has_suffix(&v, "calendar_dates.txt") {
        Some(GtfsTable::CalendarDates)
    } else if has_suffix(&v, "routes.txt") {
        Some(GtfsTable::Routes)
    } else if has_suffix(&v, "trips.txt") {
        Some(GtfsTable::Trips)
    } else if has_suffix(&v, "stop_times.txt") {
        Some(GtfsTable::StopTimes)
    } else if has_suffix(&v, "agency.txt") {
        Some(GtfsTable::Agency)
    } else if has_suffix(&v, "shapes.txt") {
        Some(GtfsTable::Shapes)
    } else if has_suffix(&v, "fare_attributes.txt") {
        Some(GtfsTable::FareAttributes)
    } else if has_suffix(&v, "feed_info.txt") {
        Some(GtfsTable::FeedInfo)
    } else {
        None
    }
}


proof fn lemma_differs_near_end(s: Seq<char>, suffix: Seq<char>, j: int)
    requires
        0 <= j < suffix.len(),
        j < s.len(),
        s[s.len() - 1 - j] != suffix[suffix.len() - 1 - j],
    ensures
        !ends_with(s, suffix),
{
    if ends_with(s, suffix) {
        assert(s.skip(s.len() - suffix.len())[suffix.len() - 1 - j] == suffix[suffix.len() - 1 - j]);
    }
}

/// The file of every table is recognised as that table, also where it lies in
/// a directory of the archive.
pub proof fn lemma_table_of_own_file(t: GtfsTable, dir: Seq<char>)
    ensures
        table_of_name(dir + table_file_name(t)) == Some(t),
{
    reveal_strlit("calendar.txt");
    reveal_strlit("stops.txt");
    reveal_strlit("calendar_dates.txt");
    reveal_strlit("routes.txt");
    reveal_strlit("trips.txt");
    reveal_strlit("stop_times.txt");
    reveal_strlit("agency.txt");
    reveal_strlit("shapes.txt");
    reveal_strlit("fare_attributes.txt");
    reveal_strlit("feed_info.txt");
    let s = dir + table_file_name(t);
    match t {
        GtfsTable::Calendar => {
            assert(s.skip(s.len() - 12) =~= "calendar.txt"@);

        },
        GtfsTable::Stops => {
            assert(s.skip(s.len() - 9) =~= "stops.txt"@);
            lemma_differs_near_end(s, "calendar.txt"@, 4);
        },
        GtfsTable::CalendarDates => {
            assert(s.skip(s.len() - 18) =~= "calendar_dates.txt"@);
            lemma_differs_near_end(s, "calendar.txt"@, 4);
            lemma_differs_near_end(s, "stops.txt"@, 5);
        },
        GtfsTable::Routes => {
            assert(s.skip(s.len() - 10) =~= "routes.txt"@);
            lemma_differs_near_end(s, "calendar.txt"@, 4);
            lemma_differs_near_end(s, "stops.txt"@, 5);
            lemma_differs_near_end(s, "calendar_dates.txt"@, 7);
        },
        GtfsTable::Trips => {
            assert(s.skip(s.len() - 9) =~= "trips.txt"@);
            lemma_differs_near_end(s, "calendar.txt"@, 4);
            lemma_differs_near_end(s, "stops.txt"@, 6);
            lemma_differs_near_end(s, "calendar_dates.txt"@, 5);
            lemma_differs_near_end(s, "routes.txt"@, 5);
        },
        GtfsTable::StopTimes => {
            assert(s.skip(s.len() - 14) =~= "stop_times.txt"@);
            lemma_differs_near_end(s, "calendar.txt"@, 4);
            lemma_differs_near_end(s, "stops.txt"@, 5);
            lemma_differs_near_end(s, "calendar_dates.txt"@, 6);
            lemma_differs_near_end(s, "routes.txt"@, 6);
            lemma_differs_near_end(s, "trips.txt"@, 5);
        },
        GtfsTable::Agency => {
            assert(s.skip(s.len() - 10) =~= "agency.txt"@);
            lemma_differs_near_end(s, "calendar.txt"@, 4);
            lemma_differs_near_end(s, "stops.txt"@, 4);
            lemma_differs_near_end(s, "calendar_dates.txt"@, 4);
            lemma_differs_near_end(s, "routes.txt"@, 4);
            lemma_differs_near_end(s, "trips.txt"@, 4);
            lemma_differs_near_end(s, "stop_times.txt"@, 4);
        },
        GtfsTable::Shapes => {
            assert(s.skip(s.len() - 10) =~= "shapes.txt"@);
            lemma_differs_near_end(s, "calendar.txt"@, 4);
            lemma_differs_near_end(s, "stops.txt"@, 5);
            lemma_differs_near_end(s, "calendar_dates.txt"@, 6);
            lemma_differs_near_end(s, "routes.txt"@, 6);
            lemma_differs_near_end(s, "trips.txt"@, 5);
            lemma_differs_near_end(s, "stop_times.txt"@, 6);
            lemma_differs_near_end(s, "agency.txt"@, 4);
        },
        GtfsTable::FareAttributes => {
            assert(s.skip(s.len() - 19) =~= "fare_attributes.txt"@);
            lemma_differs_near_end(s, "calendar.txt"@, 4);
            lemma_differs_near_end(s, "stops.txt"@, 5);
            lemma_differs_near_end(s, "calendar_dates.txt"@, 7);
            lemma_differs_near_end(s, "routes.txt"@, 8);
            lemma_differs_near_end(s, "trips.txt"@, 5);
            lemma_differs_near_end(s, "stop_times.txt"@, 6);
            lemma_differs_near_end(s, "agency.txt"@, 4);
            lemma_differs_near_end(s, "shapes.txt"@, 6);
        },
        GtfsTable::FeedInfo => {
            assert(s.skip(s.len() - 13) =~= "feed_info.txt"@);
            lemma_differs_near_end(s, "calendar.txt"@, 4);
            lemma_differs_near_end(s, "stops.txt"@, 4);
            lemma_differs_near_end(s, "calendar_dates.txt"@, 4);
            lemma_differs_near_end(s, "routes.txt"@, 4);
            lemma_differs_near_end(s, "trips.txt"@, 4);
            lemma_differs_near_end(s, "stop_times.txt"@, 4);
            lemma_differs_near_end(s, "agency.txt"@, 4);
            lemma_differs_near_end(s, "shapes.txt"@, 4);
            lemma_differs_near_end(s, "fare_attributes.txt"@, 4);
        },
    }
}

/// The file names of the GTFS, each recognised as its own table, also where
/// it lies in a directory of the archive.
pub proof fn lemma_gtfs_file_names(dir: Seq<char>)
    ensures
        table_of_name(dir + "calendar.txt"@) == Some(GtfsTable::Calendar),
        table_of_name(dir + "stops.txt"@) == Some(GtfsTable::Stops),
        table_of_name(dir + "calendar_dates.txt"@) == Some(GtfsTable::CalendarDates),
        table_of_name(dir + "routes.txt"@) == Some(GtfsTable::Routes),
        table_of_name(dir + "trips.txt"@) == Some(GtfsTable::Trips),
        table_of_name(dir + "stop_times.txt"@) == Some(GtfsTable::StopTimes),
        table_of_name(dir + "agency.txt"@) == Some(GtfsTable::Agency),
        table_of_name(dir + "shapes.txt"@) == Some(GtfsTable::Shapes),
        table_of_name(dir + "fare_attributes.txt"@) == Some(GtfsTable::FareAttributes),
        table_of_name(dir + "feed_info.txt"@) == Some(GtfsTable::FeedInfo),
{
    lemma_table_of_own_file(GtfsTable::Calendar, dir);
    lemma_table_of_own_file(GtfsTable::Stops, dir);
    lemma_table_of_own_file(GtfsTable::CalendarDates, dir);
    lemma_table_of_own_file(GtfsTable::Routes, dir);
    lemma_table_of_own_file(GtfsTable::Trips, dir);
    lemma_table_of_own_file(GtfsTable::StopTimes, dir);
    lemma_table_of_own_file(GtfsTable::Agency, dir);
    lemma_table_of_own_file(GtfsTable::Shapes, dir);
    lemma_table_of_own_file(GtfsTable::FareAttributes, dir);
    lemma_table_of_own_file(GtfsTable::FeedInfo, dir);
}

} // verus!
