//! The static part of a GTFS feed (General Transit Feed Specification): its
//! tables as read, the feed they make once indexed by identifier, and the
//! rules by which its fields are read.

pub mod date;
pub mod gtfs;
pub mod id_map;
pub mod kinds;
pub mod objects;
pub mod ordering;
pub mod tables;
pub mod text;

pub use date::{parse_date, parse_option_date, Date, DateErrorKind, Weekday};
pub use gtfs::{
    create_trips, to_calendar_dates, to_map, to_shape_map, to_stop_map, Gtfs, RawGtfs,
    ReferenceError,
};
pub use id_map::IdMap;
pub use kinds::{
    parse_bool, Availability, InvalidBool, LocationType, ObjectType, PaymentMethod,
    PickupDropOffType, RouteType, Transfers,
};
pub use objects::{
    Agency, Calendar, CalendarDate, FareAttribute, FeedInfo, Id, RawStopTime, RawTrip, Route,
    Shape, Stop, StopTime, Trip, Type,
};
pub use ordering::insert_stop_time;
pub use tables::{table_of_file, GtfsTable};
pub use text::{parse_time, time_outcome, IntErrorKind, TimeOutcome};
