use std::sync::Arc;
use vstd::prelude::*;
use vstd::string::StringExecFns;

use crate::date::{naive_date_display, weekday_of, Date, Weekday};
use crate::kinds::{
    Availability, LocationType, ObjectType, PaymentMethod, PickupDropOffType, RouteType,
    Transfers,
};

verus! {

/// Objects that carry an identifier.
pub trait Id {
    /// The identifier of the object.
    spec fn id_view(&self) -> Seq<char>;

    fn id(&self) -> (r: &str)
        ensures
            r@ == self.id_view(),
    ;
}

/// Objects that know which kind of GTFS object they are.
pub trait Type {
    fn object_type(&self) -> ObjectType;
}

/// `a` followed by `b`.
fn concat(a: &str, b: &str) -> (r: String)
    ensures
        r@ == a@ + b@,
{
    let mut s = String::from_str(a);
    s.append(b);
    s
}

/// A service's weekly pattern and the days between which it runs (`calendar.txt`).
#[derive(Debug)]
pub struct Calendar {
    pub id: String,
    pub monday: bool,
    pub tuesday: bool,
    pub wednesday: bool,
    pub thursday: bool,
    pub friday: bool,
    pub saturday: bool,
    pub sunday: bool,
    pub start_date: Date,
    pub end_date: Date,
}

/// Whether the weekly pattern of `c` includes weekday `w`.
pub open spec fn runs_on(c: Calendar, w: Weekday) -> bool {
    match w {
        Weekday::Mon => c.monday,
        Weekday::Tue => c.tuesday,
        Weekday::Wed => c.wednesday,
        Weekday::Thu => c.thursday,
        Weekday::Fri => c.friday,
        Weekday::Sat => c.saturday,
        Weekday::Sun => c.sunday,
    }
}

/// A calendar runs on a weekday exactly when the flag named after that
/// weekday is set.
pub proof fn lemma_runs_on_flags(c: Calendar)
    ensures
        runs_on(c, Weekday::Mon) == c.monday,
        runs_on(c, Weekday::Tue) == c.tuesday,
        runs_on(c, Weekday::Wed) == c.wednesday,
        runs_on(c, Weekday::Thu) == c.thursday,
        runs_on(c, Weekday::Fri) == c.friday,
        runs_on(c, Weekday::Sat) == c.saturday,
        runs_on(c, Weekday::Sun) == c.sunday,
{
}

impl Calendar {
    /// Whether the service runs on the weekday of `date`.
    pub fn valid_weekday(&self, date: Date) -> (r: bool)
        ensures
            r == runs_on(*self, weekday_of(date@)),
    {
        match date.weekday() {
            Weekday::Mon => self.monday,
            Weekday::Tue => self.tuesday,
            Weekday::Wed => self.wednesday,
            Weekday::Thu => self.thursday,
            Weekday::Fri => self.friday,
            Weekday::Sat => self.saturday,
            Weekday::Sun => self.sunday,
        }
    }

    /// The first and last days of the service, as `start—end`.
    pub fn to_string(&self) -> (r: String)
        ensures
            r@ == naive_date_display(self.start_date@) + "—"@ + naive_date_display(self.end_date@),
    {
        let mut s = self.start_date.to_string();
        s.append("—");
        let end = self.end_date.to_string();
        s.append(end.as_str());
        s
    }
}

impl Type for Calendar {
    fn object_type(&self) -> (r: ObjectType)
        ensures
            r == ObjectType::Calendar,
    {
        ObjectType::Calendar
    }
}

impl Id for Calendar {
    open spec fn id_view(&self) -> Seq<char> {
        self.id@
    }

    fn id(&self) -> (r: &str) {
        self.id.as_str()
    }
}

/// An exception to a service's calendar (`calendar_dates.txt`): type 1 adds
/// the day, type 2 removes it.
#[derive(Debug)]
pub struct CalendarDate {
    pub service_id: String,
    pub date: Date,
    pub exception_type: u8,
}

/// A stop or station (`stops.txt`). The coordinates are the bit patterns of
/// the `f64` values read from the feed.
#[derive(Debug, Default)]
pub struct Stop {
    pub id: String,
    pub code: Option<String>,
    pub name: String,
    pub description: String,
    pub location_type: LocationType,
    pub parent_station: Option<String>,
    pub longitude_bits: u64,
    pub latitude_bits: u64,
    pub timezone: Option<String>,
    pub wheelchair_boarding: Availability,
}

impl Type for Stop {
    fn object_type(&self) -> (r: ObjectType)
        ensures
            r == ObjectType::Stop,
    {
        ObjectType::Stop
    }
}

impl Id for Stop {
    open spec fn id_view(&self) -> Seq<char> {
        self.id@
    }

    fn id(&self) -> (r: &str) {
        self.id.as_str()
    }
}

impl Stop {
    /// The name of the stop.
    pub fn to_string(&self) -> (r: String)
        ensures
            r@ == self.name@,
    {
        self.name.clone()
    }
}

/// A row of `stop_times.txt`, before its trip and stop are looked up.
#[derive(Debug, Default)]
pub struct RawStopTime {
    pub trip_id: String,
    pub arrival_time: u32,
    pub departure_time: u32,
    pub stop_id: String,
    pub stop_sequence: u16,
    pub pickup_type: Option<PickupDropOffType>,
    pub drop_off_type: Option<PickupDropOffType>,
}

/// A vehicle's stop at a stop of its trip.
#[derive(Debug, Default)]
pub struct StopTime {
    pub arrival_time: u32,
    pub stop: Arc<Stop>,
    pub departure_time: u32,
    pub pickup_type: Option<PickupDropOffType>,
    pub drop_off_type: Option<PickupDropOffType>,
    pub stop_sequence: u16,
}

/// The stop time that a row of `stop_times.txt` becomes once its stop is known.
pub open spec fn stop_time_of(raw: RawStopTime, stop: Arc<Stop>) -> StopTime {
    StopTime {
        arrival_time: raw.arrival_time,
        stop: stop,
        departure_time: raw.departure_time,
        pickup_type: raw.pickup_type,
        drop_off_type: raw.drop_off_type,
        stop_sequence: raw.stop_sequence,
    }
}

impl StopTime {
    /// The stop time of a row of `stop_times.txt` at `stop`.
    pub fn from(stop_time_gtfs: &RawStopTime, stop: Arc<Stop>) -> (r: StopTime)
        ensures
            r == stop_time_of(*stop_time_gtfs, stop),
    {
        StopTime {
            arrival_time: stop_time_gtfs.arrival_time,
            departure_time: stop_time_gtfs.departure_time,
            stop,
            pickup_type: stop_time_gtfs.pickup_type,
            drop_off_type: stop_time_gtfs.drop_off_type,
            stop_sequence: stop_time_gtfs.stop_sequence,
        }
    }
}

/// A line (`routes.txt`).
#[derive(Debug, Default)]
pub struct Route {
    pub id: String,
    pub short_name: String,
    pub long_name: String,
    pub route_type: RouteType,
    pub agency_id: Option<String>,
    pub route_order: Option<u32>,
}

impl Type for Route {
    fn object_type(&self) -> (r: ObjectType)
        ensures
            r == ObjectType::Route,
    {
        ObjectType::Route
    }
}

impl Id for Route {
    open spec fn id_view(&self) -> Seq<char> {
        self.id@
    }

    fn id(&self) -> (r: &str) {
        self.id.as_str()
    }
}

impl Route {
    /// The long name of the route, or its short name where the long one is empty.
    pub fn to_string(&self) -> (r: String)
        ensures
            r@ == (if self.long_name@.len() > 0 { self.long_name@ } else { self.short_name@ }),
    {
        if !self.long_name.as_str().is_empty() {
            self.long_name.clone()
        } else {
            self.short_name.clone()
        }
    }
}

/// The text that describes a trip by its route and service.
pub open spec fn trip_text(route_id: Seq<char>, service_id: Seq<char>) -> Seq<char> {
    "route id: "@ + route_id + ", service id: "@ + service_id
}

fn trip_description(route_id: &String, service_id: &String) -> (r: String)
    ensures
        r@ == trip_text(route_id@, service_id@),
{
    let mut s = concat("route id: ", route_id.as_str());
    s.append(", service id: ");
    s.append(service_id.as_str());
    s
}

/// A row of `trips.txt`.
#[derive(Debug, Default)]
pub struct RawTrip {
    pub id: String,
    pub service_id: String,
    pub route_id: String,
}

impl Type for RawTrip {
    fn object_type(&self) -> (r: ObjectType)
        ensures
            r == ObjectType::Trip,
    {
        ObjectType::Trip
    }
}

impl Id for RawTrip {
    open spec fn id_view(&self) -> Seq<char> {
        self.id@
    }

    fn id(&self) -> (r: &str) {
        self.id.as_str()
    }
}

impl RawTrip {
    /// `route id: <route>, service id: <service>`.
    pub fn to_string(&self) -> (r: String)
        ensures
            r@ == trip_text(self.route_id@, self.service_id@),
    {
        trip_description(&self.route_id, &self.service_id)
    }
}

/// A trip with its stop times, ordered by their sequence numbers.
#[derive(Debug, Default)]
pub struct Trip {
    pub id: String,
    pub service_id: String,
    pub route_id: String,
    pub stop_times: Vec<StopTime>,
}

impl Type for Trip {
    fn object_type(&self) -> (r: ObjectType)
        ensures
            r == ObjectType::Trip,
    {
        ObjectType::Trip
    }
}

impl Id for Trip {
    open spec fn id_view(&self) -> Seq<char> {
        self.id@
    }

    fn id(&self) -> (r: &str) {
        self.id.as_str()
    }
}

impl Trip {
    /// `route id: <route>, service id: <service>`.
    pub fn to_string(&self) -> (r: String)
        ensures
            r@ == trip_text(self.route_id@, self.service_id@),
    {
        trip_description(&self.route_id, &self.service_id)
    }
}

/// A transit agency (`agency.txt`).
#[derive(Debug, Default)]
pub struct Agency {
    pub id: Option<String>,
    pub name: String,
    pub url: String,
    pub timezone: String,
    pub lang: Option<String>,
    pub phone: Option<String>,
    pub fare_url: Option<String>,
    pub email: Option<String>,
}

impl Type for Agency {
    fn object_type(&self) -> (r: ObjectType)
        ensures
            r == ObjectType::Agency,
    {
        ObjectType::Agency
    }
}

impl Id for Agency {
    /// An agency without an identifier has the empty one.
    open spec fn id_view(&self) -> Seq<char> {
        match self.id {
            None => Seq::<char>::empty(),
            Some(id) => id@,
        }
    }

    fn id(&self) -> (r: &str) {
        match &self.id {
            None => {
                proof {
                    reveal_strlit("");
                }
                ""
            },
            Some(id) => id.as_str(),
        }
    }
}

impl Agency {
    /// The name of the agency.
    pub fn to_string(&self) -> (r: String)
        ensures
            r@ == self.name@,
    {
        self.name.clone()
    }
}

/// A point of a vehicle's path (`shapes.txt`). The coordinates and the distance
/// are the bit patterns of the floating-point values read from the feed.
#[derive(Debug, Default)]
pub struct Shape {
    pub id: String,
    pub latitude_bits: u64,
    pub longitude_bits: u64,
    pub sequence: usize,
    pub dist_traveled_bits: Option<u32>,
}

impl Type for Shape {
    fn object_type(&self) -> (r: ObjectType)
        ensures
            r == ObjectType::Shape,
    {
        ObjectType::Shape
    }
}

impl Id for Shape {
    open spec fn id_view(&self) -> Seq<char> {
        self.id@
    }

    fn id(&self) -> (r: &str) {
        self.id.as_str()
    }
}

/// A fare (`fare_attributes.txt`).
#[derive(Debug)]
pub struct FareAttribute {
    pub id: String,
    pub price: String,
    pub currency: String,
    pub payment_method: PaymentMethod,
    pub transfers: Transfers,
    pub agency_id: Option<String>,
    pub transfer_duration: Option<usize>,
}

impl Id for FareAttribute {
    open spec fn id_view(&self) -> Seq<char> {
        self.id@
    }

    fn id(&self) -> (r: &str) {
        self.id.as_str()
    }
}

impl Type for FareAttribute {
    fn object_type(&self) -> (r: ObjectType)
        ensures
            r == ObjectType::Fare,
    {
        ObjectType::Fare
    }
}

/// Who publishes the feed, and for which period (`feed_info.txt`).
#[derive(Debug)]
pub struct FeedInfo {
    pub name: String,
    pub url: String,
    pub lang: String,
    pub start_date: Option<Date>,
    pub end_date: Option<Date>,
    pub version: Option<String>,
}

impl FeedInfo {
    /// The name of the publisher.
    pub fn to_string(&self) -> (r: String)
        ensures
            r@ == self.name@,
    {
        self.name.clone()
    }
}

} // verus!
