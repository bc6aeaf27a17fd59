use std::sync::Arc;

use gtfs_structures::{
    create_trips, insert_stop_time, to_calendar_dates, to_map, to_shape_map, to_stop_map, Agency,
    Calendar, CalendarDate, Date, FareAttribute, FeedInfo, Gtfs, Id, IdMap, ObjectType,
    PaymentMethod, PickupDropOffType, RawGtfs, RawStopTime, RawTrip, Route, RouteType, Shape,
    Stop, StopTime, Transfers, Type,
};

fn date(y: i32, m: u32, d: u32) -> Date {
    Date::from_ymd_opt(y, m, d).unwrap()
}

fn stop(id: &str, name: &str) -> Stop {
    Stop {
        id: id.to_owned(),
        name: name.to_owned(),
        ..Stop::default()
    }
}

fn raw_trip(id: &str, service: &str, route: &str) -> RawTrip {
    RawTrip {
        id: id.to_owned(),
        service_id: service.to_owned(),
        route_id: route.to_owned(),
    }
}

fn raw_stop_time(trip: &str, stop: &str, seq: u16, arrival: u32) -> RawStopTime {
    RawStopTime {
        trip_id: trip.to_owned(),
        arrival_time: arrival,
        departure_time: arrival + 60,
        stop_id: stop.to_owned(),
        stop_sequence: seq,
        pickup_type: Some(PickupDropOffType::Regular),
        drop_off_type: None,
    }
}

fn exception(service: &str, d: Date, t: u8) -> CalendarDate {
    CalendarDate {
        service_id: service.to_owned(),
        date: d,
        exception_type: t,
    }
}

fn weekend_calendar() -> Calendar {
    Calendar {
        id: "service1".to_owned(),
        monday: false,
        tuesday: false,
        wednesday: false,
        thursday: false,
        friday: false,
        saturday: true,
        sunday: true,
        start_date: date(2017, 1, 1),
        end_date: date(2017, 1, 15),
    }
}

fn small_feed() -> RawGtfs {
    RawGtfs {
        read_duration: 12,
        calendar: vec![weekend_calendar()],
        calendar_dates: vec![
            exception("service1", date(2017, 1, 1), 2),
            exception("service1", date(2017, 1, 3), 2),
            exception("service2", date(2017, 1, 1), 1),
        ],
        stops: vec![stop("stop1", "Sorano"), stop("stop2", "Gare"), stop("stop3", "Port")],
        routes: vec![
            Route {
                id: "1".to_owned(),
                route_type: RouteType::from_code(3),
                ..Route::default()
            },
            Route {
                id: "invalid_type".to_owned(),
                route_type: RouteType::from_code(42),
                ..Route::default()
            },
        ],
        trips: vec![raw_trip("trip1", "service1", "1")],
        agencies: vec![Agency {
            name: "BIBUS".to_owned(),
            url: "http://www.bibus.fr".to_owned(),
            timezone: "Europe/Paris".to_owned(),
            ..Agency::default()
        }],
        shapes: vec![
            Shape { id: "A_shp".to_owned(), sequence: 1, ..Shape::default() },
            Shape { id: "B_shp".to_owned(), sequence: 1, ..Shape::default() },
            Shape { id: "A_shp".to_owned(), sequence: 2, ..Shape::default() },
        ],
        fare_attributes: vec![FareAttribute {
            id: "50".to_owned(),
            price: "1.50".to_owned(),
            currency: "EUR".to_owned(),
            payment_method: PaymentMethod::Aboard,
            transfers: Transfers::from_code(None),
            agency_id: Some("1".to_owned()),
            transfer_duration: Some(3600),
        }],
        feed_info: vec![FeedInfo {
            name: "SNCF".to_owned(),
            url: "http://www.sncf.com".to_owned(),
            lang: "fr".to_owned(),
            start_date: Some(date(2018, 7, 9)),
            end_date: Some(date(2018, 9, 27)),
            version: Some("0.3".to_owned()),
        }],
        stop_times: vec![
            raw_stop_time("trip1", "stop2", 2, 100),
            raw_stop_time("trip1", "stop1", 1, 50),
        ],
    }
}

#[test]
fn display() {
    assert_eq!(
        "Sorano".to_owned(),
        Stop {
            name: "Sorano".to_owned(),
            ..Stop::default()
        }
        .to_string()
    );

    assert_eq!(
        "Long route name".to_owned(),
        Route {
            long_name: "Long route name".to_owned(),
            ..Route::default()
        }
        .to_string()
    );

    assert_eq!(
        "Short route name".to_owned(),
        Route {
            short_name: "Short route name".to_owned(),
            ..Route::default()
        }
        .to_string()
    );
}

#[test]
fn display_of_other_objects() {
    assert_eq!("2017-01-01—2017-01-15", weekend_calendar().to_string());
    assert_eq!("route id: 1, service id: s", raw_trip("t", "s", "1").to_string());
    let trip = gtfs_structures::Trip {
        id: "t".to_owned(),
        service_id: "s".to_owned(),
        route_id: "r".to_owned(),
        stop_times: vec![],
    };
    assert_eq!("route id: r, service id: s", trip.to_string());
    assert_eq!("BIBUS", small_feed().agencies[0].to_string());
    assert_eq!("SNCF", small_feed().feed_info[0].to_string());
    assert_eq!(
        "The id Utopia is not known",
        gtfs_structures::ReferenceError { id: "Utopia".to_owned() }.to_string()
    );
}

#[test]
fn ids_and_types() {
    assert_eq!("", Agency::default().id());
    let agency = Agency { id: Some("a1".to_owned()), ..Agency::default() };
    assert_eq!("a1", agency.id());
    assert_eq!(ObjectType::Agency, agency.object_type());
    assert_eq!(ObjectType::Stop, stop("s", "n").object_type());
    assert_eq!("s", stop("s", "n").id());
    assert_eq!(ObjectType::Calendar, weekend_calendar().object_type());
    assert_eq!("service1", weekend_calendar().id());
    assert_eq!(ObjectType::Trip, raw_trip("t", "s", "r").object_type());
    assert_eq!(ObjectType::Shape, Shape::default().object_type());
    assert_eq!(ObjectType::Route, Route::default().object_type());
}

#[test]
fn valid_weekday_follows_the_calendar() {
    let c = weekend_calendar();
    assert!(c.valid_weekday(date(2017, 1, 7)));
    assert!(c.valid_weekday(date(2017, 1, 8)));
    assert!(!c.valid_weekday(date(2017, 1, 9)));
    assert!(!c.valid_weekday(date(2017, 1, 13)));
}

#[test]
fn id_map_keeps_one_value_per_id() {
    let mut m: IdMap<u32> = IdMap::new();
    assert!(m.is_empty());
    m.insert("a".to_owned(), 1);
    m.insert("b".to_owned(), 2);
    m.insert("a".to_owned(), 3);
    assert_eq!(2, m.len());
    assert_eq!(Some(&3), m.get("a"));
    assert_eq!(Some(&2), m.get("b"));
    assert_eq!(None, m.get("c"));
    assert!(m.contains_key("b"));
    assert_eq!(Some(3), m.remove("a"));
    assert_eq!(None, m.remove("a"));
    assert_eq!(1, m.len());
    assert!(!m.contains_key("a"));
}

#[test]
fn to_map_keeps_the_last_row_of_an_id() {
    let m = to_map(vec![stop("s1", "first"), stop("s2", "other"), stop("s1", "second")]);
    assert_eq!(2, m.len());
    assert_eq!("second", m.get("s1").unwrap().name);
    let stops = to_stop_map(vec![stop("s1", "first"), stop("s1", "second")]);
    assert_eq!(1, stops.len());
    assert_eq!("second", stops.get("s1").unwrap().name);
}

#[test]
fn shapes_and_exceptions_are_grouped_in_order() {
    let shapes = to_shape_map(small_feed().shapes);
    assert_eq!(2, shapes.len());
    let a = shapes.get("A_shp").unwrap();
    assert_eq!(vec![1, 2], a.iter().map(|s| s.sequence).collect::<Vec<_>>());
    assert_eq!(1, shapes.get("B_shp").unwrap().len());
    let cd = to_calendar_dates(small_feed().calendar_dates);
    assert_eq!(2, cd.len());
    assert_eq!(2, cd.get("service1").unwrap().len());
    assert_eq!(2, cd.get("service1").unwrap()[0].exception_type);
    assert_eq!(1, cd.get("service2").unwrap()[0].exception_type);
}

#[test]
fn stop_times_are_inserted_stably_by_sequence() {
    let s = Arc::new(stop("s", "n"));
    let make = |seq: u16, arrival: u32| StopTime {
        arrival_time: arrival,
        stop: s.clone(),
        departure_time: arrival,
        pickup_type: None,
        drop_off_type: None,
        stop_sequence: seq,
    };
    let mut v = Vec::new();
    for (seq, arrival) in [(3, 1), (1, 2), (2, 3), (1, 4), (3, 5)] {
        insert_stop_time(&mut v, make(seq, arrival));
    }
    let order: Vec<(u16, u32)> = v.iter().map(|t| (t.stop_sequence, t.arrival_time)).collect();
    assert_eq!(vec![(1, 2), (1, 4), (2, 3), (3, 1), (3, 5)], order);
}

#[test]
fn create_trips_links_and_orders_stop_times() {
    let stops = to_stop_map(vec![stop("stop1", "Sorano"), stop("stop2", "Gare")]);
    let trips = create_trips(
        vec![raw_trip("trip1", "service1", "1"), raw_trip("trip2", "service1", "1")],
        vec![
            raw_stop_time("trip1", "stop2", 5, 100),
            raw_stop_time("trip2", "stop1", 1, 10),
            raw_stop_time("trip1", "stop1", 2, 50),
            raw_stop_time("trip1", "stop2", 2, 70),
        ],
        &stops,
    )
    .unwrap();
    assert_eq!(2, trips.len());
    let t1 = trips.get("trip1").unwrap();
    let order: Vec<(u16, u32, String)> = t1
        .stop_times
        .iter()
        .map(|t| (t.stop_sequence, t.arrival_time, t.stop.name.clone()))
        .collect();
    assert_eq!(
        vec![
            (2, 50, "Sorano".to_owned()),
            (2, 70, "Gare".to_owned()),
            (5, 100, "Gare".to_owned())
        ],
        order
    );
    assert_eq!(160, t1.stop_times[2].departure_time);
    assert_eq!(1, trips.get("trip2").unwrap().stop_times.len());
}

#[test]
fn create_trips_reports_the_first_unknown_reference() {
    let stops = to_stop_map(vec![stop("stop1", "Sorano")]);
    let e = create_trips(
        vec![raw_trip("trip1", "s", "r")],
        vec![raw_stop_time("trip1", "stop1", 1, 0), raw_stop_time("ghost", "nowhere", 2, 0)],
        &stops,
    )
    .unwrap_err();
    assert_eq!("ghost", e.id);
    let e = create_trips(
        vec![raw_trip("trip1", "s", "r")],
        vec![raw_stop_time("trip1", "nowhere", 1, 0), raw_stop_time("ghost", "stop1", 2, 0)],
        &stops,
    )
    .unwrap_err();
    assert_eq!("nowhere", e.id);
}

#[test]
fn try_from_builds_the_feed() {
    let gtfs = Gtfs::try_from(small_feed()).unwrap();
    assert_eq!(12, gtfs.read_duration);
    assert_eq!(1, gtfs.calendar.len());
    assert!(!gtfs.calendar.get("service1").unwrap().monday);
    assert!(gtfs.calendar.get("service1").unwrap().saturday);
    assert_eq!(2, gtfs.calendar_dates.len());
    assert_eq!(3, gtfs.stops.len());
    assert_eq!(2, gtfs.routes.len());
    assert_eq!(RouteType::Bus, gtfs.get_route("1").unwrap().route_type);
    assert_eq!(RouteType::Other(42), gtfs.get_route("invalid_type").unwrap().route_type);
    assert_eq!(1, gtfs.trips.len());
    assert_eq!(2, gtfs.shapes.len());
    assert_eq!(1, gtfs.fare_attributes.len());
    assert_eq!(1, gtfs.feed_info.len());
    assert_eq!("BIBUS", gtfs.agencies[0].name);
    let stop_times = &gtfs.get_trip("trip1").unwrap().stop_times;
    assert_eq!(2, stop_times.len());
    assert_eq!("Sorano", stop_times[0].stop.name);
    assert_eq!(PickupDropOffType::Regular, stop_times[0].pickup_type.unwrap());
    assert_eq!(None, stop_times[1].drop_off_type);

    assert!(gtfs.get_calendar("service1").is_ok());
    assert!(gtfs.get_calendar_date("service1").is_ok());
    assert!(gtfs.get_stop("stop1").is_ok());
    assert!(gtfs.get_route("1").is_ok());
    assert!(gtfs.get_trip("trip1").is_ok());
    assert!(gtfs.get_fare_attributes("50").is_ok());
    assert_eq!("1.50", gtfs.get_fare_attributes("50").unwrap().price);
    assert_eq!(Transfers::Unlimited, gtfs.get_fare_attributes("50").unwrap().transfers);
    assert_eq!(2, gtfs.get_shape("A_shp").unwrap().len());

    assert_eq!("Utopia", gtfs.get_stop("Utopia").unwrap_err().id);
    assert_eq!("Utopia", gtfs.get_trip("Utopia").unwrap_err().id);
    assert_eq!("Utopia", gtfs.get_route("Utopia").unwrap_err().id);
    assert_eq!("Utopia", gtfs.get_calendar("Utopia").unwrap_err().id);
    assert_eq!("Utopia", gtfs.get_calendar_date("Utopia").unwrap_err().id);
    assert_eq!("Utopia", gtfs.get_shape("Utopia").unwrap_err().id);
    assert_eq!("Utopia", gtfs.get_fare_attributes("Utopia").unwrap_err().id);
}

#[test]
fn try_from_refuses_unknown_references() {
    let mut raw = small_feed();
    raw.stop_times.push(raw_stop_time("trip1", "stop9", 3, 0));
    assert_eq!("stop9", Gtfs::try_from(raw).err().unwrap().id);
}

#[test]
fn trip_days() {
    let gtfs = Gtfs::try_from(small_feed()).unwrap();
    let days = gtfs.trip_days(&"service1".to_owned(), date(2017, 1, 1));
    assert_eq!(vec![6, 7, 13, 14], days);

    let days2 = gtfs.trip_days(&"service2".to_owned(), date(2017, 1, 1));
    assert_eq!(vec![0], days2);
}

#[test]
fn trip_days_edge_cases() {
    let gtfs = Gtfs::try_from(small_feed()).unwrap();
    assert_eq!(Vec::<u16>::new(), gtfs.trip_days("unknown", date(2017, 1, 1)));
    assert_eq!(vec![0, 1, 7, 8], gtfs.trip_days("service1", date(2017, 1, 7)));
    assert_eq!(Vec::<u16>::new(), gtfs.trip_days("service1", date(2017, 2, 1)));
    assert_eq!(vec![13, 14, 20, 21], gtfs.trip_days("service1", date(2016, 12, 25)));
    let mut raw = small_feed();
    raw.calendar_dates.push(exception("service1", date(2017, 1, 9), 1));
    let gtfs = Gtfs::try_from(raw).unwrap();
    assert_eq!(vec![8, 6, 7, 13, 14], gtfs.trip_days("service1", date(2017, 1, 1)));
}

#[test]
fn id_map_holds_many_ids() {
    let mut m: IdMap<usize> = IdMap::new();
    for i in 0..2000 {
        m.insert(format!("id{}", i), i);
    }
    assert_eq!(2000, m.len());
    for i in (0..2000).step_by(2) {
        assert_eq!(Some(i), m.remove(&format!("id{}", i)));
    }
    assert_eq!(1000, m.len());
    for i in 0..2000 {
        let got = m.get(&format!("id{}", i));
        if i % 2 == 0 {
            assert_eq!(None, got);
        } else {
            assert_eq!(Some(&i), got);
        }
    }
    m.insert("id1".to_owned(), 7);
    assert_eq!(Some(&7), m.get("id1"));
    assert_eq!(1000, m.len());
    assert_eq!(1000, m.entries().len());
}

#[test]
fn trip_days_shift_with_the_start_day() {
    let gtfs = Gtfs::try_from(small_feed()).unwrap();
    let mut start = date(2016, 12, 20);
    for _ in 0..40 {
        let next = start.plus_days(1);
        let shifted: Vec<u16> = gtfs
            .trip_days("service1", start)
            .into_iter()
            .filter(|x| *x >= 1)
            .map(|x| x - 1)
            .collect();
        assert_eq!(shifted, gtfs.trip_days("service1", next));
        start = next;
    }
}
