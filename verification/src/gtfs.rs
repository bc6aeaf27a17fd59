use std::sync::Arc;
use vstd::prelude::*;
use vstd::string::StringExecFns;

use crate::date::{in_date_range, weekday_of, Date};
use crate::id_map::IdMap;
use crate::objects::{
    runs_on, stop_time_of, Agency, Calendar, CalendarDate, FareAttribute, FeedInfo, Id,
    RawStopTime, RawTrip, Route, Shape, Stop, StopTime, Trip,
};
use crate::ordering::{
    has_sequence, insert_stop_time, lemma_sort_is_permutation, lemma_sort_is_sorted,
    lemma_sort_is_stable, lemma_sort_members, sort_by_sequence, sorted_by_sequence,
};

verus! {

/// An identifier that no object of the feed carries.
#[derive(Debug)]
pub struct ReferenceError {
    pub id: String,
}

impl ReferenceError {
    /// `The id <id> is not known`.
    pub fn to_string(&self) -> (r: String)
        ensures
            r@ == "The id "@ + self.id@ + " is not known"@,
    {
        let mut s = String::from_str("The id ");
        s.append(self.id.as_str());
        s.append(" is not known");
        s
    }
}

/// The objects of `s` by identifier; where several share one, the last wins.
pub open spec fn last_by_id<O: Id>(s: Seq<O>) -> Map<Seq<char>, O>
    decreases s.len(),
{
    if s.len() == 0 {
        Map::empty()
    } else {
        last_by_id(s.drop_last()).insert(s.last().id_view(), s.last())
    }
}

/// Every row of a table indexed by identifier is found again by its
/// identifier, and what is found carries that identifier.
pub proof fn lemma_row_found_by_id<O: Id>(s: Seq<O>, i: int)
    requires
        0 <= i < s.len(),
    ensures
        last_by_id(s).contains_key(s[i].id_view()),
        last_by_id(s)[s[i].id_view()].id_view() == s[i].id_view(),
{
    let k = s[i].id_view();
    lemma_last_by_id(s, k);
    let j = choose|j: int|
        0 <= j < s.len() && s[j] == last_by_id(s)[k] && #[trigger] s[j].id_view() == k
            && forall|l: int| j < l < s.len() ==> #[trigger] s[l].id_view() != k;
}

/// Indexes objects by identifier; where several share one, the last wins.
pub fn to_map<O: Id>(elements: Vec<O>) -> (r: IdMap<O>)
    ensures
        r@ == last_by_id(elements@),
{
    let ghost all = elements@;
    let mut m: IdMap<O> = IdMap::new();
    for e in it: elements.into_iter()
        invariant
            it.seq() == all,
            m@ == last_by_id(all.take(it.index() as int)),
    {
        proof {
            let i = it.index();
            assert(all.take(i + 1).drop_last() =~= all.take(i as int));
        }
        let key = e.id().to_owned();
        m.insert(key, e);
    }
    assert(all.take(all.len() as int) =~= all);
    m
}


/// Indexes stops by identifier, each behind a shared pointer; where several
/// share one, the last wins.
pub fn to_stop_map(stops: Vec<Stop>) -> (r: IdMap<Arc<Stop>>)
    ensures
        r@.dom() == last_by_id(stops@).dom(),
        forall|k: Seq<char>| #[trigger] r@.contains_key(k) ==> *r@[k] == last_by_id(stops@)[k],
{
    let ghost all = stops@;
    let mut m: IdMap<Arc<Stop>> = IdMap::new();
    for s in it: stops.into_iter()
        invariant
            it.seq() == all,
            m@.dom() == last_by_id(all.take(it.index() as int)).dom(),
            forall|k: Seq<char>| #[trigger] m@.contains_key(k) ==> *m@[k] == last_by_id(all.take(it.index() as int))[k],
    {
        proof {
            let i = it.index();
            assert(all.take(i + 1).drop_last() =~= all.take(i as int));
        }
        let key = s.id.clone();
        m.insert(key, Arc::new(s));
        proof {
            let i = it.index();
            assert(m@.dom() =~= last_by_id(all.take(i + 1)).dom());
        }
    }
    assert(all.take(all.len() as int) =~= all);
    m
}

/// Objects that are gathered into groups by a key.
pub trait GroupKey {
    spec fn group_key(&self) -> Seq<char>;

    fn key_string(&self) -> (r: String)
        ensures
            r@ == self.group_key(),
    ;
}

impl GroupKey for Shape {
    /// Points of a shape are grouped by the shape's identifier.
    open spec fn group_key(&self) -> Seq<char> {
        self.id@
    }

    fn key_string(&self) -> (r: String) {
        self.id.clone()
    }
}

impl GroupKey for CalendarDate {
    /// Calendar exceptions are grouped by service.
    open spec fn group_key(&self) -> Seq<char> {
        self.service_id@
    }

    fn key_string(&self) -> (r: String) {
        self.service_id.clone()
    }
}

/// Holds of the objects whose key is `k`.
pub open spec fn has_key<T: GroupKey>(k: Seq<char>) -> spec_fn(T) -> bool {
    |t: T| t.group_key() == k
}

/// The keys of the objects of `s`.
pub open spec fn keys_of<T: GroupKey>(s: Seq<T>) -> Set<Seq<char>> {
    Set::new(|k: Seq<char>| exists|i: int| 0 <= i < s.len() && #[trigger] s[i].group_key() == k)
}

proof fn lemma_filter_none<T>(s: Seq<T>, p: spec_fn(T) -> bool)
    requires
        forall|w: int| 0 <= w < s.len() ==> !p(#[trigger] s[w]),
    ensures
        s.filter(p) == Seq::<T>::empty(),
    decreases s.len(),
{
    reveal(Seq::filter);
    if s.len() > 0 {
        assert forall|w: int| 0 <= w < s.drop_last().len() implies !p(#[trigger] s.drop_last()[w]) by {
            assert(s.drop_last()[w] == s[w]);
        }
        lemma_filter_none(s.drop_last(), p);
        assert(!p(s[s.len() - 1]));
    }
}

/// Every row of a table gathered by key lies in the group of its key.
pub proof fn lemma_row_in_its_group<T: GroupKey>(s: Seq<T>, i: int)
    requires
        0 <= i < s.len(),
    ensures
        keys_of(s).contains(s[i].group_key()),
        s.filter(has_key::<T>(s[i].group_key())).contains(s[i]),
{
    broadcast use vstd::seq_lib::group_filter_ensures;

    assert(has_key::<T>(s[i].group_key())(s[i]));
    s.lemma_filter_contains(has_key::<T>(s[i].group_key()), i);
}

/// Gathers objects by key, each group in the order of `items`.
fn group_by<T: GroupKey>(items: Vec<T>) -> (r: IdMap<Vec<T>>)
    ensures
        r@.dom() == keys_of(items@),
        forall|k: Seq<char>| #[trigger] r@.contains_key(k) ==> r@[k]@ == items@.filter(has_key::<T>(k)),
{
    broadcast use vstd::seq_lib::group_filter_ensures;

    let ghost all = items@;
    let mut m: IdMap<Vec<T>> = IdMap::new();
    proof {
        assert(m@.dom() =~= keys_of(all.take(0)));
    }
    for x in it: items.into_iter()
        invariant
            it.seq() == all,
            m@.dom() == keys_of(all.take(it.index() as int)),
            forall|k: Seq<char>| #[trigger] m@.contains_key(k) ==> m@[k]@ == all.take(it.index() as int).filter(has_key::<T>(k)),
    {
        let ghost i = it.index() as int;
        let ghost before = m@;
        proof {
            assert(all.take(i + 1) =~= all.take(i).push(x));
        }
        let key = x.key_string();
        let ghost k = key@;
        let group = match m.remove(key.as_str()) {
            Some(mut g) => {
                g.push(x);
                g
            },
            None => {
                let mut g: Vec<T> = Vec::new();
                g.push(x);
                g
            },
        };
        m.insert(key, group);
        proof {
            let next = all.take(i + 1);
            assert forall|j: Seq<char>| #[trigger] m@.dom().contains(j) == keys_of(next).contains(j) by {
                if j == k {
                    assert(next[i] == x);
                } else if keys_of(next).contains(j) {
                    let w = choose|w: int| 0 <= w < next.len() && #[trigger] next[w].group_key() == j;
                    assert(all.take(i)[w] == next[w]);
                } else if before.contains_key(j) {
                    let w = choose|w: int| 0 <= w < all.take(i).len() && #[trigger] all.take(i)[w].group_key() == j;
                    assert(next[w] == all.take(i)[w]);
                }
            }
            assert(m@.dom() =~= keys_of(next));
            assert forall|j: Seq<char>| #[trigger] m@.contains_key(j) implies m@[j]@ == next.filter(has_key::<T>(j)) by {
                all.take(i).lemma_filter_push(x, has_key::<T>(j));
                if j == k && !before.contains_key(k) {
                    assert forall|w: int| 0 <= w < all.take(i).len() implies !(#[trigger] has_key::<T>(k)(all.take(i)[w])) by {
                        if has_key::<T>(k)(all.take(i)[w]) {
                            assert(keys_of(all.take(i)).contains(k));
                        }
                    }
                    lemma_filter_none(all.take(i), has_key::<T>(k));
                    assert(all.take(i).filter(has_key::<T>(k)).push(x) =~= seq![x]);
                }
            }
        }
    }
    assert(all.take(all.len() as int) =~= all);
    m
}

/// Gathers the points of each shape, in the order of `shapes`.
pub fn to_shape_map(shapes: Vec<Shape>) -> (r: IdMap<Vec<Shape>>)
    ensures
        r@.dom() == keys_of(shapes@),
        forall|k: Seq<char>| #[trigger] r@.contains_key(k) ==> r@[k]@ == shapes@.filter(has_key::<Shape>(k)),
{
    group_by(shapes)
}

/// Gathers the calendar exceptions of each service, in the order of `cd`.
pub fn to_calendar_dates(cd: Vec<CalendarDate>) -> (r: IdMap<Vec<CalendarDate>>)
    ensures
        r@.dom() == keys_of(cd@),
        forall|k: Seq<char>| #[trigger] r@.contains_key(k) ==> r@[k]@ == cd@.filter(has_key::<CalendarDate>(k)),
{
    group_by(cd)
}


/// Calls `Arc::clone`: the contract claims that the new pointer shares the
/// value of the old one.
#[verifier::external_body]
fn share<T>(a: &Arc<T>) -> (r: Arc<T>)
    ensures
        r == *a,
{
    Arc::clone(a)
}

/// The identifier of the first row of `sts` that names a trip missing from
/// `trips`, or else a stop missing from `stops`; the trip is checked first.
pub open spec fn first_unknown_reference(
    sts: Seq<RawStopTime>,
    trips: Set<Seq<char>>,
    stops: Set<Seq<char>>,
) -> Option<Seq<char>>
    decreases sts.len(),
{
    if sts.len() == 0 {
        None
    } else {
        match first_unknown_reference(sts.drop_last(), trips, stops) {
            Some(id) => Some(id),
            None => if !trips.contains(sts.last().trip_id@) {
                Some(sts.last().trip_id@)
            } else if !stops.contains(sts.last().stop_id@) {
                Some(sts.last().stop_id@)
            } else {
                None
            },
        }
    }
}

/// The stop times of trip `k` in the order of the rows of `sts`, each at the
/// stop that its row names.
pub open spec fn stop_times_of_trip(
    sts: Seq<RawStopTime>,
    k: Seq<char>,
    stops: Map<Seq<char>, Arc<Stop>>,
) -> Seq<StopTime>
    decreases sts.len(),
{
    if sts.len() == 0 {
        Seq::empty()
    } else {
        let rest = stop_times_of_trip(sts.drop_last(), k, stops);
        if sts.last().trip_id@ == k {
            rest.push(stop_time_of(sts.last(), stops[sts.last().stop_id@]))
        } else {
            rest
        }
    }
}

/// `trips` holds one trip per identifier of `raw_trips` (the last row wins),
/// each with the stop times of `sts` that name it, ordered by sequence number.
pub open spec fn trips_built_from(
    trips: Map<Seq<char>, Trip>,
    raw_trips: Seq<RawTrip>,
    sts: Seq<RawStopTime>,
    stops: Map<Seq<char>, Arc<Stop>>,
) -> bool {
    &&& trips.dom() == last_by_id(raw_trips).dom()
    &&& forall|k: Seq<char>| #[trigger]
        trips.contains_key(k) ==> {
            let t = trips[k];
            let rt = last_by_id(raw_trips)[k];
            &&& t.id == rt.id
            &&& t.service_id == rt.service_id
            &&& t.route_id == rt.route_id
            &&& t.stop_times@ == sort_by_sequence(stop_times_of_trip(sts, k, stops))
        }
}

/// Indexing a table by identifier keeps every identifier of the table, maps
/// each to an object of the table that carries it, and that object is the last
/// row with that identifier.
pub proof fn lemma_last_by_id<O: Id>(s: Seq<O>, k: Seq<char>)
    ensures
        last_by_id(s).contains_key(k) <==> exists|i: int| 0 <= i < s.len() && #[trigger] s[i].id_view() == k,
        last_by_id(s).contains_key(k) ==> exists|i: int|
            0 <= i < s.len() && s[i] == last_by_id(s)[k] && #[trigger] s[i].id_view() == k
                && forall|j: int| i < j < s.len() ==> #[trigger] s[j].id_view() != k,
    decreases s.len(),
{
    if s.len() > 0 {
        let d = s.drop_last();
        lemma_last_by_id(d, k);
        let n = s.len() - 1;
        if s.last().id_view() == k {
            assert(s[n].id_view() == k);
        } else {
            if exists|i: int| 0 <= i < s.len() && #[trigger] s[i].id_view() == k {
                let i = choose|i: int| 0 <= i < s.len() && #[trigger] s[i].id_view() == k;
                assert(d[i] == s[i]);
            }
            if last_by_id(s).contains_key(k) {
                let i = choose|i: int|
                    0 <= i < d.len() && d[i] == last_by_id(d)[k] && #[trigger] d[i].id_view() == k
                        && forall|j: int| i < j < d.len() ==> #[trigger] d[j].id_view() != k;
                assert(s[i] == d[i]);
                assert forall|j: int| i < j < s.len() implies #[trigger] s[j].id_view() != k by {
                    if j < n {
                        assert(s[j] == d[j]);
                    }
                }
            }
        }
    }
}

proof fn lemma_first_unknown_extends(sts: Seq<RawStopTime>, n: int, trips: Set<Seq<char>>, stops: Set<Seq<char>>)
    requires
        0 <= n <= sts.len(),
        first_unknown_reference(sts.take(n), trips, stops) is Some,
    ensures
        first_unknown_reference(sts, trips, stops) == first_unknown_reference(sts.take(n), trips, stops),
    decreases sts.len() - n,
{
    if n < sts.len() {
        assert(sts.take(n + 1).drop_last() =~= sts.take(n));
        lemma_first_unknown_extends(sts, n + 1, trips, stops);
    } else {
        assert(sts.take(n) =~= sts);
    }
}

/// Builds the trips of the feed and puts in each the stop times that name it,
/// ordered by sequence number; fails on the first stop time that names an
/// unknown trip or stop.
pub fn create_trips(
    raw_trips: Vec<RawTrip>,
    raw_stop_times: Vec<RawStopTime>,
    stops: &IdMap<Arc<Stop>>,
) -> (r: Result<IdMap<Trip>, ReferenceError>)
    ensures
        match r {
            Ok(trips) => first_unknown_reference(raw_stop_times@, last_by_id(raw_trips@).dom(), stops@.dom()) == None::<Seq<char>>
                && trips_built_from(trips@, raw_trips@, raw_stop_times@, stops@),
            Err(e) => first_unknown_reference(raw_stop_times@, last_by_id(raw_trips@).dom(), stops@.dom()) == Some(e.id@),
        },
{
    let ghost all_trips = raw_trips@;
    let ghost all_sts = raw_stop_times@;
    let mut trips: IdMap<Trip> = IdMap::new();
    for rt in it: raw_trips.into_iter()
        invariant
            it.seq() == all_trips,
            trips_built_from(trips@, all_trips.take(it.index() as int), Seq::<RawStopTime>::empty(), stops@),
    {
        let ghost i = it.index() as int;
        let ghost before = trips@;
        proof {
            assert(all_trips.take(i + 1).drop_last() =~= all_trips.take(i));
        }
        let key = rt.id.clone();
        let t = Trip { id: rt.id, service_id: rt.service_id, route_id: rt.route_id, stop_times: Vec::new() };
        trips.insert(key, t);
        proof {
            let next = all_trips.take(i + 1);
            assert(trips@.dom() =~= last_by_id(next).dom());
            assert(t.stop_times@ =~= sort_by_sequence(stop_times_of_trip(Seq::<RawStopTime>::empty(), key@, stops@)));
        }
    }
    assert(all_trips.take(all_trips.len() as int) =~= all_trips);
    let ghost trip_ids = last_by_id(all_trips).dom();
    let ghost stop_ids = stops@.dom();
    proof {
        assert(all_sts.take(0) =~= Seq::<RawStopTime>::empty());
    }
    for s in it: raw_stop_times.into_iter()
        invariant
            it.seq() == all_sts,
            all_sts == raw_stop_times@,
            all_trips == raw_trips@,
            trip_ids == last_by_id(all_trips).dom(),
            stop_ids == stops@.dom(),
            first_unknown_reference(all_sts.take(it.index() as int), trip_ids, stop_ids) == None::<Seq<char>>,
            trips_built_from(trips@, all_trips, all_sts.take(it.index() as int), stops@),
    {
        let ghost i = it.index() as int;
        let ghost before = trips@;
        proof {
            assert(all_sts.take(i + 1).drop_last() =~= all_sts.take(i));
            assert(all_sts.take(i + 1).last() == s);
        }
        let key = s.trip_id.clone();
        let mut trip = match trips.remove(key.as_str()) {
            Some(t) => t,
            None => {
                proof {
                    lemma_first_unknown_extends(all_sts, i + 1, trip_ids, stop_ids);
                }
                return Err(ReferenceError { id: key });
            },
        };
        let stop = match stops.get(s.stop_id.as_str()) {
            Some(st) => st,
            None => {
                proof {
                    lemma_first_unknown_extends(all_sts, i + 1, trip_ids, stop_ids);
                }
                return Err(ReferenceError { id: s.stop_id.clone() });
            },
        };
        let st = StopTime::from(&s, share(stop));
        let ghost old_times = trip.stop_times@;
        insert_stop_time(&mut trip.stop_times, st);
        trips.insert(key, trip);
        proof {
            let next = all_sts.take(i + 1);
            let raw_k = stop_times_of_trip(all_sts.take(i), key@, stops@);
            assert(old_times == sort_by_sequence(raw_k));
            assert(sort_by_sequence(raw_k.push(st)) == trip.stop_times@) by {
                assert(raw_k.push(st).drop_last() =~= raw_k);
            }
            assert(trips@.dom() =~= before.dom());
            assert forall|k: Seq<char>| #[trigger] trips@.contains_key(k) implies {
                let t = trips@[k];
                let rt = last_by_id(all_trips)[k];
                &&& t.id == rt.id
                &&& t.service_id == rt.service_id
                &&& t.route_id == rt.route_id
                &&& t.stop_times@ == sort_by_sequence(stop_times_of_trip(next, k, stops@))
            } by {
                if k == key@ {
                    assert(stop_times_of_trip(next, k, stops@) == stop_times_of_trip(all_sts.take(i), k, stops@).push(st));
                } else {
                    assert(stop_times_of_trip(next, k, stops@) == stop_times_of_trip(all_sts.take(i), k, stops@));
                }
            }
        }
    }
    assert(all_sts.take(all_sts.len() as int) =~= all_sts);
    Ok(trips)
}


/// The tables of a feed as read, one row per object.
#[derive(Default)]
pub struct RawGtfs {
    pub read_duration: i64,
    pub calendar: Vec<Calendar>,
    pub calendar_dates: Vec<CalendarDate>,
    pub stops: Vec<Stop>,
    pub routes: Vec<Route>,
    pub trips: Vec<RawTrip>,
    pub agencies: Vec<Agency>,
    pub shapes: Vec<Shape>,
    pub fare_attributes: Vec<FareAttribute>,
    pub feed_info: Vec<FeedInfo>,
    pub stop_times: Vec<RawStopTime>,
}

/// A feed with its objects indexed by identifier and its trips linked to
/// their stops.
#[derive(Default)]
pub struct Gtfs {
    pub read_duration: i64,
    pub calendar: IdMap<Calendar>,
    pub calendar_dates: IdMap<Vec<CalendarDate>>,
    pub stops: IdMap<Arc<Stop>>,
    pub routes: IdMap<Route>,
    pub trips: IdMap<Trip>,
    pub agencies: Vec<Agency>,
    pub shapes: IdMap<Vec<Shape>>,
    pub fare_attributes: IdMap<FareAttribute>,
    pub feed_info: Vec<FeedInfo>,
}

/// `g` is the feed that `raw` becomes: each table indexed by identifier (the
/// last row wins), shapes and calendar exceptions gathered by identifier in
/// the order of their rows, and the trips built from the rows of `stop_times`.
pub open spec fn built_from(g: Gtfs, raw: RawGtfs) -> bool {
    &&& g.read_duration == raw.read_duration
    &&& g.calendar@ == last_by_id(raw.calendar@)
    &&& g.calendar_dates@.dom() == keys_of(raw.calendar_dates@)
    &&& forall|k: Seq<char>| #[trigger] g.calendar_dates@.contains_key(k)
        ==> g.calendar_dates@[k]@ == raw.calendar_dates@.filter(has_key::<CalendarDate>(k))
    &&& g.stops@.dom() == last_by_id(raw.stops@).dom()
    &&& forall|k: Seq<char>| #[trigger] g.stops@.contains_key(k) ==> *g.stops@[k] == last_by_id(raw.stops@)[k]
    &&& g.routes@ == last_by_id(raw.routes@)
    &&& trips_built_from(g.trips@, raw.trips@, raw.stop_times@, g.stops@)
    &&& g.agencies@ == raw.agencies@
    &&& g.shapes@.dom() == keys_of(raw.shapes@)
    &&& forall|k: Seq<char>| #[trigger] g.shapes@.contains_key(k)
        ==> g.shapes@[k]@ == raw.shapes@.filter(has_key::<Shape>(k))
    &&& g.fare_attributes@ == last_by_id(raw.fare_attributes@)
    &&& g.feed_info@ == raw.feed_info@
}

/// In a feed built from its tables, the stop times of every trip are ordered
/// by sequence number and are exactly the stop times whose rows name the trip.
pub proof fn lemma_trip_stop_times_ordered(g: Gtfs, raw: RawGtfs, k: Seq<char>)
    requires
        built_from(g, raw),
        g.trips@.contains_key(k),
    ensures
        sorted_by_sequence(g.trips@[k].stop_times@),
        g.trips@[k].stop_times@.to_multiset() == stop_times_of_trip(raw.stop_times@, k, g.stops@).to_multiset(),
{
    lemma_sort_is_sorted(stop_times_of_trip(raw.stop_times@, k, g.stops@));
    lemma_sort_is_permutation(stop_times_of_trip(raw.stop_times@, k, g.stops@));
}

proof fn lemma_known_references(sts: Seq<RawStopTime>, trips: Set<Seq<char>>, stops: Set<Seq<char>>)
    requires
        first_unknown_reference(sts, trips, stops) == None::<Seq<char>>,
    ensures
        forall|i: int|
            0 <= i < sts.len() ==> trips.contains(#[trigger] sts[i].trip_id@) && stops.contains(
                sts[i].stop_id@,
            ),
    decreases sts.len(),
{
    if sts.len() > 0 {
        let d = sts.drop_last();
        lemma_known_references(d, trips, stops);
        assert forall|i: int| 0 <= i < sts.len() implies trips.contains(#[trigger] sts[i].trip_id@)
            && stops.contains(sts[i].stop_id@) by {
            if i < d.len() {
                assert(d[i] == sts[i]);
                assert(trips.contains(d[i].trip_id@));
            }
        }
    }
}

proof fn lemma_row_of_stop_time(sts: Seq<RawStopTime>, k: Seq<char>, stops: Map<Seq<char>, Arc<Stop>>, j: int) -> (i: int)
    requires
        0 <= j < stop_times_of_trip(sts, k, stops).len(),
    ensures
        0 <= i < sts.len(),
        sts[i].trip_id@ == k,
        stop_times_of_trip(sts, k, stops)[j] == stop_time_of(sts[i], stops[sts[i].stop_id@]),
    decreases sts.len(),
{
    let d = sts.drop_last();
    let rest = stop_times_of_trip(d, k, stops);
    if j < rest.len() {
        let i = lemma_row_of_stop_time(d, k, stops, j);
        assert(sts[i] == d[i]);
        i
    } else {
        sts.len() - 1
    }
}

/// Whether a stop time row names trip `k`.
pub open spec fn names_trip(k: Seq<char>) -> spec_fn(RawStopTime) -> bool {
    |r: RawStopTime| r.trip_id@ == k
}

/// The stop time of a row, at the stop of `stops` that the row names.
pub open spec fn stop_time_at(stops: Map<Seq<char>, Arc<Stop>>) -> spec_fn(RawStopTime) -> StopTime {
    |r: RawStopTime| stop_time_of(r, stops[r.stop_id@])
}

proof fn lemma_rows_of_trip(sts: Seq<RawStopTime>, k: Seq<char>, stops: Map<Seq<char>, Arc<Stop>>)
    ensures
        stop_times_of_trip(sts, k, stops) == sts.filter(names_trip(k)).map_values(stop_time_at(stops)),
        stop_times_of_trip(sts, k, stops).len() == sts.filter(names_trip(k)).len(),
        forall|i: int|
            0 <= i < sts.len() && #[trigger] sts[i].trip_id@ == k ==> stop_times_of_trip(sts, k, stops).contains(
                stop_time_of(sts[i], stops[sts[i].stop_id@]),
            ),
    decreases sts.len(),
{
    if sts.len() > 0 {
        let d = sts.drop_last();
        let e = sts.last();
        lemma_rows_of_trip(d, k, stops);
        assert(sts =~= d.push(e));
        d.lemma_filter_len_push(names_trip(k), e);
        d.lemma_filter_push(e, names_trip(k));
        let f = d.filter(names_trip(k));
        assert(f.push(e).map_values(stop_time_at(stops)) =~= f.map_values(stop_time_at(stops)).push(
            stop_time_of(e, stops[e.stop_id@]),
        ));
        let rest = stop_times_of_trip(d, k, stops);
        let out = stop_times_of_trip(sts, k, stops);
        let st = stop_time_of(e, stops[e.stop_id@]);
        assert(out == if e.trip_id@ == k { rest.push(st) } else { rest });
        assert forall|i: int|
            0 <= i < sts.len() && #[trigger] sts[i].trip_id@ == k implies out.contains(
                stop_time_of(sts[i], stops[sts[i].stop_id@]),
            ) by {
            if i < d.len() {
                assert(d[i] == sts[i]);
                assert(d[i].trip_id@ == k);
                assert(rest.contains(stop_time_of(d[i], stops[d[i].stop_id@])));
                let x = choose|x: int| 0 <= x < rest.len() && rest[x] == stop_time_of(d[i], stops[d[i].stop_id@]);
                assert(out[x] == rest[x]);
            } else {
                assert(sts[i] == e);
                assert(out[out.len() - 1] == st);
            }
        }
    }
}

/// In trips built from the rows of `stop_times` (as `create_trips` builds
/// them, and so in every feed that `Gtfs::try_from` builds), each trip has one
/// stop time per row that names it: as many stop times as such rows, the stop
/// time of every such row (at the stop that the row names), and no stop time
/// that does not come from such a row.
pub proof fn lemma_trip_holds_its_rows(
    trips: Map<Seq<char>, Trip>,
    raw_trips: Seq<RawTrip>,
    sts: Seq<RawStopTime>,
    stops: Map<Seq<char>, Arc<Stop>>,
    k: Seq<char>,
)
    requires
        trips_built_from(trips, raw_trips, sts, stops),
        trips.contains_key(k),
    ensures
        trips[k].stop_times@.len() == sts.filter(names_trip(k)).len(),
        forall|i: int|
            0 <= i < sts.len() && #[trigger] sts[i].trip_id@ == k ==> trips[k].stop_times@.contains(
                stop_time_of(sts[i], stops[sts[i].stop_id@]),
            ),
        forall|j: int|
            #![trigger trips[k].stop_times@[j]]
            0 <= j < trips[k].stop_times@.len() ==> exists|i: int|
                0 <= i < sts.len() && #[trigger] sts[i].trip_id@ == k
                    && trips[k].stop_times@[j] == stop_time_of(sts[i], stops[sts[i].stop_id@]),
        sorted_by_sequence(trips[k].stop_times@),
        forall|q: u16|
            #[trigger] trips[k].stop_times@.filter(has_sequence(q)) == sts.filter(names_trip(k)).map_values(
                stop_time_at(stops),
            ).filter(has_sequence(q)),
{
    broadcast use vstd::seq_lib::group_to_multiset_ensures;

    let l = stop_times_of_trip(sts, k, stops);
    let t = trips[k].stop_times@;
    assert(t == sort_by_sequence(l));
    lemma_sort_is_permutation(l);
    lemma_sort_members(l);
    lemma_rows_of_trip(sts, k, stops);
    lemma_sort_is_sorted(l);
    assert forall|q: u16| #[trigger] t.filter(has_sequence(q)) == l.filter(has_sequence(q)) by {
        lemma_sort_is_stable(l, q);
    }
    assert forall|i: int|
        0 <= i < sts.len() && #[trigger] sts[i].trip_id@ == k implies t.contains(
            stop_time_of(sts[i], stops[sts[i].stop_id@]),
        ) by {
        let st = stop_time_of(sts[i], stops[sts[i].stop_id@]);
        assert(l.to_multiset().count(st) > 0);
        assert(t.to_multiset().count(st) > 0);
    }
    assert forall|j: int| #![trigger t[j]] 0 <= j < t.len() implies exists|i: int|
        0 <= i < sts.len() && #[trigger] sts[i].trip_id@ == k && t[j] == stop_time_of(
            sts[i],
            stops[sts[i].stop_id@],
        ) by {
        assert(l.contains(t[j]));
        let w = choose|w: int| 0 <= w < l.len() && l[w] == t[j];
        let i = lemma_row_of_stop_time(sts, k, stops, w);
    }
}

/// In a feed built from tables whose stop times name only known trips and
/// stops, every object is stored under its own identifier, every shape point
/// and calendar exception lies in the group of its own key, the stop times of
/// every trip are ordered by sequence number, and the stop of every stop time
/// is the stored stop with that stop's identifier.
pub proof fn lemma_built_feed_keys(g: Gtfs, raw: RawGtfs)
    requires
        built_from(g, raw),
        first_unknown_reference(raw.stop_times@, last_by_id(raw.trips@).dom(), last_by_id(raw.stops@).dom())
            == None::<Seq<char>>,
    ensures
        forall|k: Seq<char>| #[trigger] g.stops@.contains_key(k) ==> (*g.stops@[k]).id@ == k,
        forall|k: Seq<char>| #[trigger] g.routes@.contains_key(k) ==> g.routes@[k].id@ == k,
        forall|k: Seq<char>| #[trigger] g.trips@.contains_key(k) ==> g.trips@[k].id@ == k,
        forall|k: Seq<char>| #[trigger] g.calendar@.contains_key(k) ==> g.calendar@[k].id@ == k,
        forall|k: Seq<char>| #[trigger] g.fare_attributes@.contains_key(k) ==> g.fare_attributes@[k].id@ == k,
        forall|k: Seq<char>, j: int|
            g.shapes@.contains_key(k) && 0 <= j < g.shapes@[k]@.len() ==> #[trigger] g.shapes@[k]@[j].id@ == k,
        forall|k: Seq<char>, j: int|
            g.calendar_dates@.contains_key(k) && 0 <= j < g.calendar_dates@[k]@.len()
                ==> #[trigger] g.calendar_dates@[k]@[j].service_id@ == k,
        forall|k: Seq<char>| #[trigger] g.trips@.contains_key(k) ==> sorted_by_sequence(g.trips@[k].stop_times@),
        forall|k: Seq<char>, j: int|
            g.trips@.contains_key(k) && 0 <= j < g.trips@[k].stop_times@.len() ==> {
                let st = #[trigger] g.trips@[k].stop_times@[j];
                g.stops@.contains_key((*st.stop).id@) && g.stops@[(*st.stop).id@] == st.stop
            },
{
    broadcast use vstd::seq_lib::group_filter_ensures;

    assert forall|k: Seq<char>| #[trigger] g.stops@.contains_key(k) implies (*g.stops@[k]).id@ == k by {
        lemma_last_by_id(raw.stops@, k);
    }
    assert forall|k: Seq<char>| #[trigger] g.routes@.contains_key(k) implies g.routes@[k].id@ == k by {
        lemma_last_by_id(raw.routes@, k);
    }
    assert forall|k: Seq<char>| #[trigger] g.trips@.contains_key(k) implies g.trips@[k].id@ == k by {
        lemma_last_by_id(raw.trips@, k);
    }
    assert forall|k: Seq<char>| #[trigger] g.calendar@.contains_key(k) implies g.calendar@[k].id@ == k by {
        lemma_last_by_id(raw.calendar@, k);
    }
    assert forall|k: Seq<char>| #[trigger] g.fare_attributes@.contains_key(k) implies g.fare_attributes@[k].id@ == k by {
        lemma_last_by_id(raw.fare_attributes@, k);
    }
    assert forall|k: Seq<char>, j: int|
        g.shapes@.contains_key(k) && 0 <= j < g.shapes@[k]@.len() implies #[trigger] g.shapes@[k]@[j].id@ == k by {
        assert(has_key::<Shape>(k)(raw.shapes@.filter(has_key::<Shape>(k))[j]));
    }
    assert forall|k: Seq<char>, j: int|
        g.calendar_dates@.contains_key(k) && 0 <= j < g.calendar_dates@[k]@.len()
            implies #[trigger] g.calendar_dates@[k]@[j].service_id@ == k by {
        assert(has_key::<CalendarDate>(k)(raw.calendar_dates@.filter(has_key::<CalendarDate>(k))[j]));
    }
    assert forall|k: Seq<char>| #[trigger] g.trips@.contains_key(k) implies sorted_by_sequence(g.trips@[k].stop_times@) by {
        lemma_sort_is_sorted(stop_times_of_trip(raw.stop_times@, k, g.stops@));
    }
    lemma_known_references(raw.stop_times@, last_by_id(raw.trips@).dom(), last_by_id(raw.stops@).dom());
    assert forall|k: Seq<char>, j: int|
        g.trips@.contains_key(k) && 0 <= j < g.trips@[k].stop_times@.len() implies {
            let st = #[trigger] g.trips@[k].stop_times@[j];
            g.stops@.contains_key((*st.stop).id@) && g.stops@[(*st.stop).id@] == st.stop
        } by {
        let l = stop_times_of_trip(raw.stop_times@, k, g.stops@);
        lemma_sort_members(l);
        let st = g.trips@[k].stop_times@[j];
        assert(l.contains(sort_by_sequence(l)[j]));
        let w = choose|w: int| 0 <= w < l.len() && l[w] == st;
        let i = lemma_row_of_stop_time(raw.stop_times@, k, g.stops@, w);
        let r = raw.stop_times@[i];
        assert(last_by_id(raw.stops@).dom().contains(r.stop_id@));
        lemma_last_by_id(raw.stops@, r.stop_id@);
        assert(st.stop == g.stops@[r.stop_id@]);
    }
}

impl Gtfs {
    /// Indexes the tables of `raw` and links each trip to its stop times; fails
    /// on the first stop time that names an unknown trip or stop.
    pub fn try_from(raw: RawGtfs) -> (r: Result<Gtfs, ReferenceError>)
        ensures
            match r {
                Ok(g) => first_unknown_reference(raw.stop_times@, last_by_id(raw.trips@).dom(), last_by_id(raw.stops@).dom()) == None::<Seq<char>>
                    && built_from(g, raw),
                Err(e) => first_unknown_reference(raw.stop_times@, last_by_id(raw.trips@).dom(), last_by_id(raw.stops@).dom()) == Some(e.id@),
            },
    {
        let RawGtfs {
            read_duration,
            calendar,
            calendar_dates,
            stops,
            routes,
            trips,
            agencies,
            shapes,
            fare_attributes,
            feed_info,
            stop_times,
        } = raw;
        let stops = to_stop_map(stops);
        assert(stops@.dom() == last_by_id(raw.stops@).dom());
        let trips = match create_trips(trips, stop_times, &stops) {
            Ok(t) => t,
            Err(e) => return Err(e),
        };
        Ok(Gtfs {
            stops,
            routes: to_map(routes),
            trips,
            agencies,
            shapes: to_shape_map(shapes),
            fare_attributes: to_map(fare_attributes),
            feed_info,
            calendar: to_map(calendar),
            calendar_dates: to_calendar_dates(calendar_dates),
            read_duration,
        })
    }

    /// The stop with identifier `id`.
    pub fn get_stop(&self, id: &str) -> (r: Result<&Stop, ReferenceError>)
        ensures
            match r {
                Ok(s) => self.stops@.contains_key(id@) && *s == *self.stops@[id@],
                Err(e) => !self.stops@.contains_key(id@) && e.id@ == id@,
            },
    {
        match self.stops.get(id) {
            Some(stop) => Ok(&**stop),
            None => Err(ReferenceError { id: id.to_owned() }),
        }
    }

    /// The trip with identifier `id`.
    pub fn get_trip(&self, id: &str) -> (r: Result<&Trip, ReferenceError>)
        ensures
            match r {
                Ok(t) => self.trips@.contains_key(id@) && *t == self.trips@[id@],
                Err(e) => !self.trips@.contains_key(id@) && e.id@ == id@,
            },
    {
        match self.trips.get(id) {
            Some(trip) => Ok(trip),
            None => Err(ReferenceError { id: id.to_owned() }),
        }
    }

    /// The route with identifier `id`.
    pub fn get_route(&self, id: &str) -> (r: Result<&Route, ReferenceError>)
        ensures
            match r {
                Ok(t) => self.routes@.contains_key(id@) && *t == self.routes@[id@],
                Err(e) => !self.routes@.contains_key(id@) && e.id@ == id@,
            },
    {
        match self.routes.get(id) {
            Some(route) => Ok(route),
            None => Err(ReferenceError { id: id.to_owned() }),
        }
    }

    /// The calendar of service `id`.
    pub fn get_calendar(&self, id: &str) -> (r: Result<&Calendar, ReferenceError>)
        ensures
            match r {
                Ok(t) => self.calendar@.contains_key(id@) && *t == self.calendar@[id@],
                Err(e) => !self.calendar@.contains_key(id@) && e.id@ == id@,
            },
    {
        match self.calendar.get(id) {
            Some(calendar) => Ok(calendar),
            None => Err(ReferenceError { id: id.to_owned() }),
        }
    }

    /// The calendar exceptions of service `id`.
    pub fn get_calendar_date(&self, id: &str) -> (r: Result<&Vec<CalendarDate>, ReferenceError>)
        ensures
            match r {
                Ok(t) => self.calendar_dates@.contains_key(id@) && *t == self.calendar_dates@[id@],
                Err(e) => !self.calendar_dates@.contains_key(id@) && e.id@ == id@,
            },
    {
        match self.calendar_dates.get(id) {
            Some(calendar_dates) => Ok(calendar_dates),
            None => Err(ReferenceError { id: id.to_owned() }),
        }
    }

    /// The points of shape `id`.
    pub fn get_shape(&self, id: &str) -> (r: Result<&Vec<Shape>, ReferenceError>)
        ensures
            match r {
                Ok(t) => self.shapes@.contains_key(id@) && *t == self.shapes@[id@],
                Err(e) => !self.shapes@.contains_key(id@) && e.id@ == id@,
            },
    {
        match self.shapes.get(id) {
            Some(shape) => Ok(shape),
            None => Err(ReferenceError { id: id.to_owned() }),
        }
    }

    /// The fare with identifier `id`.
    pub fn get_fare_attributes(&self, id: &str) -> (r: Result<&FareAttribute, ReferenceError>)
        ensures
            match r {
                Ok(t) => self.fare_attributes@.contains_key(id@) && *t == self.fare_attributes@[id@],
                Err(e) => !self.fare_attributes@.contains_key(id@) && e.id@ == id@,
            },
    {
        match self.fare_attributes.get(id) {
            Some(fare) => Ok(fare),
            None => Err(ReferenceError { id: id.to_owned() }),
        }
    }
}


/// The day number of an offset: its remainder modulo 65536, as `as u16` gives.
pub open spec fn day_number(offset: int) -> u16 {
    (offset % 65536) as u16
}

/// The offsets from day `start` of the days that the exceptions of `cds` add
/// (type 1) on or after `start`, in order.
pub open spec fn added_days(cds: Seq<CalendarDate>, start: int) -> Seq<u16>
    decreases cds.len(),
{
    if cds.len() == 0 {
        Seq::empty()
    } else {
        let rest = added_days(cds.drop_last(), start);
        let c = cds.last();
        if c.date@ - start >= 0 && c.exception_type == 1 {
            rest.push(day_number(c.date@ - start))
        } else {
            rest
        }
    }
}

/// The offsets from day `start` of the days, on or after `start`, that the
/// exceptions of `cds` remove (type 2).
pub open spec fn removed_days(cds: Seq<CalendarDate>, start: int) -> Set<int> {
    Set::new(
        |o: int|
            o >= 0 && exists|i: int|
                0 <= i < cds.len() && #[trigger] cds[i].exception_type == 2 && cds[i].date@ - start == o,
    )
}

/// The offsets `k` in `0..n` of the days `start + k` on which calendar `c`
/// runs (within its period, on one of its weekdays) and that no exception
/// removes, in increasing order.
pub open spec fn calendar_days(c: Calendar, start: int, removed: Set<int>, n: int) -> Seq<u16>
    decreases n,
{
    if n <= 0 {
        Seq::empty()
    } else {
        let rest = calendar_days(c, start, removed, n - 1);
        let k = n - 1;
        let d = start + k;
        if c.start_date@ <= d && d <= c.end_date@ && runs_on(c, weekday_of(d)) && !removed.contains(k) {
            rest.push(day_number(k))
        } else {
            rest
        }
    }
}

/// The days on which service `sid` runs, as offsets from `start`: first the
/// days its exceptions add, then the days of its calendar from `start` to the
/// end of its period.
pub open spec fn trip_days_of(g: Gtfs, sid: Seq<char>, start: Date) -> Seq<u16> {
    let cds = exceptions_of(g, sid);
    let extra = added_days(cds, start@);
    if g.calendar@.contains_key(sid) {
        let c = g.calendar@[sid];
        extra + calendar_days(c, start@, removed_days(cds, start@), c.end_date@ - start@ + 1)
    } else {
        extra
    }
}

/// The exceptions of service `sid` in `g` (none where it has no entry).
pub open spec fn exceptions_of(g: Gtfs, sid: Seq<char>) -> Seq<CalendarDate> {
    if g.calendar_dates@.contains_key(sid) {
        g.calendar_dates@[sid]@
    } else {
        Seq::<CalendarDate>::empty()
    }
}

/// Day `start + k` is one on which calendar `c` runs and that no exception removes.
pub open spec fn calendar_runs(c: Calendar, start: int, removed: Set<int>, k: int) -> bool {
    &&& c.start_date@ <= start + k <= c.end_date@
    &&& runs_on(c, weekday_of(start + k))
    &&& !removed.contains(k)
}

proof fn lemma_added_days_members(cds: Seq<CalendarDate>, start: int)
    ensures
        forall|i: int|
            0 <= i < cds.len() && #[trigger] cds[i].exception_type == 1 && cds[i].date@ - start >= 0
                ==> added_days(cds, start).contains(day_number(cds[i].date@ - start)),
        forall|j: int|
            #![trigger added_days(cds, start)[j]]
            0 <= j < added_days(cds, start).len() ==> exists|i: int|
                0 <= i < cds.len() && #[trigger] cds[i].exception_type == 1 && cds[i].date@ - start >= 0
                    && day_number(cds[i].date@ - start) == added_days(cds, start)[j],
    decreases cds.len(),
{
    if cds.len() > 0 {
        let d = cds.drop_last();
        lemma_added_days_members(d, start);
        let rest = added_days(d, start);
        let out = added_days(cds, start);
        assert forall|i: int|
            0 <= i < cds.len() && #[trigger] cds[i].exception_type == 1 && cds[i].date@ - start >= 0
                implies out.contains(day_number(cds[i].date@ - start)) by {
            if i < d.len() {
                assert(d[i] == cds[i]);
                let x = choose|x: int| 0 <= x < rest.len() && rest[x] == day_number(d[i].date@ - start);
                assert(out[x] == rest[x]);
            } else {
                assert(out[out.len() - 1] == day_number(cds[i].date@ - start));
            }
        }
        assert forall|j: int| #![trigger out[j]] 0 <= j < out.len() implies exists|i: int|
                0 <= i < cds.len() && #[trigger] cds[i].exception_type == 1 && cds[i].date@ - start >= 0
                    && day_number(cds[i].date@ - start) == out[j] by {
            if j < rest.len() {
                assert(out[j] == rest[j]);
                let i = choose|i: int|
                    0 <= i < d.len() && #[trigger] d[i].exception_type == 1 && d[i].date@ - start >= 0
                        && day_number(d[i].date@ - start) == rest[j];
                assert(cds[i] == d[i]);
            } else {
                let i = cds.len() - 1;
                assert(cds[i].exception_type == 1);
            }
        }
    }
}

proof fn lemma_calendar_days_members(c: Calendar, start: int, removed: Set<int>, n: int)
    ensures
        forall|k: int| 0 <= k < n && calendar_runs(c, start, removed, k)
            ==> #[trigger] calendar_days(c, start, removed, n).contains(day_number(k)),
    decreases n,
{
    if n > 0 {
        lemma_calendar_days_members(c, start, removed, n - 1);
        let rest = calendar_days(c, start, removed, n - 1);
        let out = calendar_days(c, start, removed, n);
        assert forall|k: int| 0 <= k < n && calendar_runs(c, start, removed, k)
            implies #[trigger] out.contains(day_number(k)) by {
            if k < n - 1 {
                assert(rest.contains(day_number(k)));
                let x = choose|x: int| 0 <= x < rest.len() && rest[x] == day_number(k);
                assert(out[x] == rest[x]);
            } else {
                assert(out[out.len() - 1] == day_number(k));
            }
        }
    }
}

proof fn lemma_calendar_day_reason(c: Calendar, start: int, removed: Set<int>, n: int, j: int) -> (k: int)
    requires
        0 <= j < calendar_days(c, start, removed, n).len(),
    ensures
        0 <= k < n,
        calendar_runs(c, start, removed, k),
        day_number(k) == calendar_days(c, start, removed, n)[j],
    decreases n,
{
    let rest = calendar_days(c, start, removed, n - 1);
    if j < rest.len() {
        lemma_calendar_day_reason(c, start, removed, n - 1, j)
    } else {
        n - 1
    }
}

/// A day that an exception of the service adds (type 1), on or after the start
/// day, is among its trip days.
pub proof fn lemma_added_day_is_trip_day(g: Gtfs, sid: Seq<char>, start: Date, i: int)
    requires
        0 <= i < exceptions_of(g, sid).len(),
        exceptions_of(g, sid)[i].exception_type == 1,
        exceptions_of(g, sid)[i].date@ - start@ >= 0,
    ensures
        trip_days_of(g, sid, start).contains(day_number(exceptions_of(g, sid)[i].date@ - start@)),
{
    let cds = exceptions_of(g, sid);
    lemma_added_days_members(cds, start@);
    let extra = added_days(cds, start@);
    let x = choose|x: int| 0 <= x < extra.len() && extra[x] == day_number(cds[i].date@ - start@);
    if g.calendar@.contains_key(sid) {
        let c = g.calendar@[sid];
        let all = extra + calendar_days(c, start@, removed_days(cds, start@), c.end_date@ - start@ + 1);
        assert(all[x] == extra[x]);
    }
}

/// A day from the start day on, within the period of the service's calendar, on
/// one of its weekdays, and that no exception removes, is among its trip days.
pub proof fn lemma_calendar_day_is_trip_day(g: Gtfs, sid: Seq<char>, start: Date, k: int)
    requires
        g.calendar@.contains_key(sid),
        0 <= k,
        calendar_runs(g.calendar@[sid], start@, removed_days(exceptions_of(g, sid), start@), k),
    ensures
        trip_days_of(g, sid, start).contains(day_number(k)),
{
    let cds = exceptions_of(g, sid);
    let c = g.calendar@[sid];
    let removed = removed_days(cds, start@);
    let n = c.end_date@ - start@ + 1;
    lemma_calendar_days_members(c, start@, removed, n);
    let days = calendar_days(c, start@, removed, n);
    assert(days.contains(day_number(k)));
    let x = choose|x: int| 0 <= x < days.len() && days[x] == day_number(k);
    let extra = added_days(cds, start@);
    assert((extra + days)[extra.len() + x] == days[x]);
}

/// Every trip day of a service is a day that one of its exceptions adds, or a
/// day of its calendar's period on one of its weekdays that no exception
/// removes.
pub proof fn lemma_trip_day_has_reason(g: Gtfs, sid: Seq<char>, start: Date, j: int)
    requires
        0 <= j < trip_days_of(g, sid, start).len(),
    ensures
        (exists|i: int|
            0 <= i < exceptions_of(g, sid).len() && #[trigger] exceptions_of(g, sid)[i].exception_type == 1
                && exceptions_of(g, sid)[i].date@ - start@ >= 0
                && day_number(exceptions_of(g, sid)[i].date@ - start@) == trip_days_of(g, sid, start)[j])
        || (g.calendar@.contains_key(sid) && exists|k: int|
            0 <= k && calendar_runs(g.calendar@[sid], start@, removed_days(exceptions_of(g, sid), start@), k)
                && #[trigger] day_number(k) == trip_days_of(g, sid, start)[j]),
{
    let cds = exceptions_of(g, sid);
    let extra = added_days(cds, start@);
    lemma_added_days_members(cds, start@);
    let days = trip_days_of(g, sid, start);
    if j < extra.len() {
        if g.calendar@.contains_key(sid) {
            let c = g.calendar@[sid];
            let all = extra + calendar_days(c, start@, removed_days(cds, start@), c.end_date@ - start@ + 1);
            assert(all[j] == extra[j]);
        }
        let i = choose|i: int|
            0 <= i < cds.len() && #[trigger] cds[i].exception_type == 1 && cds[i].date@ - start@ >= 0
                && day_number(cds[i].date@ - start@) == extra[j];
    } else {
        let c = g.calendar@[sid];
        let removed = removed_days(cds, start@);
        let n = c.end_date@ - start@ + 1;
        let cal = calendar_days(c, start@, removed, n);
        assert(days[j] == cal[j - extra.len()]);
        let k = lemma_calendar_day_reason(c, start@, removed, n, j - extra.len());
        assert(day_number(k) == days[j]);
    }
}

/// A day number is among the trip days of a service exactly when an exception
/// of the service adds (type 1) a day from the start day on with that number,
/// or when, counting from the start day, some day of its calendar's period
/// falls on one of the calendar's weekdays, no exception removes (type 2) it,
/// and it has that number.
pub proof fn lemma_trip_days_members(g: Gtfs, sid: Seq<char>, start: Date, x: u16)
    ensures
        trip_days_of(g, sid, start).contains(x) <==> (
            (exists|i: int|
                0 <= i < exceptions_of(g, sid).len()
                    && #[trigger] exceptions_of(g, sid)[i].exception_type == 1
                    && exceptions_of(g, sid)[i].date@ - start@ >= 0
                    && day_number(exceptions_of(g, sid)[i].date@ - start@) == x)
            || (g.calendar@.contains_key(sid) && exists|k: int|
                0 <= k && g.calendar@[sid].start_date@ <= start@ + k <= g.calendar@[sid].end_date@
                    && runs_on(g.calendar@[sid], weekday_of(start@ + k))
                    && (forall|i: int|
                        0 <= i < exceptions_of(g, sid).len() ==> !(
                            #[trigger] exceptions_of(g, sid)[i].exception_type == 2
                                && exceptions_of(g, sid)[i].date@ - start@ == k))
                    && #[trigger] day_number(k) == x)),
{
    let cds = exceptions_of(g, sid);
    let days = trip_days_of(g, sid, start);
    let removed = removed_days(cds, start@);
    if days.contains(x) {
        let j = choose|j: int| 0 <= j < days.len() && days[j] == x;
        lemma_trip_day_has_reason(g, sid, start, j);
        if !(exists|i: int|
            0 <= i < cds.len() && #[trigger] cds[i].exception_type == 1 && cds[i].date@ - start@ >= 0
                && day_number(cds[i].date@ - start@) == x) {
            let c = g.calendar@[sid];
            let k = choose|k: int|
                0 <= k && calendar_runs(c, start@, removed, k) && #[trigger] day_number(k) == days[j];
            assert forall|i: int| 0 <= i < cds.len() implies !(#[trigger] cds[i].exception_type == 2
                && cds[i].date@ - start@ == k) by {
                if cds[i].exception_type == 2 && cds[i].date@ - start@ == k {
                    assert(removed.contains(k));
                }
            }
        }
    }
    if exists|i: int|
        0 <= i < cds.len() && #[trigger] cds[i].exception_type == 1 && cds[i].date@ - start@ >= 0
            && day_number(cds[i].date@ - start@) == x {
        let i = choose|i: int|
            0 <= i < cds.len() && #[trigger] cds[i].exception_type == 1 && cds[i].date@ - start@ >= 0
                && day_number(cds[i].date@ - start@) == x;
        lemma_added_day_is_trip_day(g, sid, start, i);
    }
    if g.calendar@.contains_key(sid) && exists|k: int|
        0 <= k && g.calendar@[sid].start_date@ <= start@ + k <= g.calendar@[sid].end_date@
            && runs_on(g.calendar@[sid], weekday_of(start@ + k))
            && (forall|i: int|
                0 <= i < cds.len() ==> !(#[trigger] cds[i].exception_type == 2 && cds[i].date@ - start@ == k))
            && #[trigger] day_number(k) == x {
        let c = g.calendar@[sid];
        let k = choose|k: int|
            0 <= k && c.start_date@ <= start@ + k <= c.end_date@ && runs_on(c, weekday_of(start@ + k))
                && (forall|i: int|
                    0 <= i < cds.len() ==> !(#[trigger] cds[i].exception_type == 2 && cds[i].date@ - start@ == k))
                && #[trigger] day_number(k) == x;
        if removed.contains(k) {
            let i = choose|i: int|
                0 <= i < cds.len() && #[trigger] cds[i].exception_type == 2 && cds[i].date@ - start@ == k;
            assert(false);
        }
        lemma_calendar_day_is_trip_day(g, sid, start, k);
    }
}

/// Whether an exception adds (type 1) a day on or after day `start`.
pub open spec fn adds_from(start: int) -> spec_fn(CalendarDate) -> bool {
    |c: CalendarDate| c.exception_type == 1 && c.date@ - start >= 0
}

proof fn lemma_added_days_rows(cds: Seq<CalendarDate>, start: int)
    ensures
        added_days(cds, start).len() == cds.filter(adds_from(start)).len(),
        forall|j: int|
            0 <= j < added_days(cds, start).len() ==> #[trigger] added_days(cds, start)[j] == day_number(
                cds.filter(adds_from(start))[j].date@ - start,
            ),
    decreases cds.len(),
{
    if cds.len() > 0 {
        let d = cds.drop_last();
        let e = cds.last();
        lemma_added_days_rows(d, start);
        assert(cds =~= d.push(e));
        d.lemma_filter_push(e, adds_from(start));
        let rest = added_days(d, start);
        let out = added_days(cds, start);
        assert forall|j: int| 0 <= j < out.len() implies #[trigger] out[j] == day_number(
            cds.filter(adds_from(start))[j].date@ - start,
        ) by {
            if j < rest.len() {
                assert(out[j] == rest[j]);
            }
        }
    }
}

proof fn lemma_calendar_days_increasing(c: Calendar, start: int, removed: Set<int>, n: int)
    requires
        n <= 65536,
    ensures
        forall|a: int, b: int|
            0 <= a < b < calendar_days(c, start, removed, n).len() ==> calendar_days(c, start, removed, n)[a]
                < calendar_days(c, start, removed, n)[b],
        forall|a: int|
            0 <= a < calendar_days(c, start, removed, n).len() ==> #[trigger] calendar_days(c, start, removed, n)[a]
                < n,
    decreases n,
{
    if n > 0 {
        lemma_calendar_days_increasing(c, start, removed, n - 1);
        let rest = calendar_days(c, start, removed, n - 1);
        let out = calendar_days(c, start, removed, n);
        assert(day_number(n - 1) == n - 1);
        assert forall|a: int| 0 <= a < out.len() implies #[trigger] out[a] < n by {
            if a < rest.len() {
                assert(out[a] == rest[a]);
            }
        }
        assert forall|a: int, b: int| 0 <= a < b < out.len() implies out[a] < out[b] by {
            assert(out[a] == rest[a]);
            if b < rest.len() {
                assert(out[b] == rest[b]);
            }
        }
    }
}

/// The trip days of a service list first the days that its exceptions add
/// (type 1) from the start day on, one per such exception and in the order of
/// the exceptions; the days of its calendar follow, in increasing order where
/// day numbers do not wrap around (the calendar ends fewer than 65536 days
/// after the start day).
pub proof fn lemma_trip_days_order(g: Gtfs, sid: Seq<char>, start: Date)
    ensures
        exceptions_of(g, sid).filter(adds_from(start@)).len() <= trip_days_of(g, sid, start).len(),
        forall|j: int|
            0 <= j < exceptions_of(g, sid).filter(adds_from(start@)).len() ==> #[trigger] trip_days_of(
                g,
                sid,
                start,
            )[j] == day_number(exceptions_of(g, sid).filter(adds_from(start@))[j].date@ - start@),
        !g.calendar@.contains_key(sid) ==> trip_days_of(g, sid, start).len() == exceptions_of(
            g,
            sid,
        ).filter(adds_from(start@)).len(),
        g.calendar@.contains_key(sid) && g.calendar@[sid].end_date@ - start@ <= 65535 ==> forall|a: int, b: int|
            exceptions_of(g, sid).filter(adds_from(start@)).len() <= a < b < trip_days_of(g, sid, start).len()
                ==> #[trigger] trip_days_of(g, sid, start)[a] < #[trigger] trip_days_of(g, sid, start)[b],
{
    let cds = exceptions_of(g, sid);
    let extra = added_days(cds, start@);
    lemma_added_days_rows(cds, start@);
    let days = trip_days_of(g, sid, start);
    if g.calendar@.contains_key(sid) {
        let c = g.calendar@[sid];
        let removed = removed_days(cds, start@);
        let n = c.end_date@ - start@ + 1;
        let cal = calendar_days(c, start@, removed, n);
        assert(days == extra + cal);
        assert forall|j: int| 0 <= j < extra.len() implies #[trigger] days[j] == extra[j] by {}
        if c.end_date@ - start@ <= 65535 {
            lemma_calendar_days_increasing(c, start@, removed, n);
            assert forall|a: int, b: int| extra.len() <= a < b < days.len() implies #[trigger] days[a]
                < #[trigger] days[b] by {
                assert(days[a] == cal[a - extra.len()]);
                assert(days[b] == cal[b - extra.len()]);
            }
        }
    }
}

/// A day that an exception of the service removes (type 2) is not among its
/// trip days, unless an exception adds a day with the same number; this holds
/// where day numbers do not wrap around: the removed day and the end of the
/// calendar lie fewer than 65536 days after the start day.
pub proof fn lemma_removed_day_is_not_trip_day(g: Gtfs, sid: Seq<char>, start: Date, i: int)
    requires
        0 <= i < exceptions_of(g, sid).len(),
        exceptions_of(g, sid)[i].exception_type == 2,
        0 <= exceptions_of(g, sid)[i].date@ - start@ <= 65535,
        g.calendar@.contains_key(sid) ==> g.calendar@[sid].end_date@ - start@ <= 65535,
        forall|j: int|
            0 <= j < exceptions_of(g, sid).len() && #[trigger] exceptions_of(g, sid)[j].exception_type == 1
                && exceptions_of(g, sid)[j].date@ - start@ >= 0 ==> day_number(
                exceptions_of(g, sid)[j].date@ - start@,
            ) != day_number(exceptions_of(g, sid)[i].date@ - start@),
    ensures
        !trip_days_of(g, sid, start).contains(day_number(exceptions_of(g, sid)[i].date@ - start@)),
{
    let cds = exceptions_of(g, sid);
    let o = cds[i].date@ - start@;
    lemma_trip_days_members(g, sid, start, day_number(o));
    if g.calendar@.contains_key(sid) && exists|k: int|
        0 <= k && g.calendar@[sid].start_date@ <= start@ + k <= g.calendar@[sid].end_date@
            && runs_on(g.calendar@[sid], weekday_of(start@ + k))
            && (forall|j: int|
                0 <= j < cds.len() ==> !(#[trigger] cds[j].exception_type == 2 && cds[j].date@ - start@ == k))
            && #[trigger] day_number(k) == day_number(o) {
        let c = g.calendar@[sid];
        let k = choose|k: int|
            0 <= k && c.start_date@ <= start@ + k <= c.end_date@ && runs_on(c, weekday_of(start@ + k))
                && (forall|j: int|
                    0 <= j < cds.len() ==> !(#[trigger] cds[j].exception_type == 2 && cds[j].date@ - start@ == k))
                && #[trigger] day_number(k) == day_number(o);
        assert(k == o);
        assert(cds[i].exception_type == 2);
    }
}

/// The trip days left once day 0 is dropped, each moved one day earlier.
pub open spec fn shift_back(days: Seq<u16>) -> Seq<u16>
    decreases days.len(),
{
    if days.len() == 0 {
        days
    } else {
        let rest = shift_back(days.drop_last());
        if days.last() >= 1 {
            rest.push((days.last() - 1) as u16)
        } else {
            rest
        }
    }
}

proof fn lemma_shift_back_add(a: Seq<u16>, b: Seq<u16>)
    ensures
        shift_back(a + b) == shift_back(a) + shift_back(b),
    decreases b.len(),
{
    if b.len() == 0 {
        assert(a + b =~= a);
        assert(shift_back(a) + shift_back(b) =~= shift_back(a));
    } else {
        lemma_shift_back_add(a, b.drop_last());
        assert((a + b).drop_last() =~= a + b.drop_last());
        assert((a + b).last() == b.last());
        if b.last() >= 1 {
            assert(shift_back(a) + shift_back(b.drop_last()).push((b.last() - 1) as u16)
                =~= (shift_back(a) + shift_back(b.drop_last())).push((b.last() - 1) as u16));
        }
    }
}

proof fn lemma_added_days_shift(cds: Seq<CalendarDate>, start: int)
    requires
        forall|i: int| 0 <= i < cds.len() ==> #[trigger] cds[i].date@ - start <= 65535,
    ensures
        added_days(cds, start + 1) == shift_back(added_days(cds, start)),
    decreases cds.len(),
{
    if cds.len() > 0 {
        let d = cds.drop_last();
        assert forall|i: int| 0 <= i < d.len() implies #[trigger] d[i].date@ - start <= 65535 by {
            assert(d[i] == cds[i]);
        }
        lemma_added_days_shift(d, start);
        let c = cds.last();
        let rest = added_days(d, start);
        assert(c == cds[cds.len() - 1]);
        let o = c.date@ - start;
        if o >= 0 && c.exception_type == 1 {
            assert(day_number(o) == o);
            assert(rest.push(day_number(o)).drop_last() =~= rest);
            if o >= 1 {
                assert(day_number(o - 1) == o - 1);
                assert((day_number(o) - 1) as u16 == day_number(o - 1));
            }
        }
    }
}

proof fn lemma_calendar_days_shift(c: Calendar, start: int, removed: Set<int>, moved: Set<int>, n: int)
    requires
        n <= 65536,
        forall|k: int| k >= 0 ==> (#[trigger] moved.contains(k) <==> removed.contains(k + 1)),
    ensures
        calendar_days(c, start + 1, moved, n - 1) == shift_back(calendar_days(c, start, removed, n)),
    decreases n,
{
    if n <= 0 {
        assert(calendar_days(c, start + 1, moved, n - 1) =~= Seq::<u16>::empty());
    } else if n == 1 {
        let empty = calendar_days(c, start, removed, 0);
        assert(empty =~= Seq::<u16>::empty());
        assert(day_number(0) == 0);
        assert(empty.push(day_number(0)).drop_last() =~= empty);
        assert(shift_back(empty) =~= Seq::<u16>::empty());
    } else {
        lemma_calendar_days_shift(c, start, removed, moved, n - 1);
        let k = n - 1;
        let rest = calendar_days(c, start, removed, n - 1);
        assert(day_number(k) == k);
        assert(day_number(k - 1) == k - 1);
        assert((day_number(k) - 1) as u16 == day_number(k - 1));
        assert(rest.push(day_number(k)).drop_last() =~= rest);
        assert(moved.contains(k - 1) <==> removed.contains(k));
        assert(start + 1 + (k - 1) == start + k);
    }
}

/// Starting a day later drops the first day and moves every other trip day
/// one day earlier, as long as every exception of the service and the end of
/// its calendar lie fewer than 65536 days after the first start day (so that no
/// day number wraps around).
pub proof fn lemma_trip_days_shift(g: Gtfs, sid: Seq<char>, start: Date, next: Date)
    requires
        next@ == start@ + 1,
        forall|i: int|
            0 <= i < exceptions_of(g, sid).len() ==> #[trigger] exceptions_of(g, sid)[i].date@
                - start@ <= 65535,
        g.calendar@.contains_key(sid) ==> g.calendar@[sid].end_date@ - start@ <= 65535,
    ensures
        trip_days_of(g, sid, next) == shift_back(trip_days_of(g, sid, start)),
{
    let cds = exceptions_of(g, sid);
    lemma_added_days_shift(cds, start@);
    let extra = added_days(cds, start@);
    if g.calendar@.contains_key(sid) {
        let c = g.calendar@[sid];
        let removed = removed_days(cds, start@);
        let moved = removed_days(cds, next@);
        assert forall|k: int| k >= 0 implies (#[trigger] moved.contains(k) <==> removed.contains(k + 1)) by {
            if moved.contains(k) {
                let i = choose|i: int| 0 <= i < cds.len() && #[trigger] cds[i].exception_type == 2 && cds[i].date@ - next@ == k;
                assert(cds[i].date@ - start@ == k + 1);
            }
            if removed.contains(k + 1) {
                let i = choose|i: int| 0 <= i < cds.len() && #[trigger] cds[i].exception_type == 2 && cds[i].date@ - start@ == k + 1;
                assert(cds[i].date@ - next@ == k);
            }
        }
        let n = c.end_date@ - start@ + 1;
        lemma_calendar_days_shift(c, start@, removed, moved, n);
        assert(c.end_date@ - next@ + 1 == n - 1);
        lemma_shift_back_add(extra, calendar_days(c, start@, removed, n));
    }
}

fn contains_offset(v: &Vec<i64>, x: i64) -> (r: bool)
    ensures
        r == v@.contains(x),
{
    let n = v.len();
    for i in 0..n
        invariant
            n == v@.len(),
            forall|j: int| 0 <= j < i ==> v@[j] != x,
    {
        if v[i] == x {
            assert(v@[i as int] == x);
            return true;
        }
    }
    false
}

impl Gtfs {
    /// The days on which service `service_id` runs, as offsets from
    /// `start_date`: first the days its exceptions add, then the days of its
    /// calendar from `start_date` to the end of its period that run on one of
    /// its weekdays and that no exception removes.
    pub fn trip_days(&self, service_id: &str, start_date: Date) -> (r: Vec<u16>)
        ensures
            r@ == trip_days_of(*self, service_id@, start_date),
    {
        let mut result: Vec<u16> = Vec::new();
        let mut removed: Vec<i64> = Vec::new();
        let start = start_date.days_from_ce() as i64;
        let ghost cds = exceptions_of(*self, service_id@);
        match self.calendar_dates.get(service_id) {
            Some(extra_days) => {
                let n = extra_days.len();
                for i in 0..n
                    invariant
                        n == cds.len(),
                        cds == extra_days@,
                        start == start_date@,
                        in_date_range(start as int),
                        result@ == added_days(cds.take(i as int), start as int),
                        forall|o: i64| #[trigger] removed@.contains(o) <==> removed_days(cds.take(i as int), start as int).contains(o as int),
                {
                    let ghost pre = cds.take(i as int);
                    proof {
                        assert(cds.take(i + 1).drop_last() =~= pre);
                    }
                    let ghost old_removed = removed@;
                    let extra_day = &extra_days[i];
                    let offset = extra_day.date.days_from_ce() as i64 - start;
                    if offset >= 0 {
                        if extra_day.exception_type == 1 {
                            result.push((offset % 65536) as u16);
                        } else if extra_day.exception_type == 2 {
                            removed.push(offset);
                        }
                    }
                    proof {
                        let next = cds.take(i + 1);
                        assert forall|o: i64| #[trigger] removed@.contains(o) <==> removed_days(next, start as int).contains(o as int) by {
                            if removed_days(next, start as int).contains(o as int) {
                                let w = choose|w: int| 0 <= w < next.len() && #[trigger] next[w].exception_type == 2 && next[w].date@ - start == o;
                                if w < i {
                                    assert(pre[w] == next[w]);
                                    assert(removed_days(pre, start as int).contains(o as int));
                                    assert(old_removed.contains(o));
                                    let x = choose|x: int| 0 <= x < old_removed.len() && old_removed[x] == o;
                                    assert(removed@[x] == o);
                                } else {
                                    assert(removed@[removed@.len() - 1] == o);
                                }
                            }
                            if removed@.contains(o) {
                                if old_removed.contains(o) {
                                    assert(removed_days(pre, start as int).contains(o as int));
                                    let w = choose|w: int| 0 <= w < pre.len() && #[trigger] pre[w].exception_type == 2 && pre[w].date@ - start == o;
                                    assert(next[w] == pre[w]);
                                } else {
                                    let x = choose|x: int| 0 <= x < removed@.len() && removed@[x] == o;
                                    assert(x == old_removed.len());
                                    assert(next[i as int].exception_type == 2 && next[i as int].date@ - start == o);
                                }
                            }
                        }
                    }
                }
                assert(cds.take(n as int) =~= cds);
            },
            None => {
                assert(result@ =~= added_days(cds, start as int));
                assert forall|o: i64| #[trigger] removed@.contains(o) <==> removed_days(cds, start as int).contains(o as int) by {}
            },
        }
        let ghost extra = result@;
        let ghost gone = removed_days(cds, start as int);
        match self.calendar.get(service_id) {
            Some(calendar) => {
                let end = calendar.end_date.days_from_ce() as i64;
                let first = calendar.start_date.days_from_ce() as i64;
                let total = end - start;
                let mut k: i64 = 0;
                while k <= total
                    invariant
                        0 <= k,
                        k <= total + 1 || total < 0,
                        total < 0 ==> k == 0,
                        total == end - start,
                        end == calendar.end_date@,
                        first == calendar.start_date@,
                        start == start_date@,
                        in_date_range(start as int),
                        in_date_range(end as int),
                        result@ == extra + calendar_days(*calendar, start as int, gone, k as int),
                        forall|o: i64| #[trigger] removed@.contains(o) <==> gone.contains(o as int),
                    decreases total + 1 - k,
                {
                    let current = start_date.plus_days(k);
                    let day = current.days_from_ce() as i64;
                    if first <= day && end >= day && calendar.valid_weekday(current) && !contains_offset(&removed, k) {
                        result.push((k % 65536) as u16);
                    }
                    proof {
                        assert(result@ =~= extra + calendar_days(*calendar, start as int, gone, k + 1));
                    }
                    k = k + 1;
                }
                proof {
                    if total < 0 {
                        assert(calendar_days(*calendar, start as int, gone, total + 1) == calendar_days(*calendar, start as int, gone, k as int));
                    }
                }
            },
            None => {
                assert(result@ =~= extra);
            },
        }
        result
    }
}

} // verus!
