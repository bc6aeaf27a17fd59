use vstd::prelude::*;

use crate::text::chars_of;

verus! {

/// The kinds of objects that a GTFS feed describes.
#[derive(Debug, PartialEq, Eq, Structural)]
pub enum ObjectType {
    Agency,
    Stop,
    Route,
    Trip,
    Calendar,
    Shape,
    Fare,
}

/// The kind of a stop (`location_type` in `stops.txt`).
#[derive(Debug, Copy, Clone, PartialEq, Eq, Structural)]
pub enum LocationType {
    StopPoint,
    StopArea,
    StationEntrance,
}

impl Default for LocationType {
    fn default() -> (r: LocationType)
        ensures
            r == LocationType::StopPoint,
    {
        LocationType::StopPoint
    }
}

/// The kind of vehicle of a route (`route_type` in `routes.txt`).
#[derive(Debug, Copy, Clone, PartialEq, Eq, Hash, Structural)]
pub enum RouteType {
    Tramway,
    Subway,
    Rail,
    Bus,
    Ferry,
    CableCar,
    Gondola,
    Funicular,
    /// Any other value than 0..7 is invalid in the GTFS; some bad files hold
    /// other values all the same, and they are kept rather than refused.
    Other(u16),
}

impl Default for RouteType {
    fn default() -> (r: RouteType)
        ensures
            r == RouteType::Bus,
    {
        RouteType::Bus
    }
}

/// Whether a stop time allows boarding or alighting.
#[derive(Debug, Copy, Clone, PartialEq, Eq, Structural)]
pub enum PickupDropOffType {
    Regular,
    NotAvailable,
    ArrangeByPhone,
    CoordinateWithDriver,
}

impl Default for PickupDropOffType {
    fn default() -> (r: PickupDropOffType)
        ensures
            r == PickupDropOffType::Regular,
    {
        PickupDropOffType::Regular
    }
}

/// Whether a facility (such as wheelchair boarding) is available.
#[derive(Debug, PartialEq, Eq, Hash, Clone, Copy, Structural)]
pub enum Availability {
    InformationNotAvailable,
    Available,
    NotAvailable,
}

impl Default for Availability {
    fn default() -> (r: Availability)
        ensures
            r == Availability::InformationNotAvailable,
    {
        Availability::InformationNotAvailable
    }
}

/// When a fare is paid.
#[derive(Debug, Copy, Clone, PartialEq, Eq, Structural)]
pub enum PaymentMethod {
    Aboard,
    PreBoarding,
}

/// How many transfers a fare allows.
#[derive(Debug, Copy, Clone, PartialEq, Eq, Structural)]
pub enum Transfers {
    Unlimited,
    NoTransfer,
    UniqueTransfer,
    TwoTransfers,
    Other(u16),
}

impl Default for Transfers {
    fn default() -> (r: Transfers)
        ensures
            r == Transfers::Unlimited,
    {
        Transfers::Unlimited
    }
}

/// The single character of a one-character text.
pub open spec fn single_char(s: Seq<char>) -> Option<char> {
    if s.len() == 1 {
        Some(s[0])
    } else {
        None
    }
}

fn single_char_of(s: &str) -> (r: Option<char>)
    ensures
        r == single_char(s@),
{
    let v = chars_of(s);
    if v.len() == 1 {
        Some(v[0])
    } else {
        None
    }
}

pub open spec fn route_type_of(code: u16) -> RouteType {
    if code == 0 {
        RouteType::Tramway
    } else if code == 1 {
        RouteType::Subway
    } else if code == 2 {
        RouteType::Rail
    } else if code == 3 {
        RouteType::Bus
    } else if code == 4 {
        RouteType::Ferry
    } else if code == 5 {
        RouteType::CableCar
    } else if code == 6 {
        RouteType::Gondola
    } else if code == 7 {
        RouteType::Funicular
    } else {
        RouteType::Other(code)
    }
}

impl RouteType {
    /// The route type that a `route_type` code stands for; codes outside 0..7
    /// are kept as `Other`.
    pub fn from_code(code: u16) -> (r: RouteType)
        ensures
            r == route_type_of(code),
            r is Other <==> code > 7,
    {
        match code {
            0 => RouteType::Tramway,
            1 => RouteType::Subway,
            2 => RouteType::Rail,
            3 => RouteType::Bus,
            4 => RouteType::Ferry,
            5 => RouteType::CableCar,
            6 => RouteType::Gondola,
            7 => RouteType::Funicular,
            _ => RouteType::Other(code),
        }
    }
}

/// The GTFS numbering of vehicle types: 0 tramway, 1 subway, 2 rail, 3 bus,
/// 4 ferry, 5 cable car, 6 gondola, 7 funicular; any other number is kept as is.
pub proof fn lemma_route_type_codes(code: u16)
    ensures
        (route_type_of(code) == RouteType::Tramway) <==> code == 0,
        (route_type_of(code) == RouteType::Subway) <==> code == 1,
        (route_type_of(code) == RouteType::Rail) <==> code == 2,
        (route_type_of(code) == RouteType::Bus) <==> code == 3,
        (route_type_of(code) == RouteType::Ferry) <==> code == 4,
        (route_type_of(code) == RouteType::CableCar) <==> code == 5,
        (route_type_of(code) == RouteType::Gondola) <==> code == 6,
        (route_type_of(code) == RouteType::Funicular) <==> code == 7,
        (route_type_of(code) == RouteType::Other(code)) <==> code > 7,
        forall|other: u16| #[trigger] route_type_of(code) == RouteType::Other(other) ==> other == code,
{
}

pub open spec fn transfers_of(code: Option<u16>) -> Transfers {
    match code {
        None => Transfers::Unlimited,
        Some(c) => if c == 0 {
            Transfers::NoTransfer
        } else if c == 1 {
            Transfers::UniqueTransfer
        } else if c == 2 {
            Transfers::TwoTransfers
        } else {
            Transfers::Other(c)
        },
    }
}

impl Transfers {
    /// The transfer rule that a `transfers` field stands for: an empty field
    /// allows unlimited transfers.
    pub fn from_code(code: Option<u16>) -> (r: Transfers)
        ensures
            r == transfers_of(code),
    {
        match code {
            Some(0) => Transfers::NoTransfer,
            Some(1) => Transfers::UniqueTransfer,
            Some(2) => Transfers::TwoTransfers,
            Some(a) => Transfers::Other(a),
            None => Transfers::default(),
        }
    }
}

/// The GTFS numbering of transfer rules: an empty field allows unlimited
/// transfers, 0 none, 1 one, 2 two; any other number is kept as is.
pub proof fn lemma_transfers_codes(code: Option<u16>)
    ensures
        (transfers_of(code) == Transfers::Unlimited) <==> code is None,
        (transfers_of(code) == Transfers::NoTransfer) <==> code == Some(0u16),
        (transfers_of(code) == Transfers::UniqueTransfer) <==> code == Some(1u16),
        (transfers_of(code) == Transfers::TwoTransfers) <==> code == Some(2u16),
        forall|other: u16| #[trigger] transfers_of(code) == Transfers::Other(other)
            <==> (code == Some(other) && other > 2),
{
}

/// A text of one character is that character alone.
proof fn lemma_single_char(s: Seq<char>, c: char)
    ensures
        single_char(s) == Some(c) <==> s == seq![c],
{
    if s == seq![c] {
        assert(s.len() == 1 && s[0] == c);
    }
    if single_char(s) == Some(c) {
        assert(s =~= seq![c]);
    }
}

pub open spec fn pickup_drop_off_of(s: Seq<char>) -> Option<PickupDropOffType> {
    match single_char(s) {
        Some('0') => Some(PickupDropOffType::Regular),
        Some('1') => Some(PickupDropOffType::NotAvailable),
        Some('2') => Some(PickupDropOffType::ArrangeByPhone),
        Some('3') => Some(PickupDropOffType::CoordinateWithDriver),
        _ => None,
    }
}

impl PickupDropOffType {
    /// The pickup or drop off type named by its code `"0"` to `"3"`.
    pub fn from_name(s: &str) -> (r: Option<PickupDropOffType>)
        ensures
            r == pickup_drop_off_of(s@),
    {
        match single_char_of(s) {
            Some('0') => Some(PickupDropOffType::Regular),
            Some('1') => Some(PickupDropOffType::NotAvailable),
            Some('2') => Some(PickupDropOffType::ArrangeByPhone),
            Some('3') => Some(PickupDropOffType::CoordinateWithDriver),
            _ => None,
        }
    }
}

/// The GTFS codes of pickup and drop off types: "0" regular, "1" not
/// available, "2" to arrange by phone, "3" to coordinate with the driver; no
/// other text names one.
pub proof fn lemma_pickup_drop_off_codes(s: Seq<char>)
    ensures
        (pickup_drop_off_of(s) == Some(PickupDropOffType::Regular)) <==> s == seq!['0'],
        (pickup_drop_off_of(s) == Some(PickupDropOffType::NotAvailable)) <==> s == seq!['1'],
        (pickup_drop_off_of(s) == Some(PickupDropOffType::ArrangeByPhone)) <==> s == seq!['2'],
        (pickup_drop_off_of(s) == Some(PickupDropOffType::CoordinateWithDriver)) <==> s == seq!['3'],
        (pickup_drop_off_of(s) is None) <==> !(s == seq!['0'] || s == seq!['1'] || s == seq!['2']
            || s == seq!['3']),
{
    lemma_single_char(s, '0');
    lemma_single_char(s, '1');
    lemma_single_char(s, '2');
    lemma_single_char(s, '3');
}

pub open spec fn availability_of(s: Seq<char>) -> Option<Availability> {
    match single_char(s) {
        Some('0') => Some(Availability::InformationNotAvailable),
        Some('1') => Some(Availability::Available),
        Some('2') => Some(Availability::NotAvailable),
        _ => None,
    }
}

impl Availability {
    /// The availability named by its code `"0"` to `"2"`.
    pub fn from_name(s: &str) -> (r: Option<Availability>)
        ensures
            r == availability_of(s@),
    {
        match single_char_of(s) {
            Some('0') => Some(Availability::InformationNotAvailable),
            Some('1') => Some(Availability::Available),
            Some('2') => Some(Availability::NotAvailable),
            _ => None,
        }
    }
}

/// The GTFS codes of availability: "0" no information, "1" available, "2"
/// not available; no other text names one.
pub proof fn lemma_availability_codes(s: Seq<char>)
    ensures
        (availability_of(s) == Some(Availability::InformationNotAvailable)) <==> s == seq!['0'],
        (availability_of(s) == Some(Availability::Available)) <==> s == seq!['1'],
        (availability_of(s) == Some(Availability::NotAvailable)) <==> s == seq!['2'],
        (availability_of(s) is None) <==> !(s == seq!['0'] || s == seq!['1'] || s == seq!['2']),
{
    lemma_single_char(s, '0');
    lemma_single_char(s, '1');
    lemma_single_char(s, '2');
}

pub open spec fn payment_method_of(s: Seq<char>) -> Option<PaymentMethod> {
    match single_char(s) {
        Some('0') => Some(PaymentMethod::Aboard),
        Some('1') => Some(PaymentMethod::PreBoarding),
        _ => None,
    }
}

impl PaymentMethod {
    /// The payment method named by its code `"0"` or `"1"`.
    pub fn from_name(s: &str) -> (r: Option<PaymentMethod>)
        ensures
            r == payment_method_of(s@),
    {
        match single_char_of(s) {
            Some('0') => Some(PaymentMethod::Aboard),
            Some('1') => Some(PaymentMethod::PreBoarding),
            _ => None,
        }
    }
}

/// The GTFS codes of payment methods: "0" aboard, "1" before boarding; no
/// other text names one.
pub proof fn lemma_payment_method_codes(s: Seq<char>)
    ensures
        (payment_method_of(s) == Some(PaymentMethod::Aboard)) <==> s == seq!['0'],
        (payment_method_of(s) == Some(PaymentMethod::PreBoarding)) <==> s == seq!['1'],
        (payment_method_of(s) is None) <==> !(s == seq!['0'] || s == seq!['1']),
{
    lemma_single_char(s, '0');
    lemma_single_char(s, '1');
}

pub open spec fn location_type_of(s: Seq<char>) -> LocationType {
    match single_char(s) {
        Some('1') => LocationType::StopArea,
        Some('2') => LocationType::StationEntrance,
        _ => LocationType::StopPoint,
    }
}

impl LocationType {
    /// The location type of a `location_type` field: `"1"` is a stop area,
    /// `"2"` a station entrance, anything else a stop point.
    pub fn from_text(s: &str) -> (r: LocationType)
        ensures
            r == location_type_of(s@),
    {
        match single_char_of(s) {
            Some('1') => LocationType::StopArea,
            Some('2') => LocationType::StationEntrance,
            _ => LocationType::StopPoint,
        }
    }
}

/// The GTFS codes of location types: "1" a stop area, "2" a station
/// entrance, and any other text (the empty one and "0" among them) a stop point.
pub proof fn lemma_location_type_codes(s: Seq<char>)
    ensures
        (location_type_of(s) == LocationType::StopArea) <==> s == seq!['1'],
        (location_type_of(s) == LocationType::StationEntrance) <==> s == seq!['2'],
        (location_type_of(s) == LocationType::StopPoint) <==> !(s == seq!['1'] || s == seq!['2']),
{
    lemma_single_char(s, '1');
    lemma_single_char(s, '2');
}

/// A field value that is neither `0` nor `1` where a boolean was expected.
#[derive(Debug)]
pub struct InvalidBool {
    pub value: String,
}

/// Reads a GTFS boolean: `"0"` is false, `"1"` is true, and any other text is
/// refused with that text.
pub fn parse_bool(s: &str) -> (r: Result<bool, InvalidBool>)
    ensures
        match single_char(s@) {
            Some('0') => r == Ok::<bool, InvalidBool>(false),
            Some('1') => r == Ok::<bool, InvalidBool>(true),
            _ => r is Err && r->Err_0.value@ == s@,
        },
{
    match single_char_of(s) {
        Some('0') => Ok(false),
        Some('1') => Ok(true),
        _ => Err(InvalidBool { value: s.to_owned() }),
    }
}

} // verus!
