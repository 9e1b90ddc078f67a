//! Where peers are: addresses, databases, and what is shown of a location.
use crate::chars;
use crate::connections;
use crate::connections::Connection;
use crate::numbers;
use crate::paths;
use crate::table;
use crate::text;
use flate2::read::GzDecoder;
use std::io::Read;
use vstd::prelude::*;

verus! {

/// How many seconds a download may take.
pub const REQUEST_TIMEOUT_SECS: u64 = 120;

pub open spec fn url_of(product: Seq<char>, year: int, month: int) -> Seq<char> {
    "https://download.db-ip.com/free/dbip-"@ + product + seq!['-'] + numbers::padded(year, 4) + seq!['-']
        + numbers::padded(month, 2) + ".mmdb.gz"@
}

/// Where the edition of a database for a month is downloaded from.
pub fn db_url_for(product: &str, year: i32, month: u32) -> (r: String)
    ensures
        r@ == url_of(product@, year as int, month as int),
{
    let mut out: Vec<char> = Vec::new();
    text::put_str(&mut out, "https://download.db-ip.com/free/dbip-");
    text::put_str(&mut out, product);
    out.push('-');
    numbers::put_padded(&mut out, year as i64, 4);
    out.push('-');
    numbers::put_padded(&mut out, month as i64, 2);
    text::put_str(&mut out, ".mmdb.gz");
    assert(out@ =~= url_of(product@, year as int, month as int));
    text::string_of(out.as_slice())
}

/// The month before a month, both as a year and a month.
pub open spec fn month_before(year: int, month: int) -> (int, int) {
    if month == 1 {
        (year - 1, 12)
    } else {
        (year, month - 1)
    }
}

/// The month before a month: that of an edition to fall back on, as the one for the current
/// month may not be out yet.
pub fn last_edition(year: i32, month: u32) -> (r: (i32, u32))
    requires
        1 <= month <= 12,
        year > i32::MIN,
    ensures
        (r.0 as int, r.1 as int) == month_before(year as int, month as int),
        1 <= r.1 <= 12,
        r.0 * 12 + r.1 == year * 12 + month - 1,
{
    if month == 1 {
        (year - 1, 12)
    } else {
        (year, month - 1)
    }
}

/// Where to ask next for a database: for the edition of the month before, and only where the
/// request for that of the current month failed.
pub fn second_request(product: &str, year: i32, month: u32, failed: bool) -> (r: Option<String>)
    requires
        1 <= month <= 12,
        year > i32::MIN,
    ensures
        chars::opt_text(r) == if failed {
            let (y, m) = month_before(year as int, month as int);
            Some(url_of(product@, y, m))
        } else {
            None
        },
{
    if failed {
        let (y, m): (i32, u32) = last_edition(year, month);
        Some(db_url_for(product, y, m))
    } else {
        None
    }
}

/// Where the city database is kept.
pub fn database_path(data_dir: &[u8]) -> (r: Vec<u8>)
    ensures
        r@ == paths::entry(data_dir@, "dbip-city-lite.mmdb"@),
{
    paths::join(data_dir, "dbip-city-lite.mmdb")
}

/// Where the database of autonomous systems is kept: these tell who an address belongs to.
pub fn asn_database_path(data_dir: &[u8]) -> (r: Vec<u8>)
    ensures
        r@ == paths::entry(data_dir@, "dbip-asn-lite.mmdb"@),
{
    paths::join(data_dir, "dbip-asn-lite.mmdb")
}

/// Whether the city database is there, and how many days old it is.
#[derive(Debug, Clone, Copy, PartialEq, Eq, Structural)]
pub struct DatabaseStatus {
    pub present: bool,
    pub age_days: Option<i64>,
}

/// What was found of the file of a database.
#[derive(Debug, Clone, Copy, PartialEq, Eq, Structural)]
pub enum DatabaseFile {
    /// There is none, or it tells no time.
    Absent,
    /// It was written so many seconds ago.
    Written(u64),
    /// It was written at a time that is still to come.
    Ahead,
}

/// The state of a database, from its file.
pub open spec fn status_of(file: DatabaseFile) -> DatabaseStatus {
    match file {
        DatabaseFile::Absent => (DatabaseStatus { present: false, age_days: None }),
        DatabaseFile::Written(secs) => (DatabaseStatus { present: true, age_days: Some((secs / 86400) as i64) }),
        DatabaseFile::Ahead => (DatabaseStatus { present: true, age_days: Some(0) }),
    }
}

/// A database is there exactly where its file is, and is as old as the full days since that was
/// written; one that was written at a time still to come is not old at all.
pub proof fn law_age_is_in_full_days(secs: u64)
    ensures
        status_of(DatabaseFile::Absent) == (DatabaseStatus { present: false, age_days: None }),
        status_of(DatabaseFile::Ahead) == (DatabaseStatus { present: true, age_days: Some(0i64) }),
        status_of(DatabaseFile::Written(secs)).present,
        status_of(DatabaseFile::Written(secs)).age_days matches Some(d) && 86400 * d <= secs < 86400 * (d + 1),
        REQUEST_TIMEOUT_SECS == 120,
{
}

/// The state of a database, from its file.
pub fn database_status(file: DatabaseFile) -> (r: DatabaseStatus)
    ensures
        r == status_of(file),
        r == match file {
            DatabaseFile::Absent => (DatabaseStatus { present: false, age_days: None }),
            DatabaseFile::Written(secs) => (DatabaseStatus { present: true, age_days: Some((secs / 86400) as i64) }),
            DatabaseFile::Ahead => (DatabaseStatus { present: true, age_days: Some(0) }),
        },
{
    match file {
        DatabaseFile::Absent => DatabaseStatus { present: false, age_days: None },
        DatabaseFile::Written(secs) => DatabaseStatus { present: true, age_days: Some((secs / 86400) as i64) },
        DatabaseFile::Ahead => DatabaseStatus { present: true, age_days: Some(0) },
    }
}

/// What `GzDecoder` reads from some bytes to the end: the contents of their first gzip member,
/// or the text of the error.
pub uninterp spec fn gunzipped(gz: Seq<u8>) -> Result<Seq<u8>, Seq<char>>;

pub open spec fn bytes_view(r: Result<Vec<u8>, String>) -> Result<Seq<u8>, Seq<char>> {
    match r {
        Ok(b) => Ok(b@),
        Err(e) => Err(e@),
    }
}

/// Calls `flate2::read::GzDecoder::new` on the bytes and `read_to_end` on the decoder. The
/// contract names what comes out, an error by its text.
#[verifier::external_body]
pub(crate) fn gunzip(gz: &[u8]) -> (r: Result<Vec<u8>, String>)
    ensures
        bytes_view(r) == gunzipped(gz@),
{
    let mut out = Vec::new();
    match GzDecoder::new(gz).read_to_end(&mut out) {
        Ok(_) => Ok(out),
        Err(e) => Err(e.to_string()),
    }
}

/// The steps of fetching a database that can fail, apart from writing it.
#[derive(Debug, Clone, Copy, PartialEq, Eq, Structural)]
pub enum FetchStep {
    Download,
    Read,
    Gunzip,
    Open,
}

pub open spec fn step_text(step: FetchStep) -> Seq<char> {
    match step {
        FetchStep::Download => "download failed: "@,
        FetchStep::Read => "read failed: "@,
        FetchStep::Gunzip => "gunzip failed: "@,
        FetchStep::Open => "invalid database: "@,
    }
}

/// What is reported of a step that failed.
pub fn fetch_error(step: FetchStep, e: &str) -> (r: String)
    ensures
        r@ == step_text(step) + e@,
{
    let mut out: Vec<char> = Vec::new();
    match step {
        FetchStep::Download => text::put_str(&mut out, "download failed: "),
        FetchStep::Read => text::put_str(&mut out, "read failed: "),
        FetchStep::Gunzip => text::put_str(&mut out, "gunzip failed: "),
        FetchStep::Open => text::put_str(&mut out, "invalid database: "),
    }
    text::put_str(&mut out, e);
    assert(out@ =~= step_text(step) + e@);
    text::string_of(out.as_slice())
}

/// What unpacking a download comes to.
pub open spec fn unpacked(unzipped: Result<Seq<u8>, Seq<char>>) -> Result<Seq<u8>, Seq<char>> {
    match unzipped {
        Ok(b) => Ok(b),
        Err(e) => Err(step_text(FetchStep::Gunzip) + e),
    }
}

/// Reports what unzipping a download came to.
pub fn unpack_result(unzipped: Result<Vec<u8>, String>) -> (r: Result<Vec<u8>, String>)
    ensures
        bytes_view(r) == unpacked(bytes_view(unzipped)),
{
    match unzipped {
        Ok(b) => Ok(b),
        Err(e) => Err(fetch_error(FetchStep::Gunzip, e.as_str())),
    }
}

/// Unpacks a downloaded database.
pub fn unpack_database(gz: &[u8]) -> (r: Result<Vec<u8>, String>)
    ensures
        bytes_view(r) == unpacked(gunzipped(gz@)),
{
    unpack_result(gunzip(gz))
}

pub open spec fn opened_view(r: Result<(), String>) -> Result<(), Seq<char>> {
    match r {
        Ok(_) => Ok(()),
        Err(e) => Err(e@),
    }
}

/// What a download comes to: its bytes, where it could be unzipped and opened as a database.
pub open spec fn installable_of(
    unzipped: Result<Seq<u8>, Seq<char>>,
    opened: Result<(), Seq<char>>,
) -> Result<Seq<u8>, Seq<char>> {
    match (unpacked(unzipped), opened) {
        (Err(e), _) => Err(e),
        (Ok(_), Err(e)) => Err(step_text(FetchStep::Open) + e),
        (Ok(b), Ok(_)) => Ok(b),
    }
}

/// The bytes of a download that may be put into the place of its database, from what unzipping
/// it and opening it for a trial came to.
pub fn installable(unzipped: Result<Vec<u8>, String>, opened: &Result<(), String>) -> (r: Result<Vec<u8>, String>)
    ensures
        bytes_view(r) == installable_of(bytes_view(unzipped), opened_view(*opened)),
{
    match unpack_result(unzipped) {
        Err(e) => Err(e),
        Ok(b) => match opened {
            Ok(_) => Ok(b),
            Err(e) => Err(fetch_error(FetchStep::Open, e.as_str())),
        },
    }
}

/// The database that there is after a download: the one that was there before, if the download
/// is not installable.
pub open spec fn database_after(before: Option<Seq<u8>>, download: Result<Seq<u8>, Seq<char>>) -> Option<Seq<u8>> {
    match download {
        Ok(b) => Some(b),
        Err(_) => before,
    }
}

/// A download that cannot be unzipped or opened replaces nothing; any other is there as it came.
pub proof fn law_broken_download_replaces_nothing(
    before: Option<Seq<u8>>,
    unzipped: Result<Seq<u8>, Seq<char>>,
    opened: Result<(), Seq<char>>,
)
    ensures
        unzipped is Err || opened is Err ==> database_after(before, installable_of(unzipped, opened)) == before,
        unzipped is Ok && opened is Ok ==> database_after(before, installable_of(unzipped, opened)) == Some(
            unzipped->Ok_0,
        ),
{
}

/// An IP address: four bytes, or eight groups of sixteen bits.
#[derive(Debug, Clone, Copy)]
pub enum IpAddress {
    V4([u8; 4]),
    V6([u16; 8]),
}

/// Whether an IPv4 address is of a private network, of this machine, of the local link, for a
/// group of hosts, or none at all.
pub open spec fn is_local_v4(a: Seq<u8>) -> bool {
    ||| a[0] == 10
    ||| a[0] == 172 && 16 <= a[1] < 32
    ||| a[0] == 192 && a[1] == 168
    ||| a[0] == 127
    ||| a[0] == 169 && a[1] == 254
    ||| 224 <= a[0] < 240
    ||| a == seq![0u8, 0, 0, 0]
}

/// Whether an IPv6 address stands for an IPv4 address.
pub open spec fn is_mapped(a: Seq<u16>) -> bool {
    a.take(6) == seq![0u16, 0, 0, 0, 0, 0xffff]
}

/// The IPv4 address that is in the last two groups.
pub open spec fn mapped_v4(a: Seq<u16>) -> Seq<u8> {
    seq![(a[6] / 256) as u8, (a[6] % 256) as u8, (a[7] / 256) as u8, (a[7] % 256) as u8]
}

/// Whether an IPv6 address is of a private network, of this machine, of the local link, for a
/// group of hosts, or none at all; one that stands for an IPv4 address is what that one is.
pub open spec fn is_local_v6(a: Seq<u16>) -> bool {
    ||| is_mapped(a) && is_local_v4(mapped_v4(a))
    ||| 0xfc00 <= a[0] < 0xfe00
    ||| a == seq![0u16, 0, 0, 0, 0, 0, 0, 1]
    ||| 0xfe80 <= a[0] < 0xfec0
    ||| 0xff00 <= a[0]
    ||| a == seq![0u16, 0, 0, 0, 0, 0, 0, 0]
}

pub open spec fn is_public_address(ip: IpAddress) -> bool {
    match ip {
        IpAddress::V4(a) => !is_local_v4(a@),
        IpAddress::V6(a) => !is_local_v6(a@),
    }
}

fn is_local_quad(a: [u8; 4]) -> (r: bool)
    ensures
        r == is_local_v4(a@),
{
    let none: bool = a[0] == 0 && a[1] == 0 && a[2] == 0 && a[3] == 0;
    assert(none == (a@ =~= seq![0u8, 0, 0, 0]));
    a[0] == 10 || (a[0] == 172 && 16 <= a[1] && a[1] < 32) || (a[0] == 192 && a[1] == 168) || a[0] == 127 || (a[0]
        == 169 && a[1] == 254) || (224 <= a[0] && a[0] < 240) || none
}

/// Whether an address can have a location that means anything.
pub fn is_public(ip: &IpAddress) -> (r: bool)
    ensures
        r == is_public_address(*ip),
{
    match ip {
        IpAddress::V4(a) => !is_local_quad(*a),
        IpAddress::V6(a) => {
            let zeros: bool = a[0] == 0 && a[1] == 0 && a[2] == 0 && a[3] == 0 && a[4] == 0;
            let none: bool = zeros && a[5] == 0 && a[6] == 0 && a[7] == 0;
            let own: bool = zeros && a[5] == 0 && a[6] == 0 && a[7] == 1;
            let mapped: bool = zeros && a[5] == 0xffff;
            let quad: [u8; 4] = [(a[6] / 256) as u8, (a[6] % 256) as u8, (a[7] / 256) as u8, (a[7] % 256) as u8];
            proof {
                assert(none == (a@ =~= seq![0u16, 0, 0, 0, 0, 0, 0, 0]));
                assert(own == (a@ =~= seq![0u16, 0, 0, 0, 0, 0, 0, 1]));
                assert(mapped ==> a@.take(6) =~= seq![0u16, 0, 0, 0, 0, 0xffff]);
                assert(forall|i: int| 0 <= i < 6 ==> a@.take(6)[i] == #[trigger] a@[i]);
                assert(mapped == is_mapped(a@));
                assert(quad@ =~= mapped_v4(a@));
            }
            !((mapped && is_local_quad(quad)) || (0xfc00 <= a[0] && a[0] < 0xfe00) || own || (0xfe80 <= a[0] && a[0]
                < 0xfec0) || 0xff00 <= a[0] || none)
        },
    }
}

/// An IPv4 address is public exactly where the IPv6 address that stands for it is.
pub proof fn law_mapped_address_is_as_public(v4: [u8; 4], v6: [u16; 8])
    requires
        is_mapped(v6@),
        mapped_v4(v6@) == v4@,
    ensures
        is_public_address(IpAddress::V6(v6)) == is_public_address(IpAddress::V4(v4)),
{
    assert(v6@.take(6)[0] == v6@[0] && v6@.take(6)[5] == v6@[5]);
    assert(v6@[0] == 0 && v6@[5] == 0xffff);
}

/// What the city database says of an address, with coordinates of some type.
#[derive(Debug, Clone)]
pub struct CityRecord<C> {
    pub city: Option<String>,
    pub country: Option<String>,
    pub latitude: Option<C>,
    pub longitude: Option<C>,
}

/// What the database of autonomous systems says of an address.
#[derive(Debug, Clone)]
pub struct AsnRecord {
    pub number: Option<u32>,
    pub organization: Option<String>,
}

/// Where an address is and who it belongs to.
#[derive(Debug, Clone)]
pub struct GeoLocation<C> {
    pub city: Option<String>,
    pub country: Option<String>,
    pub lat: C,
    pub lon: C,
    pub asn: Option<u32>,
    pub asn_org: Option<String>,
}

#[verifier::ext_equal]
#[verifier::reject_recursive_types(C)]
pub struct LocationView<C> {
    pub city: Option<Seq<char>>,
    pub country: Option<Seq<char>>,
    pub lat: C,
    pub lon: C,
    pub asn: Option<u32>,
    pub asn_org: Option<Seq<char>>,
}

impl<C> View for GeoLocation<C> {
    type V = LocationView<C>;

    open spec fn view(&self) -> LocationView<C> {
        LocationView {
            city: chars::opt_text(self.city),
            country: chars::opt_text(self.country),
            lat: self.lat,
            lon: self.lon,
            asn: self.asn,
            asn_org: chars::opt_text(self.asn_org),
        }
    }
}

pub open spec fn opt_location<C>(l: Option<GeoLocation<C>>) -> Option<LocationView<C>> {
    match l {
        Some(l) => Some(l@),
        None => None,
    }
}

/// The location that two records give: there is none without coordinates, and what is known of
/// the autonomous system only adds to it.
pub open spec fn location_of<C>(city: Option<CityRecord<C>>, asn: Option<AsnRecord>) -> Option<LocationView<C>> {
    match city {
        Some(c) => match (c.latitude, c.longitude) {
            (Some(lat), Some(lon)) => Some(
                LocationView {
                    city: chars::opt_text(c.city),
                    country: chars::opt_text(c.country),
                    lat,
                    lon,
                    asn: match asn {
                        Some(a) => a.number,
                        None => None,
                    },
                    asn_org: match asn {
                        Some(a) => chars::opt_text(a.organization),
                        None => None,
                    },
                },
            ),
            _ => None,
        },
        None => None,
    }
}

/// What is known of the autonomous system neither makes a location nor changes where it is.
pub proof fn law_asn_only_adds<C>(city: Option<CityRecord<C>>, asn: Option<AsnRecord>)
    ensures
        match (location_of(city, asn), location_of(city, None)) {
            (Some(a), Some(b)) => b == (LocationView { asn: None, asn_org: None, ..a }),
            (None, None) => true,
            _ => false,
        },
        location_of(city, asn) is Some <==> city is Some && city->Some_0.latitude is Some
            && city->Some_0.longitude is Some,
{
}

/// The location of an address: one that is not public has none, whatever the records say.
pub open spec fn located<C>(ip: IpAddress, city: Option<CityRecord<C>>, asn: Option<AsnRecord>) -> Option<
    LocationView<C>,
> {
    if is_public_address(ip) {
        location_of(city, asn)
    } else {
        None
    }
}

/// The location that the records of the two databases give for an address.
pub fn locate<C>(ip: &IpAddress, city: Option<CityRecord<C>>, asn: Option<AsnRecord>) -> (r: Option<GeoLocation<C>>)
    ensures
        opt_location(r) == located(*ip, city, asn),
{
    if !is_public(ip) {
        return None;
    }
    match city {
        Some(c) => match (c.latitude, c.longitude) {
            (Some(lat), Some(lon)) => {
                let (number, organization): (Option<u32>, Option<String>) = match asn {
                    Some(a) => (a.number, a.organization),
                    None => (None, None),
                };
                Some(
                    GeoLocation {
                        city: c.city,
                        country: c.country,
                        lat,
                        lon,
                        asn: number,
                        asn_org: organization,
                    },
                )
            },
            _ => None,
        },
        None => None,
    }
}

/// Who an address belongs to, as it is shown.
pub open spec fn registrant_of(asn: Option<u32>, org: Option<Seq<char>>) -> Seq<char> {
    match (asn, org) {
        (Some(n), Some(o)) => "AS"@ + numbers::decimal(n as nat) + " · "@ + o,
        (None, Some(o)) => o,
        (Some(n), None) => "AS"@ + numbers::decimal(n as nat),
        (None, None) => crate::format::UNKNOWN@,
    }
}

pub fn registrant(asn: Option<u32>, org: &Option<String>) -> (r: String)
    ensures
        r@ == registrant_of(asn, chars::opt_text(*org)),
{
    match (asn, org) {
        (Some(n), Some(o)) => {
            let mut out: Vec<char> = Vec::new();
            text::put_str(&mut out, "AS");
            numbers::put_decimal(&mut out, n as u64);
            text::put_str(&mut out, " · ");
            text::put_str(&mut out, o.as_str());
            assert(out@ =~= registrant_of(asn, chars::opt_text(*org)));
            text::string_of(out.as_slice())
        },
        (None, Some(o)) => o.clone(),
        (Some(n), None) => {
            let mut out: Vec<char> = Vec::new();
            text::put_str(&mut out, "AS");
            numbers::put_decimal(&mut out, n as u64);
            assert(out@ =~= registrant_of(asn, chars::opt_text(*org)));
            text::string_of(out.as_slice())
        },
        (None, None) => crate::format::UNKNOWN.to_string(),
    }
}

/// A peer to be located: its address and the process that talks to it.
#[derive(Debug, Clone)]
pub struct Peer {
    pub ip: String,
    pub process: String,
}

pub open spec fn peer_view(p: Peer) -> (Seq<char>, Seq<char>) {
    (p.ip@, p.process@)
}

pub open spec fn peer_views(v: Seq<Peer>) -> Seq<(Seq<char>, Seq<char>)> {
    v.map_values(|p: Peer| peer_view(p))
}

/// Whether an address is among some peers.
pub open spec fn has_peer(peers: Seq<(Seq<char>, Seq<char>)>, ip: Seq<char>) -> bool {
    exists|i: int| 0 <= i < peers.len() && (#[trigger] peers[i]).0 == ip
}

/// The peers of some sockets, each address once, with the process of its first socket.
pub open spec fn peers_of(conns: Seq<connections::ConnectionView>) -> Seq<(Seq<char>, Seq<char>)>
    decreases conns.len(),
{
    if conns.len() == 0 {
        seq![]
    } else {
        let some = peers_of(conns.drop_last());
        let ip = connections::ip_of(conns.last().peer);
        if ip.len() == 0 || has_peer(some, ip) {
            some
        } else {
            some.push((ip, crate::format::unless_empty(conns.last().proc_name)))
        }
    }
}

/// No address is among the peers twice, and none is empty.
pub proof fn law_peers_are_distinct(conns: Seq<connections::ConnectionView>)
    ensures
        table::distinct(peers_of(conns)),
        forall|i: int| 0 <= i < peers_of(conns).len() ==> (#[trigger] peers_of(conns)[i]).0.len() > 0,
    decreases conns.len(),
{
    if conns.len() > 0 {
        let some = peers_of(conns.drop_last());
        let all = peers_of(conns);
        law_peers_are_distinct(conns.drop_last());
        assert forall|i: int, j: int| 0 <= i < j < all.len() implies #[trigger] all[i].0 != #[trigger] all[j].0 by {
            assert(all[i] == some[i]);
            if j < some.len() {
                assert(all[j] == some[j]);
            }
        }
        assert forall|i: int| 0 <= i < all.len() implies (#[trigger] all[i]).0.len() > 0 by {
            if i < some.len() {
                assert(all[i] == some[i]);
            }
        }
    }
}

/// Every address of a socket is among the peers.
pub proof fn law_peers_are_complete(conns: Seq<connections::ConnectionView>, i: int)
    requires
        0 <= i < conns.len(),
        connections::ip_of(conns[i].peer).len() > 0,
    ensures
        has_peer(peers_of(conns), connections::ip_of(conns[i].peer)),
    decreases conns.len(),
{
    let rest = conns.drop_last();
    let some = peers_of(rest);
    let all = peers_of(conns);
    let ip = connections::ip_of(conns[i].peer);
    if i < rest.len() {
        assert(rest[i] == conns[i]);
        law_peers_are_complete(rest, i);
        let k = choose|k: int| 0 <= k < some.len() && (#[trigger] some[k]).0 == ip;
        assert(all[k] == some[k]);
    } else if !has_peer(some, ip) {
        assert(all[some.len() as int].0 == ip);
    }
}

fn known(peers: &Vec<Peer>, ip: &str) -> (r: bool)
    ensures
        r == has_peer(peer_views(peers@), ip@),
{
    let ghost all = peer_views(peers@);
    let mut i: usize = 0;
    while i < peers.len()
        invariant
            i <= peers@.len(),
            all == peer_views(peers@),
            forall|j: int| 0 <= j < i ==> (#[trigger] all[j]).0 != ip@,
        decreases peers.len() - i,
    {
        assert(all[i as int] == peer_view(peers@[i as int]));
        if text::same_str(peers[i].ip.as_str(), ip) {
            return true;
        }
        i += 1;
    }
    false
}

/// The peers of some sockets, each address once, with the process of its first socket.
pub fn unique_peers(conns: &[Connection]) -> (r: Vec<Peer>)
    ensures
        peer_views(r@) == peers_of(connections::views(conns@)),
{
    let ghost all = connections::views(conns@);
    let mut out: Vec<Peer> = Vec::new();
    assert(peer_views(out@) =~= peers_of(all.take(0)));
    let mut i: usize = 0;
    while i < conns.len()
        invariant
            i <= conns@.len(),
            all == connections::views(conns@),
            peer_views(out@) == peers_of(all.take(i as int)),
        decreases conns.len() - i,
    {
        let ghost before = peer_views(out@);
        let c: &Connection = &conns[i];
        proof {
            assert(all[i as int] == c@);
            assert(all.take(i + 1).drop_last() =~= all.take(i as int));
        }
        let ip: &str = connections::peer_ip(c.peer.as_str());
        if !ip.is_empty() && !known(&out, ip) {
            let p: Peer = Peer { ip: ip.to_string(), process: crate::format::shown_unless_empty(&c.proc_name) };
            let ghost pv = peer_view(p);
            out.push(p);
            assert(peer_views(out@) =~= before.push(pv));
        }
        i += 1;
    }
    assert(all.take(all.len() as int) =~= all);
    out
}

/// A located peer as it is shown.
#[derive(Debug, Clone)]
pub struct GeoConnectionRow<C> {
    pub ip: String,
    pub city: String,
    pub country: String,
    pub process: String,
    pub lat: C,
    pub lon: C,
    pub registrant: String,
}

pub fn geo_row<C: Copy>(peer: &Peer, loc: &GeoLocation<C>) -> (r: GeoConnectionRow<C>)
    ensures
        r.ip@ == peer.ip@,
        r.city@ == crate::format::or_unknown(loc@.city),
        r.country@ == crate::format::or_unknown(loc@.country),
        r.process@ == peer.process@,
        r.lat == loc.lat,
        r.lon == loc.lon,
        r.registrant@ == registrant_of(loc@.asn, loc@.asn_org),
{
    GeoConnectionRow {
        ip: peer.ip.clone(),
        city: crate::format::shown(&loc.city),
        country: crate::format::shown(&loc.country),
        process: peer.process.clone(),
        lat: loc.lat,
        lon: loc.lon,
        registrant: registrant(loc.asn, &loc.asn_org),
    }
}


/// An IPv4 address as a number of 32 bits.
pub open spec fn number_of(a: Seq<u8>) -> int {
    a[0] * 0x100_0000 + a[1] * 0x1_0000 + a[2] * 0x100 + a[3]
}

/// The IPv4 addresses that are not public are those of seven ranges: three private ones, the
/// loopback, the local link, the groups of hosts, and no address at all.
pub proof fn law_ranges_of_ipv4(a: [u8; 4])
    ensures
        !is_public_address(IpAddress::V4(a)) <==> {
            let n = number_of(a@);
            ||| 0x0a00_0000 <= n <= 0x0aff_ffff
            ||| 0xac10_0000 <= n <= 0xac1f_ffff
            ||| 0xc0a8_0000 <= n <= 0xc0a8_ffff
            ||| 0x7f00_0000 <= n <= 0x7fff_ffff
            ||| 0xa9fe_0000 <= n <= 0xa9fe_ffff
            ||| 0xe000_0000 <= n <= 0xefff_ffff
            ||| n == 0
        },
{
    let s = a@;
    assert(s.len() == 4);
    assert((s == seq![0u8, 0, 0, 0]) == (s[0] == 0 && s[1] == 0 && s[2] == 0 && s[3] == 0)) by {
        if s[0] == 0 && s[1] == 0 && s[2] == 0 && s[3] == 0 {
            assert(s =~= seq![0u8, 0, 0, 0]);
        }
    }
}

/// The IPv6 addresses of the global range are public; those of private networks, of the local
/// link and of groups of hosts are not, nor are the loopback and no address at all.
pub proof fn law_ranges_of_ipv6(a: [u16; 8])
    ensures
        0x2000 <= a@[0] < 0x4000 ==> is_public_address(IpAddress::V6(a)),
        0xfc00 <= a@[0] <= 0xfdff ==> !is_public_address(IpAddress::V6(a)),
        0xfe80 <= a@[0] <= 0xfebf ==> !is_public_address(IpAddress::V6(a)),
        0xff00 <= a@[0] ==> !is_public_address(IpAddress::V6(a)),
        (forall|i: int| 0 <= i < 7 ==> #[trigger] a@[i] == 0) && a@[7] <= 1 ==> !is_public_address(IpAddress::V6(a)),
        0 < a@[0] < 0xfc00 || 0xfe00 <= a@[0] < 0xfe80 || 0xfec0 <= a@[0] < 0xff00 ==> is_public_address(
            IpAddress::V6(a),
        ),
{
    let s = a@;
    assert(s.len() == 8);
    assert(s.take(6)[0] == s[0]);
    if (forall|i: int| 0 <= i < 7 ==> #[trigger] s[i] == 0) && s[7] <= 1 {
        if s[7] == 0 {
            assert(s =~= seq![0u16, 0, 0, 0, 0, 0, 0, 0]);
        } else {
            assert(s =~= seq![0u16, 0, 0, 0, 0, 0, 0, 1]);
        }
    }
    assert(seq![0u16, 0, 0, 0, 0, 0xffff][0] == 0);
    assert(seq![0u16, 0, 0, 0, 0, 0, 0, 0][0] == 0);
    assert(seq![0u16, 0, 0, 0, 0, 0, 0, 1][0] == 0);
}

/// The location of a public address has the coordinates and the names of the city record, and
/// number and organization of the other record where there is one; an address that is not public
/// has none.
pub proof fn law_location_is_of_the_records<C>(ip: IpAddress, c: CityRecord<C>, a: AsnRecord, lat: C, lon: C)
    requires
        c.latitude == Some(lat),
        c.longitude == Some(lon),
    ensures
        is_public_address(ip) ==> (located(ip, Some(c), Some(a)) matches Some(l) && {
            &&& l.lat == lat
            &&& l.lon == lon
            &&& l.city == chars::opt_text(c.city)
            &&& l.country == chars::opt_text(c.country)
            &&& l.asn == a.number
            &&& l.asn_org == chars::opt_text(a.organization)
        }),
        is_public_address(ip) ==> (located(ip, Some(c), None) matches Some(l) && {
            &&& l.lat == lat
            &&& l.lon == lon
            &&& l.asn is None
            &&& l.asn_org is None
        }),
        !is_public_address(ip) ==> located(ip, Some(c), Some(a)) is None,
        located::<C>(ip, None, Some(a)) is None,
{
}

/// Who an address belongs to is shown as its number, its organization, or both with a dot
/// between them; a dash where neither is known.
pub proof fn law_registrant_shows_what_is_known(n: u32, org: Seq<char>)
    ensures
        registrant_of(Some(n), Some(org)) == "AS"@ + numbers::decimal(n as nat) + " · "@ + org,
        registrant_of(Some(n), None) == "AS"@ + numbers::decimal(n as nat),
        registrant_of(None, Some(org)) == org,
        registrant_of(None, None) == "—"@,
{
}

/// One more socket adds its peer if it has an address that no socket before it had, with the
/// name of its process or a dash; otherwise the peers stay as they are.
pub proof fn law_new_address_is_a_new_peer(
    conns: Seq<connections::ConnectionView>,
    c: connections::ConnectionView,
)
    ensures
        ({
            let ip = connections::ip_of(c.peer);
            let known = exists|i: int|
                0 <= i < conns.len() && connections::ip_of((#[trigger] conns[i]).peer) == ip;
            &&& peers_of(seq![]) == Seq::<(Seq<char>, Seq<char>)>::empty()
            &&& ip.len() == 0 || known ==> peers_of(conns.push(c)) == peers_of(conns)
            &&& ip.len() > 0 && !known && c.proc_name.len() > 0 ==> peers_of(conns.push(c)) == peers_of(conns).push(
                (ip, c.proc_name),
            )
            &&& ip.len() > 0 && !known && c.proc_name.len() == 0 ==> peers_of(conns.push(c)) == peers_of(conns).push(
                (ip, "—"@),
            )
        }),
{
    let ip = connections::ip_of(c.peer);
    assert(conns.push(c).drop_last() =~= conns);
    if ip.len() > 0 {
        if exists|i: int| 0 <= i < conns.len() && connections::ip_of((#[trigger] conns[i]).peer) == ip {
            let i = choose|i: int| 0 <= i < conns.len() && connections::ip_of((#[trigger] conns[i]).peer) == ip;
            law_peers_are_complete(conns, i);
        } else if has_peer(peers_of(conns), ip) {
            lemma_peer_has_a_socket(conns, ip);
        }
    }
}

proof fn lemma_peer_has_a_socket(conns: Seq<connections::ConnectionView>, ip: Seq<char>)
    requires
        has_peer(peers_of(conns), ip),
    ensures
        exists|i: int| 0 <= i < conns.len() && connections::ip_of((#[trigger] conns[i]).peer) == ip,
    decreases conns.len(),
{
    let rest = conns.drop_last();
    let all = peers_of(conns);
    let some = peers_of(rest);
    let k = choose|k: int| 0 <= k < all.len() && (#[trigger] all[k]).0 == ip;
    if k < some.len() {
        assert(some[k].0 == ip);
        lemma_peer_has_a_socket(rest, ip);
        let i = choose|i: int| 0 <= i < rest.len() && connections::ip_of((#[trigger] rest[i]).peer) == ip;
        assert(connections::ip_of(conns[i].peer) == ip);
    } else {
        assert(connections::ip_of(conns[conns.len() - 1].peer) == ip);
    }
}

/// The edition of a month is named by its product, the year in four digits and the month in two.
pub proof fn law_url_names_product_and_month(product: Seq<char>, year: i64, month: i64)
    requires
        1000 <= year <= 9999,
        1 <= month <= 12,
    ensures
        exists|y: Seq<char>, m: Seq<char>|
            y.len() == 4 && m.len() == 2 && numbers::signed_of(y) == Some(year) && numbers::signed_of(m) == Some(month)
                && url_of(product, year as int, month as int) == "https://download.db-ip.com/free/dbip-"@ + product + seq![
                '-',
            ] + y + seq!['-'] + m + ".mmdb.gz"@,
{
    let y = numbers::padded(year as int, 4);
    let m = numbers::padded(month as int, 2);
    numbers::law_padding_keeps_the_number(year, 4);
    numbers::law_padding_keeps_the_number(month, 2);
    reveal_with_fuel(numbers::decimal, 4);
    assert(numbers::signed_decimal(year as int).len() <= 4);
    assert(numbers::signed_decimal(month as int).len() <= 2);
    assert(url_of(product, year as int, month as int) == "https://download.db-ip.com/free/dbip-"@ + product + seq!['-'] + y
        + seq!['-'] + m + ".mmdb.gz"@);
}

/// Each step that fails is told with what failed and why.
pub proof fn law_failed_step_is_named(e: Seq<char>)
    ensures
        step_text(FetchStep::Download) + e == "download failed: "@ + e,
        step_text(FetchStep::Read) + e == "read failed: "@ + e,
        unpacked(Err(e)) == Err::<Seq<u8>, Seq<char>>("gunzip failed: "@ + e),
        installable_of(Err(e), Ok(())) == Err::<Seq<u8>, Seq<char>>("gunzip failed: "@ + e),
        installable_of(Ok(seq![]), Err(e)) == Err::<Seq<u8>, Seq<char>>("invalid database: "@ + e),
{
}

} // verus!
