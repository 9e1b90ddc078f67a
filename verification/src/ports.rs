//! A scan of the common TCP ports of a host.
use crate::numbers;
use crate::text;
use vstd::prelude::*;

verus! {

/// The ports that are tried, in order, with the services that use them.
pub open spec fn common() -> Seq<(u16, Seq<char>)> {
    seq![
        (21u16, "ftp"@),
        (22u16, "ssh"@),
        (23u16, "telnet"@),
        (25u16, "smtp"@),
        (53u16, "domain"@),
        (80u16, "http"@),
        (110u16, "pop3"@),
        (139u16, "netbios-ssn"@),
        (143u16, "imap"@),
        (443u16, "https"@),
        (445u16, "microsoft-ds"@),
        (587u16, "submission"@),
        (993u16, "imaps"@),
        (995u16, "pop3s"@),
        (3306u16, "mysql"@),
        (3389u16, "rdp"@),
        (5432u16, "postgresql"@),
        (8080u16, "http-alt"@),
        (8443u16, "https-alt"@),
    ]
}

pub open spec fn port_views(v: Seq<(u16, &'static str)>) -> Seq<(u16, Seq<char>)> {
    v.map_values(|p: (u16, &'static str)| (p.0, p.1@))
}

/// The ports that are tried, in order, with the services that use them.
pub fn common_ports() -> (r: Vec<(u16, &'static str)>)
    ensures
        port_views(r@) == common(),
{
    let r: Vec<(u16, &'static str)> = vec![
        (21, "ftp"),
        (22, "ssh"),
        (23, "telnet"),
        (25, "smtp"),
        (53, "domain"),
        (80, "http"),
        (110, "pop3"),
        (139, "netbios-ssn"),
        (143, "imap"),
        (443, "https"),
        (445, "microsoft-ds"),
        (587, "submission"),
        (993, "imaps"),
        (995, "pop3s"),
        (3306, "mysql"),
        (3389, "rdp"),
        (5432, "postgresql"),
        (8080, "http-alt"),
        (8443, "https-alt"),
    ];
    assert(port_views(r@) =~= common());
    r
}

/// The address of a port of a host.
pub fn port_address(target: &str, port: u16) -> (r: String)
    ensures
        r@ == target@ + seq![':'] + numbers::decimal(port as nat),
{
    let mut out: Vec<char> = Vec::new();
    text::put_str(&mut out, target);
    out.push(':');
    numbers::put_decimal(&mut out, port as u64);
    assert(out@ =~= target@ + seq![':'] + numbers::decimal(port as nat));
    text::string_of(out.as_slice())
}

/// What came of trying a port.
#[derive(Debug, Clone)]
pub enum Probe {
    /// A connection was made.
    Open,
    /// None was made in time.
    Closed,
    /// The host has no address.
    NoAddress,
    /// The host could not be looked up, and why.
    Unresolved(String),
}

pub enum ProbeView {
    Open,
    Closed,
    NoAddress,
    Unresolved(Seq<char>),
}

impl View for Probe {
    type V = ProbeView;

    open spec fn view(&self) -> ProbeView {
        match *self {
            Probe::Open => ProbeView::Open,
            Probe::Closed => ProbeView::Closed,
            Probe::NoAddress => ProbeView::NoAddress,
            Probe::Unresolved(e) => ProbeView::Unresolved(e@),
        }
    }
}

/// A port as it is shown.
#[derive(Debug, Clone)]
pub struct PortRow {
    pub port: u16,
    pub service: String,
    pub state: String,
}

#[verifier::ext_equal]
pub struct PortView {
    pub port: u16,
    pub service: Seq<char>,
    pub state: Seq<char>,
}

impl View for PortRow {
    type V = PortView;

    open spec fn view(&self) -> PortView {
        PortView { port: self.port, service: self.service@, state: self.state@ }
    }
}

/// What a scan does with what came of trying a port: a host that cannot be found ends it.
pub open spec fn row_of(target: Seq<char>, port: u16, service: Seq<char>, probe: ProbeView) -> Result<
    PortView,
    Seq<char>,
> {
    match probe {
        ProbeView::Open => Ok(PortView { port, service, state: "Open"@ }),
        ProbeView::Closed => Ok(PortView { port, service, state: "Closed"@ }),
        ProbeView::NoAddress => Err("couldn't resolve "@ + target),
        ProbeView::Unresolved(e) => Err("couldn't resolve "@ + target + ": "@ + e),
    }
}

pub open spec fn result_view(r: Result<PortRow, String>) -> Result<PortView, Seq<char>> {
    match r {
        Ok(p) => Ok(p@),
        Err(e) => Err(e@),
    }
}

/// The row for a port that was tried, or the error that ends the scan.
pub fn port_row(target: &str, port: u16, service: &str, probe: &Probe) -> (r: Result<PortRow, String>)
    ensures
        result_view(r) == row_of(target@, port, service@, probe@),
{
    match probe {
        Probe::Open => Ok(PortRow { port, service: service.to_string(), state: "Open".to_string() }),
        Probe::Closed => Ok(PortRow { port, service: service.to_string(), state: "Closed".to_string() }),
        Probe::NoAddress => {
            let mut out: Vec<char> = Vec::new();
            text::put_str(&mut out, "couldn't resolve ");
            text::put_str(&mut out, target);
            assert(out@ =~= "couldn't resolve "@ + target@);
            Err(text::string_of(out.as_slice()))
        },
        Probe::Unresolved(e) => {
            let mut out: Vec<char> = Vec::new();
            text::put_str(&mut out, "couldn't resolve ");
            text::put_str(&mut out, target);
            text::put_str(&mut out, ": ");
            text::put_str(&mut out, e.as_str());
            assert(out@ =~= "couldn't resolve "@ + target@ + ": "@ + e@);
            Err(text::string_of(out.as_slice()))
        },
    }
}


/// Nineteen ports are tried, in ascending order.
pub proof fn law_ports_ascend(i: int, j: int)
    requires
        0 <= i < j < common().len(),
    ensures
        common().len() == 19,
        common()[i].0 < common()[j].0,
{
}

/// A port that answers is shown as open and one that does not as closed, under its number and
/// service; a host that cannot be found ends the scan with its name, and with the reason if one
/// is known.
pub proof fn law_ports_are_open_or_closed(target: Seq<char>, port: u16, service: Seq<char>, e: Seq<char>)
    ensures
        row_of(target, port, service, ProbeView::Open) == Ok::<PortView, Seq<char>>(
            PortView { port, service, state: "Open"@ },
        ),
        row_of(target, port, service, ProbeView::Closed) == Ok::<PortView, Seq<char>>(
            PortView { port, service, state: "Closed"@ },
        ),
        row_of(target, port, service, ProbeView::NoAddress) == Err::<PortView, Seq<char>>("couldn't resolve "@ + target),
        row_of(target, port, service, ProbeView::Unresolved(e)) == Err::<PortView, Seq<char>>(
            "couldn't resolve "@ + target + ": "@ + e,
        ),
{
}


/// Each of the services is tried at the port that it is known by.
pub proof fn law_services_have_their_ports()
    ensures
        common().contains((21u16, "ftp"@)),
        common().contains((22u16, "ssh"@)),
        common().contains((23u16, "telnet"@)),
        common().contains((25u16, "smtp"@)),
        common().contains((53u16, "domain"@)),
        common().contains((80u16, "http"@)),
        common().contains((110u16, "pop3"@)),
        common().contains((139u16, "netbios-ssn"@)),
        common().contains((143u16, "imap"@)),
        common().contains((443u16, "https"@)),
        common().contains((445u16, "microsoft-ds"@)),
        common().contains((587u16, "submission"@)),
        common().contains((993u16, "imaps"@)),
        common().contains((995u16, "pop3s"@)),
        common().contains((3306u16, "mysql"@)),
        common().contains((3389u16, "rdp"@)),
        common().contains((5432u16, "postgresql"@)),
        common().contains((8080u16, "http-alt"@)),
        common().contains((8443u16, "https-alt"@)),
{
    assert(common()[0] == (21u16, "ftp"@));
    assert(common()[1] == (22u16, "ssh"@));
    assert(common()[2] == (23u16, "telnet"@));
    assert(common()[3] == (25u16, "smtp"@));
    assert(common()[4] == (53u16, "domain"@));
    assert(common()[5] == (80u16, "http"@));
    assert(common()[6] == (110u16, "pop3"@));
    assert(common()[7] == (139u16, "netbios-ssn"@));
    assert(common()[8] == (143u16, "imap"@));
    assert(common()[9] == (443u16, "https"@));
    assert(common()[10] == (445u16, "microsoft-ds"@));
    assert(common()[11] == (587u16, "submission"@));
    assert(common()[12] == (993u16, "imaps"@));
    assert(common()[13] == (995u16, "pop3s"@));
    assert(common()[14] == (3306u16, "mysql"@));
    assert(common()[15] == (3389u16, "rdp"@));
    assert(common()[16] == (5432u16, "postgresql"@));
    assert(common()[17] == (8080u16, "http-alt"@));
    assert(common()[18] == (8443u16, "https-alt"@));
}

} // verus!
