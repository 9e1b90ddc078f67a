//! VPN profiles, from what `nmcli` prints.
use crate::chars;
use crate::command;
use crate::command::CommandOutput;
use crate::text;
use crate::wifi;
use vstd::prelude::*;

verus! {

#[derive(Debug, Clone)]
pub struct VpnProfile {
    pub name: String,
    pub vpn_type: String,
    pub active: bool,
}

#[verifier::ext_equal]
pub struct ProfileView {
    pub name: Seq<char>,
    pub vpn_type: Seq<char>,
    pub active: bool,
}

impl View for VpnProfile {
    type V = ProfileView;

    open spec fn view(&self) -> ProfileView {
        ProfileView { name: self.name@, vpn_type: self.vpn_type@, active: self.active }
    }
}

pub open spec fn profiles(v: Seq<VpnProfile>) -> Seq<ProfileView> {
    v.map_values(|p: VpnProfile| p@)
}

/// A connection of NetworkManager: its name and its type.
pub open spec fn conn_view(c: (String, String)) -> (Seq<char>, Seq<char>) {
    (c.0@, c.1@)
}

pub open spec fn conn_views(v: Seq<(String, String)>) -> Seq<(Seq<char>, Seq<char>)> {
    v.map_values(|c: (String, String)| conn_view(c))
}

pub open spec fn is_vpn(ty: Seq<char>) -> bool {
    ty == "vpn"@ || chars::holds_text(ty, "wireguard"@)
}

/// Whether a connection of some type is a VPN.
pub fn is_vpn_type(ty: &str) -> (r: bool)
    ensures
        r == is_vpn(ty@),
{
    let cs: Vec<char> = text::chars_of(ty);
    text::equals(cs.as_slice(), "vpn") || text::contains(cs.as_slice(), "wireguard")
}

/// The connections of the lines that have a name and a type.
pub open spec fn conns_in(lines: Seq<Seq<char>>) -> Seq<(Seq<char>, Seq<char>)>
    decreases lines.len(),
{
    if lines.len() == 0 {
        seq![]
    } else {
        let f = wifi::fields_of(lines.last());
        if f.len() >= 2 {
            conns_in(lines.drop_last()).push((f[0], f[1]))
        } else {
            conns_in(lines.drop_last())
        }
    }
}

pub open spec fn conns_of(run: Option<command::CommandView>) -> Seq<(Seq<char>, Seq<char>)> {
    match command::stdout_of(run) {
        Some(output) => conns_in(chars::lines_of(output)),
        None => seq![],
    }
}

/// The arguments of `nmcli` for all connections, or for those that are up.
pub fn connection_args(active_only: bool) -> (r: Vec<&'static str>)
    ensures
        active_only ==> r@ == seq!["-t", "-f", "NAME,TYPE", "connection", "show", "--active"],
        !active_only ==> r@ == seq!["-t", "-f", "NAME,TYPE", "connection", "show"],
{
    if active_only {
        vec!["-t", "-f", "NAME,TYPE", "connection", "show", "--active"]
    } else {
        vec!["-t", "-f", "NAME,TYPE", "connection", "show"]
    }
}

/// The connections that a run of `nmcli` listed; none where it could not be started or failed.
pub fn nmcli_connections(run: &Option<CommandOutput>) -> (r: Vec<(String, String)>)
    ensures
        conn_views(r@) == conns_of(command::run_view(*run)),
{
    let mut out: Vec<(String, String)> = Vec::new();
    match command::successful_stdout(run) {
        Some(output) => {
            let cs: Vec<char> = text::chars_of(output);
            let lines: Vec<&[char]> = text::lines(cs.as_slice());
            let ghost all = chars::lines_of(output@);
            assert(conn_views(out@) =~= conns_in(all.take(0)));
            let mut i: usize = 0;
            while i < lines.len()
                invariant
                    i <= lines@.len(),
                    chars::texts(lines@) == all,
                    conn_views(out@) == conns_in(all.take(i as int)),
                decreases lines.len() - i,
            {
                let ghost before = conn_views(out@);
                proof {
                    assert(all[i as int] == lines@[i as int]@);
                    assert(all.take(i + 1).drop_last() =~= all.take(i as int));
                }
                let f: Vec<String> = wifi::parse_nmcli_terse_line(text::string_of(lines[i]).as_str());
                assert(chars::strings(f@).len() == f@.len());
                if f.len() >= 2 {
                    proof {
                        assert(chars::strings(f@)[0] == f@[0]@);
                        assert(chars::strings(f@)[1] == f@[1]@);
                    }
                    out.push((f[0].clone(), f[1].clone()));
                    assert(conn_views(out@) =~= before.push((f@[0]@, f@[1]@)));
                }
                i += 1;
            }
            assert(all.take(all.len() as int) =~= all);
        },
        None => {
            assert(conn_views(out@) =~= seq![]);
        },
    }
    out
}

/// Whether a VPN of some name is among the connections that are up.
pub open spec fn is_up(active: Seq<(Seq<char>, Seq<char>)>, name: Seq<char>) -> bool {
    exists|i: int| 0 <= i < active.len() && (#[trigger] active[i]).0 == name && is_vpn(active[i].1)
}

/// The VPNs among all connections, each with whether it is up.
pub open spec fn profiles_of(active: Seq<(Seq<char>, Seq<char>)>, all: Seq<(Seq<char>, Seq<char>)>) -> Seq<ProfileView>
    decreases all.len(),
{
    if all.len() == 0 {
        seq![]
    } else {
        let rest = profiles_of(active, all.drop_last());
        let (name, vpn_type) = all.last();
        if is_vpn(vpn_type) {
            rest.push(ProfileView { name, vpn_type, active: is_up(active, name) })
        } else {
            rest
        }
    }
}

/// Only VPNs have a profile, each stands among all connections, and it is active exactly if a
/// VPN of its name is up.
pub proof fn law_profiles_are_vpns(active: Seq<(Seq<char>, Seq<char>)>, all: Seq<(Seq<char>, Seq<char>)>, i: int)
    requires
        0 <= i < profiles_of(active, all).len(),
    ensures
        is_vpn(profiles_of(active, all)[i].vpn_type),
        all.contains((profiles_of(active, all)[i].name, profiles_of(active, all)[i].vpn_type)),
        profiles_of(active, all)[i].active == is_up(active, profiles_of(active, all)[i].name),
    decreases all.len(),
{
    let rest = all.drop_last();
    let some = profiles_of(active, rest);
    let p = profiles_of(active, all)[i];
    if i < some.len() {
        assert(p == some[i]);
        law_profiles_are_vpns(active, rest, i);
        let k = choose|k: int| 0 <= k < rest.len() && rest[k] == (p.name, p.vpn_type);
        assert(all[k] == (p.name, p.vpn_type));
    } else {
        assert(all[all.len() - 1] == (p.name, p.vpn_type));
    }
}

fn up(active: &[(String, String)], name: &String) -> (r: bool)
    ensures
        r == is_up(conn_views(active@), name@),
{
    let ghost views = conn_views(active@);
    let mut i: usize = 0;
    while i < active.len()
        invariant
            i <= active@.len(),
            views == conn_views(active@),
            forall|j: int| 0 <= j < i ==> (#[trigger] views[j]).0 != name@ || !is_vpn(views[j].1),
        decreases active.len() - i,
    {
        assert(views[i as int] == conn_view(active@[i as int]));
        if text::same_str(active[i].0.as_str(), name.as_str()) && is_vpn_type(active[i].1.as_str()) {
            return true;
        }
        i += 1;
    }
    false
}

/// The VPN profiles among all connections, from the connections that are up and all of them.
pub fn build_vpn_profiles(active_conns: &[(String, String)], all_conns: &[(String, String)]) -> (r: Vec<VpnProfile>)
    ensures
        profiles(r@) == profiles_of(conn_views(active_conns@), conn_views(all_conns@)),
{
    let ghost active = conn_views(active_conns@);
    let ghost all = conn_views(all_conns@);
    let mut out: Vec<VpnProfile> = Vec::new();
    assert(profiles(out@) =~= profiles_of(active, all.take(0)));
    let mut i: usize = 0;
    while i < all_conns.len()
        invariant
            i <= all_conns@.len(),
            active == conn_views(active_conns@),
            all == conn_views(all_conns@),
            profiles(out@) == profiles_of(active, all.take(i as int)),
        decreases all_conns.len() - i,
    {
        let ghost before = profiles(out@);
        proof {
            assert(all[i as int] == conn_view(all_conns@[i as int]));
            assert(all.take(i + 1).drop_last() =~= all.take(i as int));
        }
        let c: &(String, String) = &all_conns[i];
        if is_vpn_type(c.1.as_str()) {
            let p: VpnProfile = VpnProfile { name: c.0.clone(), vpn_type: c.1.clone(), active: up(active_conns, &c.0) };
            let ghost pv = p@;
            out.push(p);
            assert(profiles(out@) =~= before.push(pv));
        }
        i += 1;
    }
    assert(all.take(all.len() as int) =~= all);
    out
}

/// The VPN profiles that NetworkManager knows, from two runs of `nmcli connection show`: one
/// for the connections that are up, one for all.
pub fn list_vpn_profiles(active: &Option<CommandOutput>, all: &Option<CommandOutput>) -> (r: Vec<VpnProfile>)
    ensures
        profiles(r@) == profiles_of(conns_of(command::run_view(*active)), conns_of(command::run_view(*all))),
{
    let a: Vec<(String, String)> = nmcli_connections(active);
    let b: Vec<(String, String)> = nmcli_connections(all);
    build_vpn_profiles(a.as_slice(), b.as_slice())
}

pub open spec fn result_text(r: Result<(), String>) -> Result<(), Seq<char>> {
    match r {
        Ok(_) => Ok(()),
        Err(e) => Err(e@),
    }
}

/// What came of bringing a connection up or down: the error is that of starting `nmcli`, or
/// what it complained of.
pub open spec fn change_of(run: Result<command::CommandView, Seq<char>>) -> Result<(), Seq<char>> {
    match run {
        Ok(o) => if o.code == Some(0i32) {
            Ok(())
        } else {
            Err(chars::trimmed(o.stderr))
        },
        Err(e) => Err(e),
    }
}

/// What came of a run of `nmcli connection up` or `nmcli connection down`.
pub fn change_result(run: &Result<CommandOutput, String>) -> (r: Result<(), String>)
    ensures
        result_text(r) == change_of(command::start_view(*run)),
{
    match run {
        Ok(o) => {
            if o.succeeded() {
                Ok(())
            } else {
                let cs: Vec<char> = text::chars_of(o.stderr.as_str());
                Err(text::string_of(text::trim(cs.as_slice())))
            }
        },
        Err(e) => Err(e.clone()),
    }
}


/// The type `vpn` and every type that names WireGuard is a VPN, and no other type is.
pub proof fn law_vpn_types(front: Seq<char>, back: Seq<char>, other: Seq<char>)
    ensures
        is_vpn("vpn"@),
        is_vpn(front + "wireguard"@ + back),
        is_vpn(other) && other != "vpn"@ ==> exists|a: Seq<char>, b: Seq<char>| other == #[trigger] (a + "wireguard"@ + b),
{
    chars::law_held_text_stands_somewhere(front + "wireguard"@ + back, "wireguard"@);
    chars::law_held_text_stands_somewhere(other, "wireguard"@);
}

/// Each line with a name and a type is a connection, and no other line is one.
pub proof fn law_each_line_has_its_connection(lines: Seq<Seq<char>>, line: Seq<char>)
    ensures
        conns_in(seq![]) == Seq::<(Seq<char>, Seq<char>)>::empty(),
        wifi::fields_of(line).len() < 2 ==> conns_in(lines.push(line)) == conns_in(lines),
        wifi::fields_of(line).len() >= 2 ==> conns_in(lines.push(line)) == conns_in(lines).push(
            (wifi::fields_of(line)[0], wifi::fields_of(line)[1]),
        ),
{
    assert(lines.push(line).drop_last() =~= lines);
}

/// Each VPN among all connections has one profile with its name and type, in their order, which
/// is active if a VPN of that name is among those that are up; any other connection has none.
pub proof fn law_each_vpn_has_its_profile(
    active: Seq<(Seq<char>, Seq<char>)>,
    all: Seq<(Seq<char>, Seq<char>)>,
    name: Seq<char>,
    ty: Seq<char>,
)
    ensures
        profiles_of(active, seq![]) == Seq::<ProfileView>::empty(),
        is_vpn(ty) ==> profiles_of(active, all.push((name, ty))) == profiles_of(active, all).push(
            ProfileView {
                name,
                vpn_type: ty,
                active: exists|i: int| 0 <= i < active.len() && (#[trigger] active[i]).0 == name && is_vpn(active[i].1),
            },
        ),
        !is_vpn(ty) ==> profiles_of(active, all.push((name, ty))) == profiles_of(active, all),
{
    assert(all.push((name, ty)).drop_last() =~= all);
}

/// Bringing a connection up or down went well exactly where the command ended with exit code
/// zero; the error is otherwise what it complained of, trimmed, or why it could not be started.
pub proof fn law_change_fails_with_its_reason(code: Option<i32>, stdout: Seq<char>, reason: Seq<char>, back: Seq<char>)
    requires
        chars::is_trim(reason),
        chars::is_blank(back),
    ensures
        ({
            let run = command::CommandView { code, stdout, stderr: reason + back };
            &&& change_of(Ok(run)) is Ok <==> code == Some(0i32)
            &&& code != Some(0i32) ==> change_of(Ok(run)) == Err::<(), Seq<char>>(reason)
            &&& change_of(Err(reason)) == Err::<(), Seq<char>>(reason)
        }),
{
    let none: Seq<char> = seq![];
    chars::law_trimming_keeps_the_inside(none, reason, back);
    assert(none + reason + back =~= reason + back);
}


/// The connections are those of the lines that a successful run printed; without such a run
/// there are none.
pub proof fn law_connections_need_a_successful_run(o: command::CommandView)
    ensures
        conns_of(None) == Seq::<(Seq<char>, Seq<char>)>::empty(),
        o.code == Some(0i32) ==> conns_of(Some(o)) == conns_in(chars::lines_of(o.stdout)),
        o.code != Some(0i32) ==> conns_of(Some(o)) == Seq::<(Seq<char>, Seq<char>)>::empty(),
{
}

} // verus!
