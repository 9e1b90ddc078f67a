//! The entry that starts the application at login.
use crate::chars;
use crate::paths;
use crate::text;
use vstd::prelude::*;

verus! {

/// The directory of the entry: below `XDG_CONFIG_HOME` if it is set, else below the home
/// directory.
pub open spec fn autostart_dir(xdg: Option<Seq<u8>>, home: Option<Seq<u8>>) -> Option<Seq<u8>> {
    match (xdg, home) {
        (Some(x), _) => Some(paths::entry(x, "autostart"@)),
        (None, Some(h)) => Some(paths::entry(paths::entry(h, ".config"@), "autostart"@)),
        (None, None) => None,
    }
}

/// Where the entry is.
pub open spec fn entry_path(xdg: Option<Seq<u8>>, home: Option<Seq<u8>>) -> Option<Seq<u8>> {
    match autostart_dir(xdg, home) {
        Some(d) => Some(paths::entry(d, "network-monitor.desktop"@)),
        None => None,
    }
}

fn directory(xdg: &Option<Vec<u8>>, home: &Option<Vec<u8>>) -> (r: Option<Vec<u8>>)
    ensures
        paths::opt_bytes(r) == autostart_dir(paths::opt_bytes(*xdg), paths::opt_bytes(*home)),
{
    match (xdg, home) {
        (Some(x), _) => Some(paths::join(x.as_slice(), "autostart")),
        (None, Some(h)) => Some(paths::join(paths::join(h.as_slice(), ".config").as_slice(), "autostart")),
        (None, None) => None,
    }
}

/// Where the entry is, if a place for it is known.
pub fn autostart_path(xdg: &Option<Vec<u8>>, home: &Option<Vec<u8>>) -> (r: Option<Vec<u8>>)
    ensures
        paths::opt_bytes(r) == entry_path(paths::opt_bytes(*xdg), paths::opt_bytes(*home)),
{
    match directory(xdg, home) {
        Some(d) => Some(paths::join(d.as_slice(), "network-monitor.desktop")),
        None => None,
    }
}

/// Whether the application is started at login: there is a place for the entry, and it is there.
pub open spec fn enabled(exists: Option<bool>) -> bool {
    exists == Some(true)
}

/// Whether the application is started at login: from whether there is a file at the place of
/// the entry, if such a place is known.
pub fn is_enabled(exists: Option<bool>) -> (r: bool)
    ensures
        r == enabled(exists),
{
    match exists {
        Some(e) => e,
        None => false,
    }
}

/// The contents of an entry that starts a program.
pub open spec fn entry_text(exe: Seq<char>) -> Seq<char> {
    "[Desktop Entry]\nType=Application\nName=Network Monitor\nComment=Live network bandwidth, connections and history\nExec="@
        + exe + "\nTerminal=false\nCategories=Utility;\nX-GNOME-Autostart-enabled=true\n"@
}

/// What has to be written to start the application at login.
pub struct EnablePlan {
    pub dir: Vec<u8>,
    pub path: Vec<u8>,
    pub contents: String,
}

#[verifier::ext_equal]
pub struct PlanView {
    pub dir: Seq<u8>,
    pub path: Seq<u8>,
    pub contents: Seq<char>,
}

impl View for EnablePlan {
    type V = PlanView;

    open spec fn view(&self) -> PlanView {
        PlanView { dir: self.dir@, path: self.path@, contents: self.contents@ }
    }
}

pub open spec fn text_result(r: Result<String, String>) -> Result<Seq<char>, Seq<char>> {
    match r {
        Ok(s) => Ok(s@),
        Err(e) => Err(e@),
    }
}

pub open spec fn plan_result(r: Result<EnablePlan, String>) -> Result<PlanView, Seq<char>> {
    match r {
        Ok(p) => Ok(p@),
        Err(e) => Err(e@),
    }
}

/// What has to be written for the program that runs, or why that is not known.
pub open spec fn plan_of(
    xdg: Option<Seq<u8>>,
    home: Option<Seq<u8>>,
    exe: Result<Seq<char>, Seq<char>>,
) -> Result<PlanView, Seq<char>> {
    match (autostart_dir(xdg, home), exe) {
        (None, _) => Err("couldn't determine XDG config directory"@),
        (Some(_), Err(e)) => Err(e),
        (Some(dir), Ok(exe)) => Ok(
            PlanView { dir, path: paths::entry(dir, "network-monitor.desktop"@), contents: entry_text(exe) },
        ),
    }
}

/// What has to be written to start the running program at login.
pub fn enable_plan(xdg: &Option<Vec<u8>>, home: &Option<Vec<u8>>, exe: &Result<String, String>) -> (r: Result<
    EnablePlan,
    String,
>)
    ensures
        plan_result(r) == plan_of(paths::opt_bytes(*xdg), paths::opt_bytes(*home), text_result(*exe)),
{
    match directory(xdg, home) {
        None => Err("couldn't determine XDG config directory".to_string()),
        Some(dir) => match exe {
            Err(e) => Err(e.clone()),
            Ok(exe) => {
                let mut out: Vec<char> = Vec::new();
                text::put_str(
                    &mut out,
                    "[Desktop Entry]\nType=Application\nName=Network Monitor\nComment=Live network bandwidth, connections and history\nExec=",
                );
                text::put_str(&mut out, exe.as_str());
                text::put_str(
                    &mut out,
                    "\nTerminal=false\nCategories=Utility;\nX-GNOME-Autostart-enabled=true\n",
                );
                assert(out@ =~= entry_text(exe@));
                let path: Vec<u8> = paths::join(dir.as_slice(), "network-monitor.desktop");
                Ok(EnablePlan { dir, path, contents: text::string_of(out.as_slice()) })
            },
        },
    }
}

/// The file that has to be removed: the entry, if it is there.
pub open spec fn removal_of(xdg: Option<Seq<u8>>, home: Option<Seq<u8>>, exists: Option<bool>) -> Option<Seq<u8>> {
    if enabled(exists) {
        entry_path(xdg, home)
    } else {
        None
    }
}

/// The file that has to be removed so that the application is not started at login, if there
/// is one: from whether there is a file at the place of the entry, if such a place is known.
pub fn disable_plan(xdg: &Option<Vec<u8>>, home: &Option<Vec<u8>>, exists: Option<bool>) -> (r: Option<Vec<u8>>)
    ensures
        paths::opt_bytes(r) == removal_of(paths::opt_bytes(*xdg), paths::opt_bytes(*home), exists),
{
    if is_enabled(exists) {
        autostart_path(xdg, home)
    } else {
        None
    }
}

/// The entry that is written is the one that is looked for.
pub proof fn law_enabled_where_it_is_looked_for(
    xdg: Option<Seq<u8>>,
    home: Option<Seq<u8>>,
    exe: Result<Seq<char>, Seq<char>>,
)
    ensures
        plan_of(xdg, home, exe) matches Ok(p) ==> entry_path(xdg, home) == Some(p.path),
        exe is Ok && entry_path(xdg, home) is Some ==> plan_of(xdg, home, exe) is Ok,
{
}

/// Whether the entry is among the files that there are, if a place for it is known.
pub open spec fn entry_among(xdg: Option<Seq<u8>>, home: Option<Seq<u8>>, files: Set<Seq<u8>>) -> Option<bool> {
    match entry_path(xdg, home) {
        Some(p) => Some(files.contains(p)),
        None => None,
    }
}

/// A request to start a program at login, or not to.
pub enum Request {
    Enable(Result<Seq<char>, Seq<char>>),
    Disable,
}

/// Whether a request can be met: only one to enable can fail.
pub open spec fn can_be_met(xdg: Option<Seq<u8>>, home: Option<Seq<u8>>, request: Request) -> bool {
    match request {
        Request::Enable(exe) => plan_of(xdg, home, exe) is Ok,
        Request::Disable => true,
    }
}

/// The files that there are once a request has been met: what it writes is there, what it
/// removes is not. One that cannot be met changes none.
pub open spec fn files_after(
    xdg: Option<Seq<u8>>,
    home: Option<Seq<u8>>,
    files: Set<Seq<u8>>,
    request: Request,
) -> Set<Seq<u8>> {
    match request {
        Request::Enable(exe) => match plan_of(xdg, home, exe) {
            Ok(p) => files.insert(p.path),
            Err(_) => files,
        },
        Request::Disable => match removal_of(xdg, home, entry_among(xdg, home, files)) {
            Some(p) => files.remove(p),
            None => files,
        },
    }
}

/// The files that there are after several requests, one after the other.
pub open spec fn files_after_all(
    xdg: Option<Seq<u8>>,
    home: Option<Seq<u8>>,
    files: Set<Seq<u8>>,
    requests: Seq<Request>,
) -> Set<Seq<u8>>
    decreases requests.len(),
{
    if requests.len() == 0 {
        files
    } else {
        files_after(xdg, home, files_after_all(xdg, home, files, requests.drop_last()), requests.last())
    }
}

/// The last request decides whether the application is started at login, whatever was there
/// and was asked for before it; before the first request it is started if the entry is there.
pub proof fn law_last_request_decides(
    xdg: Option<Seq<u8>>,
    home: Option<Seq<u8>>,
    files: Set<Seq<u8>>,
    requests: Seq<Request>,
)
    requires
        requests.len() > 0 ==> can_be_met(xdg, home, requests.last()),
    ensures
        enabled(entry_among(xdg, home, files_after_all(xdg, home, files, requests))) == if requests.len() > 0 {
            requests.last() is Enable
        } else {
            entry_path(xdg, home) is Some && files.contains(entry_path(xdg, home)->Some_0)
        },
{
}

/// A request that is made again changes no file.
pub proof fn law_repeated_request_changes_nothing(
    xdg: Option<Seq<u8>>,
    home: Option<Seq<u8>>,
    files: Set<Seq<u8>>,
    request: Request,
)
    ensures
        ({
            let once = files_after(xdg, home, files, request);
            files_after(xdg, home, once, request) == once
        }),
{
    let once = files_after(xdg, home, files, request);
    assert(files_after(xdg, home, once, request) =~= once);
}

/// No request touches any file but the entry.
pub proof fn law_only_the_entry_changes(
    xdg: Option<Seq<u8>>,
    home: Option<Seq<u8>>,
    files: Set<Seq<u8>>,
    request: Request,
    other: Seq<u8>,
)
    requires
        entry_path(xdg, home) != Some(other),
    ensures
        files_after(xdg, home, files, request).contains(other) == files.contains(other),
{
}


/// The entry stands in the directory `autostart` below the configuration directory that is set,
/// whatever the home directory is; else below `.config` in the home directory; and nowhere where
/// neither is known.
pub proof fn law_configured_directory_comes_first(xdg: Seq<u8>, home: Option<Seq<u8>>, h: Seq<u8>)
    ensures
        entry_path(Some(xdg), home) == Some(
            paths::entry(paths::entry(xdg, "autostart"@), "network-monitor.desktop"@),
        ),
        entry_path(None, Some(h)) == Some(
            paths::entry(
                paths::entry(paths::entry(h, ".config"@), "autostart"@),
                "network-monitor.desktop"@,
            ),
        ),
        entry_path(None, None) is None,
{
}

/// The entry that is written starts the program that runs, and is one for an application.
pub proof fn law_entry_starts_the_program(
    xdg: Option<Seq<u8>>,
    home: Option<Seq<u8>>,
    exe: Seq<char>,
    e: Seq<char>,
)
    requires
        entry_path(xdg, home) is Some,
    ensures
        plan_of(xdg, home, Ok(exe)) matches Ok(p) && chars::holds_text(p.contents, "Exec="@ + exe + seq!['\n'])
            && chars::starts(p.contents, "[Desktop Entry]\nType=Application\n"@) && Some(p.dir) == autostart_dir(xdg, home),
        plan_of(xdg, home, Err(e)) == Err::<PlanView, Seq<char>>(e),
        plan_of(None, None, Ok(exe)) == Err::<PlanView, Seq<char>>("couldn't determine XDG config directory"@),
{
    reveal_strlit("Exec=");
    reveal_strlit("[Desktop Entry]\nType=Application\n");
    reveal_strlit(
        "[Desktop Entry]\nType=Application\nName=Network Monitor\nComment=Live network bandwidth, connections and history\nExec=",
    );
    reveal_strlit("\nTerminal=false\nCategories=Utility;\nX-GNOME-Autostart-enabled=true\n");
    let front =
        "[Desktop Entry]\nType=Application\nName=Network Monitor\nComment=Live network bandwidth, connections and history\nExec="@;
    let back = "\nTerminal=false\nCategories=Utility;\nX-GNOME-Autostart-enabled=true\n"@;
    let t = entry_text(exe);
    let line = "Exec="@ + exe + seq!['\n'];
    let a = front.take(front.len() - 5);
    let b = back.skip(1);
    assert(front =~= a + "Exec="@);
    assert(back =~= seq!['\n'] + b);
    assert(t =~= a + line + b);
    chars::law_held_text_stands_somewhere(t, line);
    let head = "[Desktop Entry]\nType=Application\n"@;
    assert(t.take(head.len() as int) =~= head) by {
        assert forall|i: int| 0 <= i < head.len() implies t[i] == head[i] by {
            assert(t[i] == front[i]);
        }
    }
}

} // verus!
