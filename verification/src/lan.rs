//! The devices in the neighbour table of the kernel.
use crate::chars;
use crate::command;
use crate::command::CommandOutput;
use crate::text;
use vstd::prelude::*;

verus! {

#[derive(Debug, Clone)]
pub struct LanDevice {
    pub ip: String,
    pub mac: Option<String>,
    pub iface: Option<String>,
    pub state: String,
}

#[verifier::ext_equal]
pub struct LanView {
    pub ip: Seq<char>,
    pub mac: Option<Seq<char>>,
    pub iface: Option<Seq<char>>,
    pub state: Seq<char>,
}

impl View for LanDevice {
    type V = LanView;

    open spec fn view(&self) -> LanView {
        LanView {
            ip: self.ip@,
            mac: chars::opt_text(self.mac),
            iface: chars::opt_text(self.iface),
            state: self.state@,
        }
    }
}

pub open spec fn devices(v: Seq<LanDevice>) -> Seq<LanView> {
    v.map_values(|d: LanDevice| d@)
}

/// The device with what the words say that follow its address: `dev` and `lladdr` are followed
/// by the interface and the hardware address.
pub open spec fn with_words(d: LanView, words: Seq<Seq<char>>) -> LanView
    decreases words.len(),
{
    if words.len() == 0 {
        d
    } else if words[0] == "dev"@ && words.len() > 1 {
        with_words(LanView { iface: Some(words[1]), ..d }, words.skip(2))
    } else if words[0] == "lladdr"@ && words.len() > 1 {
        with_words(LanView { mac: Some(words[1]), ..d }, words.skip(2))
    } else {
        with_words(d, words.skip(1))
    }
}

/// The device of a line: its address is the first word, its state the last.
pub open spec fn device_of(line: Seq<char>) -> Option<LanView> {
    let words = chars::words_of(line);
    if words.len() == 0 {
        None
    } else {
        Some(with_words(LanView { ip: words[0], mac: None, iface: None, state: words.last() }, words.skip(1)))
    }
}

pub open spec fn opt_device(d: Option<LanDevice>) -> Option<LanView> {
    match d {
        Some(d) => Some(d@),
        None => None,
    }
}

fn neighbor(line: &[char]) -> (r: Option<LanDevice>)
    ensures
        opt_device(r) == device_of(line@),
{
    let tokens: Vec<&[char]> = text::words(line);
    let ghost all = chars::words_of(line@);
    if tokens.len() == 0 {
        return None;
    }
    proof {
        assert(all[0] == tokens@[0]@);
        assert(all.last() == tokens@.last()@);
    }
    let mut d: LanDevice = LanDevice {
        ip: text::string_of(tokens[0]),
        mac: None,
        iface: None,
        state: text::string_of(tokens[tokens.len() - 1]),
    };
    let mut i: usize = 1;
    while i < tokens.len()
        invariant
            1 <= i <= tokens@.len(),
            all == chars::words_of(line@),
            chars::texts(tokens@) == all,
            device_of(line@) == Some(with_words(d@, all.skip(i as int))),
        decreases tokens.len() - i,
    {
        proof {
            assert(all[i as int] == tokens@[i as int]@);
            assert(all.skip(i as int).skip(1) =~= all.skip(i + 1));
            if i + 1 < tokens@.len() {
                assert(all[i + 1] == tokens@[i + 1]@);
                assert(all.skip(i as int).skip(2) =~= all.skip(i + 2));
            }
        }
        if i + 1 < tokens.len() && text::equals(tokens[i], "dev") {
            d.iface = Some(text::string_of(tokens[i + 1]));
            i += 2;
        } else if i + 1 < tokens.len() && text::equals(tokens[i], "lladdr") {
            d.mac = Some(text::string_of(tokens[i + 1]));
            i += 2;
        } else {
            i += 1;
        }
    }
    Some(d)
}

/// Reads a line of `ip neighbor show`.
pub fn parse_neighbor_line(line: &str) -> (r: Option<LanDevice>)
    ensures
        opt_device(r) == device_of(line@),
{
    let cs: Vec<char> = text::chars_of(line);
    neighbor(cs.as_slice())
}

pub open spec fn devices_in(lines: Seq<Seq<char>>) -> Seq<LanView>
    decreases lines.len(),
{
    if lines.len() == 0 {
        seq![]
    } else {
        match device_of(lines.last()) {
            Some(d) => devices_in(lines.drop_last()).push(d),
            None => devices_in(lines.drop_last()),
        }
    }
}

pub open spec fn devices_of(run: Option<command::CommandView>) -> Seq<LanView> {
    match command::stdout_of(run) {
        Some(output) => devices_in(chars::lines_of(output)),
        None => seq![],
    }
}

/// The devices that a run of `ip neighbor show` listed: those the machine has dealt with, none
/// are searched for.
pub fn list_lan_devices(run: &Option<CommandOutput>) -> (r: Vec<LanDevice>)
    ensures
        devices(r@) == devices_of(command::run_view(*run)),
{
    let mut out: Vec<LanDevice> = Vec::new();
    match command::successful_stdout(run) {
        Some(output) => {
            let cs: Vec<char> = text::chars_of(output);
            let lines: Vec<&[char]> = text::lines(cs.as_slice());
            let ghost all = chars::lines_of(output@);
            assert(devices(out@) =~= devices_in(all.take(0)));
            let mut i: usize = 0;
            while i < lines.len()
                invariant
                    i <= lines@.len(),
                    chars::texts(lines@) == all,
                    devices(out@) == devices_in(all.take(i as int)),
                decreases lines.len() - i,
            {
                let ghost before = devices(out@);
                proof {
                    assert(all[i as int] == lines@[i as int]@);
                    assert(all.take(i + 1).drop_last() =~= all.take(i as int));
                }
                if let Some(d) = neighbor(lines[i]) {
                    let ghost dv = d@;
                    out.push(d);
                    assert(devices(out@) =~= before.push(dv));
                }
                i += 1;
            }
            assert(all.take(all.len() as int) =~= all);
        },
        None => {
            assert(devices(out@) =~= seq![]);
        },
    }
    out
}

/// A device as it is shown.
#[derive(Debug, Clone)]
pub struct LanRow {
    pub ip: String,
    pub mac: String,
    pub iface: String,
    pub state: String,
}

#[verifier::ext_equal]
pub struct LanRowView {
    pub ip: Seq<char>,
    pub mac: Seq<char>,
    pub iface: Seq<char>,
    pub state: Seq<char>,
}

impl View for LanRow {
    type V = LanRowView;

    open spec fn view(&self) -> LanRowView {
        LanRowView { ip: self.ip@, mac: self.mac@, iface: self.iface@, state: self.state@ }
    }
}

pub open spec fn row_of(d: LanView) -> LanRowView {
    LanRowView {
        ip: d.ip,
        mac: crate::format::or_unknown(d.mac),
        iface: crate::format::or_unknown(d.iface),
        state: d.state,
    }
}

pub fn lan_row(d: &LanDevice) -> (r: LanRow)
    ensures
        r@ == row_of(d@),
{
    LanRow {
        ip: d.ip.clone(),
        mac: crate::format::shown(&d.mac),
        iface: crate::format::shown(&d.iface),
        state: d.state.clone(),
    }
}


/// The address of a device is the first word of its line, its state the last; the interface is
/// the word behind `dev`, the hardware address the one behind `lladdr`, where they are told.
pub proof fn law_device_line_is_read(
    line: Seq<char>,
    ip: Seq<char>,
    iface: Seq<char>,
    mac: Seq<char>,
    state: Seq<char>,
)
    ensures
        chars::words_of(line) == seq![ip, "dev"@, iface, "lladdr"@, mac, state] ==> device_of(line) == Some(
            LanView { ip, mac: Some(mac), iface: Some(iface), state },
        ),
        chars::words_of(line) == seq![ip, "lladdr"@, mac, "dev"@, iface, state] ==> device_of(line) == Some(
            LanView { ip, mac: Some(mac), iface: Some(iface), state },
        ),
        chars::words_of(line) == seq![ip, "dev"@, iface, state] ==> device_of(line) == Some(
            LanView { ip, mac: None, iface: Some(iface), state },
        ),
        chars::words_of(line) == seq![ip, "lladdr"@, mac, state] ==> device_of(line) == Some(
            LanView { ip, mac: Some(mac), iface: None, state },
        ),
        chars::words_of(line).len() == 0 <==> device_of(line) is None,
{
    reveal_strlit("dev");
    reveal_strlit("lladdr");
    reveal_with_fuel(with_words, 5);
    let a = seq![ip, "dev"@, iface, "lladdr"@, mac, state];
    assert(a.skip(1) =~= seq!["dev"@, iface, "lladdr"@, mac, state]);
    assert(a.skip(1).skip(2) =~= seq!["lladdr"@, mac, state]);
    assert(a.skip(1).skip(2).skip(2) =~= seq![state]);
    assert(seq![state].skip(1) =~= seq![]);
    let b = seq![ip, "lladdr"@, mac, "dev"@, iface, state];
    assert(b.skip(1) =~= seq!["lladdr"@, mac, "dev"@, iface, state]);
    assert(b.skip(1).skip(2) =~= seq!["dev"@, iface, state]);
    assert(b.skip(1).skip(2).skip(2) =~= seq![state]);
    let c = seq![ip, "dev"@, iface, state];
    assert(c.skip(1) =~= seq!["dev"@, iface, state]);
    assert(c.skip(1).skip(2) =~= seq![state]);
    let d = seq![ip, "lladdr"@, mac, state];
    assert(d.skip(1) =~= seq!["lladdr"@, mac, state]);
    assert(d.skip(1).skip(2) =~= seq![state]);
    assert("dev"@.len() == 3 && "lladdr"@.len() == 6);
}

/// A word that is neither `dev` nor `lladdr` says nothing, and neither does one of these at the
/// very end; address and state never come from the words between.
pub proof fn law_other_words_say_nothing(d: LanView, word: Seq<char>, rest: Seq<Seq<char>>)
    requires
        (word != "dev"@ && word != "lladdr"@) || rest.len() == 0,
    ensures
        with_words(d, seq![word] + rest) == with_words(d, rest),
        with_words(d, rest).ip == d.ip,
        with_words(d, rest).state == d.state,
{
    assert((seq![word] + rest).skip(1) =~= rest);
    lemma_ends_stay(d, rest);
}

/// A key word is followed by what it names, whatever that is, and the words behind are read on.
pub proof fn law_key_words_name_what_follows(d: LanView, value: Seq<char>, rest: Seq<Seq<char>>)
    ensures
        with_words(d, seq!["dev"@, value] + rest) == with_words(LanView { iface: Some(value), ..d }, rest),
        with_words(d, seq!["lladdr"@, value] + rest) == with_words(LanView { mac: Some(value), ..d }, rest),
        with_words(d, seq![]) == d,
{
    reveal_strlit("dev");
    reveal_strlit("lladdr");
    assert("dev"@.len() == 3 && "lladdr"@.len() == 6);
    assert((seq!["dev"@, value] + rest).skip(2) =~= rest);
    assert((seq!["lladdr"@, value] + rest).skip(2) =~= rest);
}

proof fn lemma_ends_stay(d: LanView, words: Seq<Seq<char>>)
    ensures
        with_words(d, words).ip == d.ip,
        with_words(d, words).state == d.state,
    decreases words.len(),
{
    if words.len() == 0 {
    } else if words[0] == "dev"@ && words.len() > 1 {
        lemma_ends_stay(LanView { iface: Some(words[1]), ..d }, words.skip(2));
    } else if words[0] == "lladdr"@ && words.len() > 1 {
        lemma_ends_stay(LanView { mac: Some(words[1]), ..d }, words.skip(2));
    } else {
        lemma_ends_stay(d, words.skip(1));
    }
}

/// Each line with a device adds it, in the order of the lines; and a device is shown with a dash
/// for what is not known.
pub proof fn law_each_line_has_its_device(lines: Seq<Seq<char>>, line: Seq<char>, d: LanView)
    ensures
        devices_in(seq![]) == Seq::<LanView>::empty(),
        device_of(line) is None ==> devices_in(lines.push(line)) == devices_in(lines),
        device_of(line) matches Some(x) ==> devices_in(lines.push(line)) == devices_in(lines).push(x),
        row_of(d).ip == d.ip && row_of(d).state == d.state,
        d.mac is None ==> row_of(d).mac == "—"@,
        d.iface is None ==> row_of(d).iface == "—"@,
        d.mac matches Some(mac) ==> row_of(d).mac == mac,
        d.iface matches Some(iface) ==> row_of(d).iface == iface,
{
    assert(lines.push(line).drop_last() =~= lines);
}


/// The devices are those of the lines that a successful run printed; without such a run there
/// are none.
pub proof fn law_devices_need_a_successful_run(o: command::CommandView)
    ensures
        devices_of(None) == Seq::<LanView>::empty(),
        o.code == Some(0i32) ==> devices_of(Some(o)) == devices_in(chars::lines_of(o.stdout)),
        o.code != Some(0i32) ==> devices_of(Some(o)) == Seq::<LanView>::empty(),
{
}

} // verus!
