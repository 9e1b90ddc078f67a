//! What the poll loop decides from tick to tick.
use crate::alerts;
use crate::alerts::{AlertLog, AlertRow, Severity};
use crate::chars;
use crate::text;
use vstd::prelude::*;

verus! {

/// How many milliseconds there are between two ticks.
pub const UPDATE_MS: u64 = 2000;

/// How many seconds there are between two measurements of the latency.
pub const LATENCY_INTERVAL_S: u64 = 5;

/// After how many ticks old readings are dropped again: after about an hour.
pub const PRUNE_EVERY_TICKS: u64 = 3_600_000 / UPDATE_MS;

/// A sample that exceeded its baseline: whether by much, and both rates as they are shown.
#[derive(Debug, Clone)]
pub struct Spike {
    pub critical: bool,
    pub value: String,
    pub mean: String,
}

#[verifier::ext_equal]
pub struct SpikeView {
    pub critical: bool,
    pub value: Seq<char>,
    pub mean: Seq<char>,
}

pub open spec fn spike_view(s: Option<Spike>) -> Option<SpikeView> {
    match s {
        Some(s) => Some(SpikeView { critical: s.critical, value: s.value@, mean: s.mean@ }),
        None => None,
    }
}

/// A message on the desktop.
#[derive(Debug, Clone)]
pub struct Notification {
    pub title: String,
    pub body: String,
}

pub open spec fn notification_view(n: Option<Notification>) -> Option<(Seq<char>, Seq<char>)> {
    match n {
        Some(n) => Some((n.title@, n.body@)),
        None => None,
    }
}

#[verifier::ext_equal]
pub struct MonitorView {
    pub tick: u64,
    pub detection_enabled: bool,
    pub connections_count: usize,
    pub last_updated: Seq<char>,
    pub log: alerts::LogView,
}

pub open spec fn severity_of(critical: bool) -> Severity {
    if critical {
        Severity::Critical
    } else {
        Severity::Warning
    }
}

/// Whether a spike raises an alert: detection must be on.
pub open spec fn alarms(m: MonitorView, spike: Option<SpikeView>) -> bool {
    spike is Some && m.detection_enabled
}

pub open spec fn title_of(critical: bool) -> Seq<char> {
    "Network Monitor — "@ + alerts::severity_label(severity_of(critical))
}

/// What is kept after a spike, or after none.
pub open spec fn after_spike(m: MonitorView, spike: Option<SpikeView>, time: Seq<char>) -> MonitorView {
    if alarms(m, spike) {
        let s = spike->Some_0;
        MonitorView {
            log: alerts::raised(m.log, severity_of(s.critical), alerts::spike_text(s.value, s.mean), time),
            ..m
        }
    } else {
        m
    }
}

/// What is shown on the desktop after a spike: a title and a message.
pub open spec fn notice_of(m: MonitorView, spike: Option<SpikeView>, notify: bool) -> Option<(Seq<char>, Seq<char>)> {
    if alarms(m, spike) && notify {
        Some((title_of(spike->Some_0.critical), alerts::spike_text(spike->Some_0.value, spike->Some_0.mean)))
    } else {
        None
    }
}

/// A spike is put on the log as an alert exactly while detection is on, and is shown on the
/// desktop if the user wants that too, with the message of the alert; otherwise nothing changes
/// and nothing is shown. Nothing but the log changes in any case.
pub proof fn law_spike_is_logged_and_shown(m: MonitorView, s: SpikeView, time: Seq<char>, notify: bool)
    requires
        alerts::in_order(m.log),
        m.log.next_id < u64::MAX,
    ensures
        ({
            let after = after_spike(m, Some(s), time);
            &&& after.tick == m.tick
            &&& after.detection_enabled == m.detection_enabled
            &&& after.connections_count == m.connections_count
            &&& after.last_updated == m.last_updated
            &&& !m.detection_enabled ==> after.log == m.log
            &&& m.detection_enabled ==> {
                let a = after.log.alerts[0];
                &&& after.log.next_id == m.log.next_id + 1
                &&& a.id == m.log.next_id
                &&& s.critical ==> a.severity == Severity::Critical
                &&& !s.critical ==> a.severity == Severity::Warning
                &&& a.message == alerts::spike_text(s.value, s.mean)
                &&& a.time == time
                &&& !a.read
            }
            &&& notice_of(m, Some(s), notify) is Some <==> m.detection_enabled && notify
            &&& notice_of(m, Some(s), notify) matches Some((title, message)) ==> {
                &&& message == after.log.alerts[0].message
                &&& s.critical ==> title == "Network Monitor — "@ + "Critical"@
                &&& !s.critical ==> title == "Network Monitor — "@ + "Warning"@
            }
        }),
        after_spike(m, None, time) == m,
        notice_of(m, None, notify) is None,
{
    alerts::law_raised_comes_first(m.log, severity_of(s.critical), alerts::spike_text(s.value, s.mean), time);
}

/// Whether old readings are dropped in a tick.
pub open spec fn drops_readings(tick: int) -> bool {
    tick % PRUNE_EVERY_TICKS as int == 0
}

/// Of any eighteen hundred ticks in a row old readings are dropped in exactly one.
pub proof fn law_one_tick_of_an_hour_drops(from: int)
    requires
        from >= 0,
    ensures
        exists|t: int| from <= t < from + 1800 && #[trigger] drops_readings(t),
        forall|t: int, u: int|
            from <= t < u < from + 1800 && #[trigger] drops_readings(t) ==> !#[trigger] drops_readings(u),
{
    let t = if from % 1800 == 0 {
        from
    } else {
        from + 1800 - from % 1800
    };
    assert(drops_readings(t));
}

/// What is kept from one tick to the next, apart from the reading itself.
pub struct Monitor {
    tick: u64,
    detection_enabled: bool,
    connections_count: usize,
    last_updated: String,
    log: AlertLog,
}

impl View for Monitor {
    type V = MonitorView;

    closed spec fn view(&self) -> MonitorView {
        MonitorView {
            tick: self.tick,
            detection_enabled: self.detection_enabled,
            connections_count: self.connections_count,
            last_updated: self.last_updated@,
            log: self.log@,
        }
    }
}

impl Monitor {
    /// Before the first tick: detection is on, and nothing has been seen.
    pub fn new() -> (r: Self)
        ensures
            r@ == (MonitorView {
                tick: 0,
                detection_enabled: true,
                connections_count: 0,
                last_updated: seq![],
                log: alerts::LogView { alerts: seq![], next_id: 0 },
            }),
    {
        Monitor {
            tick: 0,
            detection_enabled: true,
            connections_count: 0,
            last_updated: String::new(),
            log: AlertLog::new(),
        }
    }

    /// How many ticks there have been.
    pub fn tick(&self) -> (r: u64)
        ensures
            r == self@.tick,
    {
        self.tick
    }

    pub fn detection_enabled(&self) -> (r: bool)
        ensures
            r == self@.detection_enabled,
    {
        self.detection_enabled
    }

    pub fn connections_count(&self) -> (r: usize)
        ensures
            r == self@.connections_count,
    {
        self.connections_count
    }

    pub fn last_updated(&self) -> (r: &str)
        ensures
            r@ == self@.last_updated,
    {
        self.last_updated.as_str()
    }

    /// The alerts as they are shown, the newest first.
    pub fn alert_rows(&self) -> (r: Vec<AlertRow>)
        ensures
            alerts::row_views(r@) == alerts::rows_of(self@.log),
            alerts::in_order(self@.log),
    {
        self.log.rows()
    }

    /// The number of the next alert.
    pub fn next_alert_id(&self) -> (r: u64)
        ensures
            r == self@.log.next_id,
    {
        self.log.next_id()
    }

    /// Begins a tick; returns whether old readings are to be dropped in it.
    pub fn begin_tick(&mut self) -> (r: bool)
        requires
            old(self)@.tick < u64::MAX,
        ensures
            final(self)@ == (MonitorView { tick: (old(self)@.tick + 1) as u64, ..old(self)@ }),
            r == drops_readings(old(self)@.tick + 1),
            r == ((old(self)@.tick + 1) % PRUNE_EVERY_TICKS as int == 0),
    {
        self.tick = self.tick + 1;
        self.tick % PRUNE_EVERY_TICKS == 0
    }

    /// Takes what a tick has seen.
    pub fn record(&mut self, connections_count: usize, time: String)
        ensures
            final(self)@ == (MonitorView { connections_count, last_updated: time@, ..old(self)@ }),
    {
        self.connections_count = connections_count;
        self.last_updated = time;
    }

    pub fn set_detection(&mut self, enabled: bool)
        ensures
            final(self)@ == (MonitorView { detection_enabled: enabled, ..old(self)@ }),
    {
        self.detection_enabled = enabled;
    }

    pub fn mark_all_alerts_read(&mut self)
        ensures
            final(self)@ == (MonitorView { log: alerts::all_read(old(self)@.log), ..old(self)@ }),
    {
        self.log.mark_all_read();
    }

    /// Raises an alert for a spike, if there is one and detection is on. Returns what is to be
    /// shown on the desktop, if the user wants that.
    pub fn on_spike(&mut self, spike: &Option<Spike>, time: String, notify: bool) -> (r: Option<Notification>)
        requires
            old(self)@.log.next_id < u64::MAX,
        ensures
            final(self)@ == after_spike(old(self)@, spike_view(*spike), time@),
            notification_view(r) == notice_of(old(self)@, spike_view(*spike), notify),
            final(self)@ == if alarms(old(self)@, spike_view(*spike)) {
                let s = spike_view(*spike)->Some_0;
                MonitorView {
                    log: alerts::raised(
                        old(self)@.log,
                        severity_of(s.critical),
                        alerts::spike_text(s.value, s.mean),
                        time@,
                    ),
                    ..old(self)@
                }
            } else {
                old(self)@
            },
            notification_view(r) == if alarms(old(self)@, spike_view(*spike)) && notify {
                let s = spike_view(*spike)->Some_0;
                Some((title_of(s.critical), alerts::spike_text(s.value, s.mean)))
            } else {
                None
            },
    {
        match spike {
            Some(s) => {
                if !self.detection_enabled {
                    return None;
                }
                let severity: Severity = if s.critical {
                    Severity::Critical
                } else {
                    Severity::Warning
                };
                let message: String = alerts::spike_message(s.value.as_str(), s.mean.as_str());
                self.log.raise(severity, message.clone(), time);
                if notify {
                    let mut title: Vec<char> = Vec::new();
                    text::put_str(&mut title, "Network Monitor — ");
                    text::put_str(&mut title, severity.label());
                    assert(title@ =~= title_of(s.critical));
                    Some(Notification { title: text::string_of(title.as_slice()), body: message })
                } else {
                    None
                }
            },
            None => None,
        }
    }
}

/// The two rates beside the tray icon.
pub open spec fn tray_text(download: Seq<char>, upload: Seq<char>) -> Seq<char> {
    "↓ "@ + download + " ↑ "@ + upload
}

pub fn tray_title(download: &str, upload: &str) -> (r: String)
    ensures
        r@ == tray_text(download@, upload@),
{
    let mut out: Vec<char> = Vec::new();
    text::put_str(&mut out, "↓ ");
    text::put_str(&mut out, download);
    text::put_str(&mut out, " ↑ ");
    text::put_str(&mut out, upload);
    assert(out@ =~= tray_text(download@, upload@));
    text::string_of(out.as_slice())
}


/// A spike alarms exactly while detection is on, and there is no alarm without one; one that is
/// critical is told as such, and any other as a warning.
pub proof fn law_spikes_alarm_while_watched(m: MonitorView, s: SpikeView)
    ensures
        alarms(MonitorView { detection_enabled: true, ..m }, Some(s)),
        !alarms(MonitorView { detection_enabled: false, ..m }, Some(s)),
        !alarms(m, None),
        severity_of(true) == Severity::Critical,
        severity_of(false) == Severity::Warning,
        title_of(true) == "Network Monitor — "@ + "Critical"@,
        title_of(false) == "Network Monitor — "@ + "Warning"@,
{
}

/// Old readings are dropped once an hour of ticks.
pub proof fn law_readings_are_dropped_hourly()
    ensures
        PRUNE_EVERY_TICKS * UPDATE_MS == 3_600_000,
        UPDATE_MS == 2_000,
{
}

/// The title beside the tray icon has the download first and then the upload.
pub proof fn law_download_comes_first(download: Seq<char>, upload: Seq<char>)
    ensures
        chars::starts(tray_text(download, upload), "↓ "@ + download),
        chars::ends(tray_text(download, upload), " ↑ "@ + upload),
        tray_text(download, upload).len() == ("↓ "@ + download).len() + (" ↑ "@ + upload).len(),
{
    let t = tray_text(download, upload);
    let a = "↓ "@ + download;
    let b = " ↑ "@ + upload;
    assert(t =~= a + b);
    assert(t.take(a.len() as int) =~= a);
    assert(t.skip(t.len() - b.len()) =~= b);
}

} // verus!
