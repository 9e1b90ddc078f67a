//! Alerts, and when traffic is unusual enough for one.
use crate::chars;
use crate::order;
use crate::text;
use std::collections::VecDeque;
use vstd::prelude::*;

verus! {

#[derive(Debug, Clone, Copy, PartialEq, Eq, Structural)]
pub enum Severity {
    Warning,
    Critical,
}

pub open spec fn severity_label(s: Severity) -> Seq<char> {
    match s {
        Severity::Warning => "Warning"@,
        Severity::Critical => "Critical"@,
    }
}

impl Severity {
    pub fn label(&self) -> (r: &'static str)
        ensures
            r@ == severity_label(*self),
    {
        match self {
            Severity::Warning => "Warning",
            Severity::Critical => "Critical",
        }
    }
}

/// How many of the latest samples a baseline is made of.
pub const WINDOW_LEN: usize = 120;

/// How many samples it takes for a baseline to mean anything.
pub const MIN_SAMPLES: usize = 30;

/// How many samples after one that raised an alert raise none: one long spike is one alert.
pub const COOLDOWN: u32 = 30;

/// What a detector holds: the latest samples, the oldest first, and for how many more no alert
/// is raised.
#[verifier::reject_recursive_types(T)]
#[verifier::ext_equal]
pub struct DetectorView<T> {
    pub window: Seq<T>,
    pub cooldown: u32,
}

/// Whether a sample raises an alert: it must exceed a baseline that means something, and no
/// other alert may be fresh.
pub open spec fn fires<T>(d: DetectorView<T>, exceeds: bool) -> bool {
    d.window.len() >= MIN_SAMPLES && d.cooldown == 0 && exceeds
}

/// What a detector holds after a sample.
pub open spec fn observed<T>(d: DetectorView<T>, value: T, exceeds: bool) -> DetectorView<T> {
    DetectorView {
        window: if d.window.len() >= WINDOW_LEN {
            d.window.skip(1).push(value)
        } else {
            d.window.push(value)
        },
        cooldown: if fires(d, exceeds) {
            COOLDOWN
        } else if d.cooldown > 0 {
            (d.cooldown - 1) as u32
        } else {
            0
        },
    }
}

/// What a detector holds after several samples.
pub open spec fn observed_all<T>(d: DetectorView<T>, samples: Seq<(T, bool)>) -> DetectorView<T>
    decreases samples.len(),
{
    if samples.len() == 0 {
        d
    } else {
        observed(observed_all(d, samples.drop_last()), samples.last().0, samples.last().1)
    }
}

/// A detector before its first sample.
pub open spec fn unused<T>() -> DetectorView<T> {
    DetectorView { window: seq![], cooldown: 0 }
}

pub open spec fn values_of<T>(samples: Seq<(T, bool)>) -> Seq<T> {
    samples.map_values(|s: (T, bool)| s.0)
}

/// A baseline is made of the latest samples, all of them as long as there are few.
pub proof fn law_window_holds_the_latest<T>(samples: Seq<(T, bool)>)
    ensures
        observed_all(unused::<T>(), samples).window == if samples.len() <= WINDOW_LEN {
            values_of(samples)
        } else {
            values_of(samples).skip(samples.len() - WINDOW_LEN)
        },
    decreases samples.len(),
{
    if samples.len() > 0 {
        let rest = samples.drop_last();
        law_window_holds_the_latest(rest);
        assert(values_of(samples) =~= values_of(rest).push(samples.last().0));
        if samples.len() > WINDOW_LEN {
            let before = observed_all(unused::<T>(), rest).window;
            assert(before.skip(1).push(samples.last().0) =~= values_of(samples).skip(samples.len() - WINDOW_LEN));
        }
    } else {
        assert(values_of(samples) =~= seq![]);
    }
}

/// A detector that has seen few samples raises no alert, whatever they are.
pub proof fn law_no_alert_without_baseline<T>(samples: Seq<(T, bool)>, exceeds: bool)
    requires
        samples.len() < MIN_SAMPLES,
    ensures
        !fires(observed_all(unused::<T>(), samples), exceeds),
{
    law_window_holds_the_latest(samples);
}

proof fn lemma_cooling<T>(d: DetectorView<T>, samples: Seq<(T, bool)>)
    requires
        samples.len() <= d.cooldown,
    ensures
        observed_all(d, samples).cooldown == d.cooldown - samples.len(),
        d.window.len() >= MIN_SAMPLES ==> observed_all(d, samples).window.len() >= MIN_SAMPLES,
    decreases samples.len(),
{
    if samples.len() > 0 {
        lemma_cooling(d, samples.drop_last());
    }
}

/// After an alert the next samples raise none, whatever they are, until the cooldown is over;
/// with its last sample over, the next that exceeds its baseline raises one.
pub proof fn law_cooldown_suppresses<T>(d: DetectorView<T>, value: T, more: Seq<(T, bool)>, exceeds: bool)
    requires
        fires(d, true),
        more.len() <= COOLDOWN,
    ensures
        fires(observed_all(observed(d, value, true), more), exceeds) <==> more.len() == COOLDOWN && exceeds,
{
    lemma_cooling(observed(d, value, true), more);
}

/// An alert needs a sample that exceeds a baseline of thirty samples or more, with no other alert
/// fresh, and nothing else. It keeps the next thirty samples from raising one, and each sample
/// takes one off that.
pub proof fn law_cooldown_counts_down<T>(d: DetectorView<T>, value: T, exceeds: bool)
    ensures
        fires(d, exceeds) <==> exceeds && d.window.len() >= 30 && d.cooldown == 0,
        fires(d, exceeds) ==> observed(d, value, exceeds).cooldown == 30,
        d.cooldown > 0 ==> observed(d, value, exceeds).cooldown == d.cooldown - 1,
        d.cooldown == 0 && !fires(d, exceeds) ==> observed(d, value, exceeds).cooldown == 0,
{
}

proof fn lemma_calm_samples<T>(samples: Seq<(T, bool)>)
    requires
        forall|i: int| 0 <= i < samples.len() ==> !(#[trigger] samples[i]).1,
    ensures
        observed_all(unused::<T>(), samples).cooldown == 0,
    decreases samples.len(),
{
    if samples.len() > 0 {
        let rest = samples.drop_last();
        assert forall|i: int| 0 <= i < rest.len() implies !(#[trigger] rest[i]).1 by {
            assert(!samples[i].1);
        }
        lemma_calm_samples(rest);
        assert(!samples[samples.len() - 1].1);
    }
}

/// After thirty samples or more that exceeded nothing, the next one raises an alert exactly where
/// it exceeds its baseline.
pub proof fn law_spike_after_calm_raises_an_alert<T>(samples: Seq<(T, bool)>, exceeds: bool)
    requires
        samples.len() >= 30,
        forall|i: int| 0 <= i < samples.len() ==> !(#[trigger] samples[i]).1,
    ensures
        fires(observed_all(unused::<T>(), samples), exceeds) == exceeds,
{
    law_window_holds_the_latest(samples);
    lemma_calm_samples(samples);
}

/// Every sample enters the baseline as the latest one, whether it raises an alert or not; the
/// oldest leaves where there are a hundred and twenty already.
pub proof fn law_sample_enters_the_baseline<T>(d: DetectorView<T>, value: T, exceeds: bool, i: int)
    requires
        d.window.len() <= 120,
        0 < i < d.window.len(),
    ensures
        ({
            let after = observed(d, value, exceeds).window;
            &&& after.last() == value
            &&& d.window.len() < 120 ==> after.len() == d.window.len() + 1 && after[i] == d.window[i]
            &&& d.window.len() == 120 ==> after.len() == 120 && after[i - 1] == d.window[i]
        }),
{
}

/// Keeps the baseline for samples of traffic, and decides which of those that exceed it raise
/// an alert.
#[verifier::reject_recursive_types(T)]
pub struct AnomalyDetector<T> {
    window: VecDeque<T>,
    cooldown_remaining: u32,
}

impl<T> View for AnomalyDetector<T> {
    type V = DetectorView<T>;

    closed spec fn view(&self) -> DetectorView<T> {
        DetectorView { window: self.window@, cooldown: self.cooldown_remaining }
    }
}

impl<T> AnomalyDetector<T> {
    pub fn new() -> (r: Self)
        ensures
            r@ == unused::<T>(),
    {
        let r: AnomalyDetector<T> = AnomalyDetector { window: VecDeque::new(), cooldown_remaining: 0 };
        assert(r@ =~= unused::<T>());
        r
    }

    /// The samples that the baseline is made of, the oldest first.
    pub fn window(&self) -> (r: &VecDeque<T>)
        ensures
            r@ == self@.window,
    {
        &self.window
    }

    /// Whether the baseline means anything.
    pub fn is_warm(&self) -> (r: bool)
        ensures
            r == (self@.window.len() >= MIN_SAMPLES),
    {
        self.window.len() >= MIN_SAMPLES
    }

    /// Takes a sample and whether it exceeds the baseline; returns whether it raises an alert.
    pub fn observe(&mut self, value: T, exceeds: bool) -> (r: bool)
        ensures
            r == fires(old(self)@, exceeds),
            final(self)@ == observed(old(self)@, value, exceeds),
    {
        let triggered: bool = self.window.len() >= MIN_SAMPLES && self.cooldown_remaining == 0 && exceeds;
        if triggered {
            self.cooldown_remaining = COOLDOWN;
        } else if self.cooldown_remaining > 0 {
            self.cooldown_remaining = self.cooldown_remaining - 1;
        }
        let ghost before = self.window@;
        if self.window.len() >= WINDOW_LEN {
            self.window.pop_front();
            assert(self.window@ =~= before.skip(1));
        }
        self.window.push_back(value);
        triggered
    }
}

impl<T> Default for AnomalyDetector<T> {
    fn default() -> (r: Self)
        ensures
            r@ == unused::<T>(),
    {
        Self::new()
    }
}

/// How many alerts are kept.
pub const ALERTS_KEPT: usize = 200;

#[derive(Debug, Clone)]
pub struct AlertItem {
    pub id: u64,
    pub severity: Severity,
    pub message: String,
    pub time: String,
    pub read: bool,
}

#[verifier::ext_equal]
pub struct AlertView {
    pub id: u64,
    pub severity: Severity,
    pub message: Seq<char>,
    pub time: Seq<char>,
    pub read: bool,
}

impl View for AlertItem {
    type V = AlertView;

    open spec fn view(&self) -> AlertView {
        AlertView {
            id: self.id,
            severity: self.severity,
            message: self.message@,
            time: self.time@,
            read: self.read,
        }
    }
}

pub open spec fn alert_views(v: Seq<AlertItem>) -> Seq<AlertView> {
    v.map_values(|a: AlertItem| a@)
}

/// The alerts, the newest first, and the number of the next one.
#[verifier::ext_equal]
pub struct LogView {
    pub alerts: Seq<AlertView>,
    pub next_id: u64,
}

pub open spec fn raised(l: LogView, severity: Severity, message: Seq<char>, time: Seq<char>) -> LogView {
    let a = AlertView { id: l.next_id, severity, message, time, read: false };
    LogView { alerts: order::at_most(seq![a] + l.alerts, ALERTS_KEPT as int), next_id: (l.next_id + 1) as u64 }
}

pub open spec fn all_read(l: LogView) -> LogView {
    LogView { alerts: l.alerts.map_values(|a: AlertView| AlertView { read: true, ..a }), ..l }
}

/// Every alert has a number of its own, later ones greater numbers, and no more than are kept
/// are there.
pub open spec fn in_order(l: LogView) -> bool {
    &&& l.alerts.len() <= ALERTS_KEPT
    &&& forall|i: int| 0 <= i < l.alerts.len() ==> (#[trigger] l.alerts[i]).id < l.next_id
    &&& forall|i: int, j: int| 0 <= i < j < l.alerts.len() ==> (#[trigger] l.alerts[i]).id > (#[trigger] l.alerts[j]).id
}

/// A new alert comes first, unread, with a number that no other has.
pub proof fn law_raised_comes_first(l: LogView, severity: Severity, message: Seq<char>, time: Seq<char>)
    requires
        in_order(l),
        l.next_id < u64::MAX,
    ensures
        in_order(raised(l, severity, message, time)),
        raised(l, severity, message, time).alerts[0] == (AlertView {
            id: l.next_id,
            severity,
            message,
            time,
            read: false,
        }),
        forall|i: int|
            0 < i < raised(l, severity, message, time).alerts.len() ==> #[trigger] raised(
                l,
                severity,
                message,
                time,
            ).alerts[i] == l.alerts[i - 1],
{
    let after = raised(l, severity, message, time);
    assert forall|i: int, j: int| 0 <= i < j < after.alerts.len() implies (#[trigger] after.alerts[i]).id > (
    #[trigger] after.alerts[j]).id by {
        assert(after.alerts[j] == l.alerts[j - 1]);
        if i > 0 {
            assert(after.alerts[i] == l.alerts[i - 1]);
        }
    }
}

/// Marking alerts as read changes nothing else of them.
pub proof fn law_reading_keeps_alerts(l: LogView)
    requires
        in_order(l),
    ensures
        in_order(all_read(l)),
        all_read(all_read(l)) == all_read(l),
{
    let after = all_read(l);
    assert forall|i: int, j: int| 0 <= i < j < after.alerts.len() implies (#[trigger] after.alerts[i]).id > (
    #[trigger] after.alerts[j]).id by {
        assert(l.alerts[i].id > l.alerts[j].id);
    }
    assert(all_read(after) =~= after);
}

/// An alert more is kept, up to two hundred, and each gets the next number.
pub proof fn law_alerts_are_kept(l: LogView, severity: Severity, message: Seq<char>, time: Seq<char>)
    requires
        in_order(l),
        l.next_id < u64::MAX,
    ensures
        raised(l, severity, message, time).next_id == l.next_id + 1,
        l.alerts.len() < 200 ==> raised(l, severity, message, time).alerts.len() == l.alerts.len() + 1,
        l.alerts.len() == 200 ==> raised(l, severity, message, time).alerts.len() == 200,
{
}

/// Once they are marked, all alerts are read, and each is otherwise the one it was.
pub proof fn law_all_alerts_are_read(l: LogView, i: int)
    requires
        0 <= i < l.alerts.len(),
    ensures
        all_read(l).alerts.len() == l.alerts.len(),
        all_read(l).next_id == l.next_id,
        all_read(l).alerts[i].read,
        all_read(l).alerts[i].id == l.alerts[i].id,
        all_read(l).alerts[i].severity == l.alerts[i].severity,
        all_read(l).alerts[i].message == l.alerts[i].message,
        all_read(l).alerts[i].time == l.alerts[i].time,
{
}

/// The alerts that were raised, the newest first.
pub struct AlertLog {
    alerts: Vec<AlertItem>,
    next_id: u64,
}

impl View for AlertLog {
    type V = LogView;

    closed spec fn view(&self) -> LogView {
        LogView { alerts: alert_views(self.alerts@), next_id: self.next_id }
    }
}

/// An alert as it is shown.
#[derive(Debug, Clone)]
pub struct AlertRow {
    pub id: u64,
    pub severity: String,
    pub message: String,
    pub time: String,
    pub read: bool,
}

#[verifier::ext_equal]
pub struct AlertRowView {
    pub id: u64,
    pub severity: Seq<char>,
    pub message: Seq<char>,
    pub time: Seq<char>,
    pub read: bool,
}

impl View for AlertRow {
    type V = AlertRowView;

    open spec fn view(&self) -> AlertRowView {
        AlertRowView {
            id: self.id,
            severity: self.severity@,
            message: self.message@,
            time: self.time@,
            read: self.read,
        }
    }
}

pub open spec fn row_views(v: Seq<AlertRow>) -> Seq<AlertRowView> {
    v.map_values(|a: AlertRow| a@)
}

pub open spec fn row_of(a: AlertView) -> AlertRowView {
    AlertRowView {
        id: a.id,
        severity: severity_label(a.severity),
        message: a.message,
        time: a.time,
        read: a.read,
    }
}

pub open spec fn rows_of(l: LogView) -> Seq<AlertRowView> {
    l.alerts.map_values(|a: AlertView| row_of(a))
}

/// Each alert has a row with its number, message and time, whether it was read, and its severity
/// in words, in the order of the alerts.
pub proof fn law_each_alert_has_its_row(l: LogView, i: int)
    requires
        0 <= i < l.alerts.len(),
    ensures
        rows_of(l).len() == l.alerts.len(),
        rows_of(l)[i].id == l.alerts[i].id,
        rows_of(l)[i].message == l.alerts[i].message,
        rows_of(l)[i].time == l.alerts[i].time,
        rows_of(l)[i].read == l.alerts[i].read,
        l.alerts[i].severity == Severity::Critical ==> rows_of(l)[i].severity == "Critical"@,
        l.alerts[i].severity == Severity::Warning ==> rows_of(l)[i].severity == "Warning"@,
{
}

impl AlertLog {
    #[verifier::type_invariant]
    spec fn well_formed(self) -> bool {
        in_order(self@)
    }

    pub fn new() -> (r: Self)
        ensures
            r@ == (LogView { alerts: seq![], next_id: 0 }),
    {
        let alerts: Vec<AlertItem> = Vec::new();
        assert(alert_views(alerts@) =~= seq![]);
        AlertLog { alerts, next_id: 0 }
    }

    /// The number of the next alert.
    pub fn next_id(&self) -> (r: u64)
        ensures
            r == self@.next_id,
    {
        self.next_id
    }

    /// Adds an alert; beyond those that are kept the oldest is dropped.
    pub fn raise(&mut self, severity: Severity, message: String, time: String)
        requires
            old(self)@.next_id < u64::MAX,
        ensures
            final(self)@ == raised(old(self)@, severity, message@, time@),
    {
        proof {
            use_type_invariant(&*self);
            law_raised_comes_first(self@, severity, message@, time@);
        }
        let ghost before = self@;
        let ghost after = raised(before, severity, message@, time@);
        let id: u64 = self.next_id;
        let mut alerts: Vec<AlertItem> = Vec::new();
        std::mem::swap(&mut alerts, &mut self.alerts);
        let a: AlertItem = AlertItem { id, severity, message, time, read: false };
        let ghost av = a@;
        alerts.insert(0, a);
        assert(alert_views(alerts@) =~= seq![av] + before.alerts);
        if alerts.len() > ALERTS_KEPT {
            alerts.truncate(ALERTS_KEPT);
        }
        assert(alert_views(alerts@) =~= after.alerts);
        *self = AlertLog { alerts, next_id: id + 1 };
    }

    /// Marks every alert as read.
    pub fn mark_all_read(&mut self)
        ensures
            final(self)@ == all_read(old(self)@),
    {
        proof {
            use_type_invariant(&*self);
            law_reading_keeps_alerts(self@);
        }
        let ghost before = self@;
        let ghost after = all_read(before).alerts;
        let next_id: u64 = self.next_id;
        let mut alerts: Vec<AlertItem> = Vec::new();
        std::mem::swap(&mut alerts, &mut self.alerts);
        let ghost all = alerts@;
        let mut out: Vec<AlertItem> = Vec::new();
        for a in it: alerts
            invariant
                it.seq() == all,
                before.alerts == alert_views(all),
                after == all_read(before).alerts,
                out@.len() == it.index(),
                forall|j: int| 0 <= j < out@.len() ==> #[trigger] out@[j]@ == after[j],
        {
            let mut b: AlertItem = a;
            b.read = true;
            assert(after[it.index() as int] == b@);
            out.push(b);
        }
        assert(alert_views(out@) =~= after);
        *self = AlertLog { alerts: out, next_id };
    }

    /// The alerts as they are shown; the numbers descend.
    pub fn rows(&self) -> (r: Vec<AlertRow>)
        ensures
            row_views(r@) == rows_of(self@),
            in_order(self@),
    {
        proof {
            use_type_invariant(self);
        }
        let ghost want = rows_of(self@);
        let mut out: Vec<AlertRow> = Vec::new();
        let mut i: usize = 0;
        while i < self.alerts.len()
            invariant
                i <= self.alerts@.len() == want.len(),
                want == rows_of(self@),
                out@.len() == i,
                forall|j: int| 0 <= j < i ==> #[trigger] out@[j]@ == want[j],
            decreases self.alerts.len() - i,
        {
            let a: &AlertItem = &self.alerts[i];
            let row: AlertRow = AlertRow {
                id: a.id,
                severity: a.severity.label().to_string(),
                message: a.message.clone(),
                time: a.time.clone(),
                read: a.read,
            };
            assert(self@.alerts[i as int] == a@);
            assert(want[i as int] == row@);
            out.push(row);
            i += 1;
        }
        assert(row_views(out@) =~= want);
        out
    }
}

/// What an alert for a spike says.
pub open spec fn spike_text(value: Seq<char>, mean: Seq<char>) -> Seq<char> {
    "Traffic spike: "@ + value + " vs a recent baseline of "@ + mean
}

pub fn spike_message(value: &str, mean: &str) -> (r: String)
    ensures
        r@ == spike_text(value@, mean@),
{
    let mut out: Vec<char> = Vec::new();
    text::put_str(&mut out, "Traffic spike: ");
    text::put_str(&mut out, value);
    text::put_str(&mut out, " vs a recent baseline of ");
    text::put_str(&mut out, mean);
    assert(out@ =~= spike_text(value@, mean@));
    text::string_of(out.as_slice())
}


/// What is told of a spike begins with its value and ends with the baseline.
pub proof fn law_spike_is_told_with_its_baseline(value: Seq<char>, mean: Seq<char>)
    ensures
        chars::starts(spike_text(value, mean), "Traffic spike: "@ + value),
        chars::ends(spike_text(value, mean), " vs a recent baseline of "@ + mean),
        spike_text(value, mean).len() == ("Traffic spike: "@ + value).len() + (" vs a recent baseline of "@ + mean).len(),
{
    let t = spike_text(value, mean);
    let a = "Traffic spike: "@ + value;
    let b = " vs a recent baseline of "@ + mean;
    assert(t =~= a + b);
    assert(t.take(a.len() as int) =~= a);
    assert(t.skip(t.len() - b.len()) =~= b);
}

} // verus!
