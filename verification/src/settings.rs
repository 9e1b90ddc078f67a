//! The settings of the application.
use crate::history;
use crate::numbers;
use crate::paths;
use crate::text;
use vstd::prelude::*;

verus! {

#[derive(Debug, Clone)]
pub struct AppSettings {
    pub language: String,
    pub refresh_interval_sec: u64,
    pub notif_desktop: bool,
    pub notif_sound: bool,
    pub notif_tray: bool,
    pub bandwidth_cap_enabled: bool,
    pub bandwidth_cap_gb: u64,
    pub history_retention_days: i64,
    pub has_shown_tray_hint: bool,
}

impl Default for AppSettings {
    /// The settings before any were changed.
    fn default() -> (r: Self)
        ensures
            r.language@ == "English"@,
            r.refresh_interval_sec == 2,
            r.notif_desktop,
            !r.notif_sound,
            r.notif_tray,
            !r.bandwidth_cap_enabled,
            r.bandwidth_cap_gb == 500,
            r.history_retention_days == history::DEFAULT_RETENTION_DAYS,
            !r.has_shown_tray_hint,
    {
        AppSettings {
            language: "English".to_string(),
            refresh_interval_sec: 2,
            notif_desktop: true,
            notif_sound: false,
            notif_tray: true,
            bandwidth_cap_enabled: false,
            bandwidth_cap_gb: 500,
            history_retention_days: history::DEFAULT_RETENTION_DAYS,
            has_shown_tray_hint: false,
        }
    }
}

/// Where the settings are kept.
pub fn settings_path(data_dir: &[u8]) -> (r: Vec<u8>)
    ensures
        r@ == paths::entry(data_dir@, "settings.json"@),
{
    paths::join(data_dir, "settings.json")
}

pub open spec fn month_text(year: int, month: int) -> Seq<char> {
    numbers::padded(year, 4) + seq!['-'] + numbers::padded(month, 2) + "-01T00:00:00.000000"@
}

/// The start of a month as readings are stamped.
pub fn month_start(year: i32, month: u32) -> (r: String)
    ensures
        r@ == month_text(year as int, month as int),
{
    let mut out: Vec<char> = Vec::new();
    numbers::put_padded(&mut out, year as i64, 4);
    out.push('-');
    numbers::put_padded(&mut out, month as i64, 2);
    text::put_str(&mut out, "-01T00:00:00.000000");
    assert(out@ =~= month_text(year as int, month as int));
    text::string_of(out.as_slice())
}

/// What becomes of the window when it is closed.
#[derive(Debug, Clone, Copy, PartialEq, Eq, Structural)]
pub enum CloseStep {
    /// The application ends.
    Quit,
    /// It goes to the tray.
    Hide,
    /// It goes to the tray, and the user is told so, once and never again.
    HideWithHint,
}

/// What becomes of the window when it is closed.
pub open spec fn closing(has_tray: bool, has_shown_hint: bool) -> CloseStep {
    if !has_tray {
        CloseStep::Quit
    } else if has_shown_hint {
        CloseStep::Hide
    } else {
        CloseStep::HideWithHint
    }
}

/// Without a tray icon the application ends; with one it stays, and the user is told so at the
/// first time only: once the hint was shown, it never is again.
pub proof fn law_hint_is_shown_once(has_tray: bool, shown: bool)
    ensures
        closing(has_tray, shown) == CloseStep::Quit <==> !has_tray,
        closing(has_tray, true) != CloseStep::HideWithHint,
        closing(true, false) == CloseStep::HideWithHint,
        closing(true, true) == CloseStep::Hide,
{
}

/// What becomes of the window when it is closed, from whether there is a tray icon and whether
/// the user has been told of it.
pub fn close_step(has_tray: bool, has_shown_hint: bool) -> (r: CloseStep)
    ensures
        r == closing(has_tray, has_shown_hint),
        r == if !has_tray {
            CloseStep::Quit
        } else if has_shown_hint {
            CloseStep::Hide
        } else {
            CloseStep::HideWithHint
        },
{
    if !has_tray {
        CloseStep::Quit
    } else if has_shown_hint {
        CloseStep::Hide
    } else {
        CloseStep::HideWithHint
    }
}

/// Who uses the application: the user that is logged in, if the environment tells.
pub fn username(user: Option<String>) -> (r: String)
    ensures
        r@ == match user {
            Some(u) => u@,
            None => crate::format::UNKNOWN@,
        },
{
    match user {
        Some(u) => u,
        None => crate::format::UNKNOWN.to_string(),
    }
}


/// A month starts at midnight of its first day.
pub proof fn law_month_starts_on_its_first_day(year: i64, month: i64)
    requires
        1000 <= year <= 9999,
        1 <= month <= 12,
    ensures
        exists|y: Seq<char>, m: Seq<char>|
            y.len() == 4 && m.len() == 2 && numbers::signed_of(y) == Some(year) && numbers::signed_of(m) == Some(month)
                && month_text(year as int, month as int) == y + seq!['-'] + m + "-01T00:00:00.000000"@,
{
    let y = numbers::padded(year as int, 4);
    let m = numbers::padded(month as int, 2);
    numbers::law_padding_keeps_the_number(year, 4);
    numbers::law_padding_keeps_the_number(month, 2);
    reveal_with_fuel(numbers::decimal, 4);
    assert(numbers::signed_decimal(year as int).len() <= 4);
    assert(numbers::signed_decimal(month as int).len() <= 2);
    assert(month_text(year as int, month as int) == y + seq!['-'] + m + "-01T00:00:00.000000"@);
}

} // verus!
