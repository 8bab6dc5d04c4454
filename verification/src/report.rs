//! Texts about a scan: how long it took, and which directories were scanned
//! the slow way.

use vstd::prelude::*;

use crate::scanner;
use crate::scanner::{format_fallback_summary, ScanFallbackDetail};
use crate::text;
use crate::text::push_decimal;

verus! {

/// `n`, which is below a hundred, with two digits.
pub open spec fn two_digits(n: nat) -> Seq<char> {
    seq![text::digit(n / 10), text::digit(n % 10)]
}

fn push_two_digits(text: &mut String, n: u64)
    requires
        n < 100,
    ensures
        final(text)@ == old(text)@ + two_digits(n as nat),
{
    text.push((48u8 + (n / 10) as u8) as char);
    text.push((48u8 + (n % 10) as u8) as char);
    assert(text@ =~= old(text)@ + two_digits(n as nat));
}

/// The tenths of a second nearest to a part of a second. Halfway between two,
/// the nearest binary fraction decides, and where that is halfway too, the
/// even tenth.
pub open spec fn tenths(nanos: nat) -> nat {
    let below = nanos / 100_000_000;
    let rest = nanos % 100_000_000;
    if rest < 50_000_000 || (rest == 50_000_000 && (1 <= below <= 3 || below >= 8)) {
        below
    } else {
        below + 1
    }
}

/// A duration as it is shown.
pub open spec fn elapsed(secs: nat, nanos: nat) -> Seq<char> {
    if secs >= 3600 {
        text::decimal(secs / 3600) + "h "@ + two_digits((secs % 3600) / 60) + "m"@
    } else if secs >= 60 {
        text::decimal(secs / 60) + "m "@ + two_digits(secs % 60) + "s"@
    } else if secs == 0 {
        text::decimal(tenths(nanos) / 10) + "."@ + seq![text::digit(tenths(nanos) % 10)] + "s"@
    } else {
        text::decimal(secs) + "s"@
    }
}

/// Shows a duration of whole seconds and billionths of a second.
pub fn format_elapsed(secs: u64, nanos: u32) -> (shown: String)
    requires
        nanos < 1_000_000_000,
    ensures
        shown@ == elapsed(secs as nat, nanos as nat),
{
    let mut shown = String::new();
    if secs >= 3600 {
        push_decimal(&mut shown, secs / 3600);
        shown.append("h ");
        push_two_digits(&mut shown, (secs % 3600) / 60);
        shown.append("m");
    } else if secs >= 60 {
        push_decimal(&mut shown, secs / 60);
        shown.append("m ");
        push_two_digits(&mut shown, secs % 60);
        shown.append("s");
    } else if secs == 0 {
        let below: u32 = nanos / 100_000_000;
        let rest: u32 = nanos % 100_000_000;
        let n: u32 = if rest < 50_000_000 || (rest == 50_000_000 && ((1 <= below && below <= 3)
            || below >= 8)) {
            below
        } else {
            below + 1
        };
        push_decimal(&mut shown, (n / 10) as u64);
        shown.append(".");
        shown.push((48u8 + (n % 10) as u8) as char);
        shown.append("s");
    } else {
        push_decimal(&mut shown, secs);
        shown.append("s");
    }
    assert(shown@ =~= elapsed(secs as nat, nanos as nat));
    shown
}

/// The lines of the first `n` directories that were scanned the slow way.
pub open spec fn detail_lines(details: Seq<scanner::Fallback>, n: nat) -> Seq<char>
    decreases n,
{
    if n == 0 {
        Seq::empty()
    } else {
        let detail = details[n - 1];
        detail_lines(details, (n - 1) as nat) + text::decimal(n) + ". ["@ + detail.kind.title()
            + "] "@ + detail.path + "\n   "@ + detail.error + "\n"@
    }
}

/// A text that may be missing, between two others; nothing where it is.
pub open spec fn line(head: Seq<char>, middle: Option<Seq<char>>) -> Seq<char> {
    match middle {
        Some(middle) => head + middle + "\n"@,
        None => Seq::empty(),
    }
}

/// The report on the directories that were scanned the slow way.
pub open spec fn report(
    scan_path: Option<Seq<char>>,
    duration: Option<(u64, u32)>,
    summary: Option<Seq<char>>,
    details: Seq<scanner::Fallback>,
) -> Seq<char> {
    let shown = match duration {
        Some((secs, nanos)) => Some(elapsed(secs as nat, nanos as nat)),
        None => None,
    };
    "Disk Cleaner Windows compatibility report\n"@ + "========================================\n\n"@
        + line("Scan path: "@, scan_path) + line("Scan duration: "@, shown) + line(
        "Summary: "@,
        summary,
    ) + "Captured entries: "@ + text::decimal(details.len()) + "\n\n"@ + if details.len() == 0 {
        "No compatibility details were recorded.\n"@
    } else {
        "Technical details:\n\n"@ + detail_lines(details, details.len())
    }
}

fn push_line(text: &mut String, head: &str, middle: Option<&str>)
    ensures
        final(text)@ == old(text)@ + line(head@, match middle {
            Some(middle) => Some(middle@),
            None => None,
        }),
{
    match middle {
        Some(middle) => {
            text.append(head);
            text.append(middle);
            text.append("\n");
            assert(text@ =~= old(text)@ + (head@ + middle@ + "\n"@));
        },
        None => {
            assert(text@ =~= old(text)@ + Seq::<char>::empty());
        },
    }
}

/// Writes the report on the directories that were scanned the slow way.
pub fn write_fallback_report(
    scan_path: Option<&str>,
    duration: Option<(u64, u32)>,
    total: u64,
    access_denied: u64,
    bulk_scan: u64,
    details: &Vec<ScanFallbackDetail>,
) -> (text: String)
    requires
        duration matches Some((secs, nanos)) ==> nanos < 1_000_000_000,
    ensures
        text@ == report(
            match scan_path {
                Some(path) => Some(path@),
                None => None,
            },
            duration,
            scanner::fallback_summary(total as nat, access_denied as nat, bulk_scan as nat),
            scanner::fallback_views(details@),
        ),
{
    let ghost all = scanner::fallback_views(details@);
    let mut text = String::new();
    text.append("Disk Cleaner Windows compatibility report\n");
    text.append("========================================\n\n");
    assert(text@ =~= "Disk Cleaner Windows compatibility report\n"@
        + "========================================\n\n"@);
    push_line(&mut text, "Scan path: ", scan_path);
    let shown = match duration {
        Some((secs, nanos)) => Some(format_elapsed(secs, nanos)),
        None => None,
    };
    push_line(&mut text, "Scan duration: ", match &shown {
        Some(shown) => Some(shown.as_str()),
        None => None,
    });
    let summary = format_fallback_summary(total, access_denied, bulk_scan);
    push_line(&mut text, "Summary: ", match &summary {
        Some(summary) => Some(summary.as_str()),
        None => None,
    });
    text.append("Captured entries: ");
    push_decimal(&mut text, details.len() as u64);
    text.append("\n\n");
    if details.len() == 0 {
        text.append("No compatibility details were recorded.\n");
        return text;
    }
    let ghost before = text@;
    text.append("Technical details:\n\n");
    let ghost head = text@;
    let mut i: usize = 0;
    assert(head + detail_lines(all, 0) =~= head);
    while i < details.len()
        invariant
            i <= details@.len(),
            all == scanner::fallback_views(details@),
            text@ == head + detail_lines(all, i as nat),
        decreases details@.len() - i,
    {
        let detail = &details[i];
        let ghost upto = text@;
        assert(all[i as int] == detail@);
        push_decimal(&mut text, i as u64 + 1);
        text.append(". [");
        text.append(detail.kind.label());
        text.append("] ");
        text.append(detail.path.as_str());
        text.append("\n   ");
        text.append(detail.error.as_str());
        text.append("\n");
        i += 1;
        assert(text@ =~= head + detail_lines(all, i as nat));
    }
    assert(text@ =~= before + ("Technical details:\n\n"@ + detail_lines(all, all.len())));
    text
}

/// The name of the file with a report, from the time it was written at.
pub fn report_name(stamp: u64) -> (name: String)
    ensures
        name@ == "windows-compatibility-report-"@ + text::decimal(stamp as nat) + ".txt"@,
{
    let mut name = String::new();
    name.append("windows-compatibility-report-");
    push_decimal(&mut name, stamp);
    name.append(".txt");
    assert(name@ =~= "windows-compatibility-report-"@ + text::decimal(stamp as nat) + ".txt"@);
    name
}

/// Two digits are read as the number they were written for.
pub proof fn lemma_two_digits(n: nat)
    requires
        n < 100,
    ensures
        text::number(two_digits(n), 10) == n,
        two_digits(n).len() == 2,
{
    let written = two_digits(n);
    assert(written.drop_last() =~= seq![text::digit(n / 10)]);
    assert(written.drop_last().drop_last() =~= Seq::<char>::empty());
    assert(text::number(Seq::<char>::empty(), 10) == 0);
    assert(text::number(written.drop_last(), 10) == n / 10);
}

/// A duration is shown as what it is: hours and minutes where there is an hour, so that
/// less than a minute is missing; minutes and seconds where there is a minute; else the
/// seconds.
pub proof fn lemma_elapsed(secs: nat, nanos: nat)
    ensures
        secs >= 3600 ==> exists|hours: nat, minutes: nat|
            elapsed(secs, nanos) == #[trigger] (text::decimal(hours) + "h "@ + two_digits(minutes)
                + "m"@) && minutes < 60 && hours * 3600 + minutes * 60 <= secs < hours * 3600
                + minutes * 60 + 60,
        60 <= secs < 3600 ==> exists|minutes: nat, seconds: nat|
            elapsed(secs, nanos) == #[trigger] (text::decimal(minutes) + "m "@ + two_digits(
                seconds,
            ) + "s"@) && seconds < 60 && minutes * 60 + seconds == secs,
        1 <= secs < 60 ==> elapsed(secs, nanos) == text::decimal(secs) + "s"@,
{
    if secs >= 3600 {
        let hours = secs / 3600;
        let minutes = (secs % 3600) / 60;
        assert(elapsed(secs, nanos) == text::decimal(hours) + "h "@ + two_digits(minutes) + "m"@);
    } else if secs >= 60 {
        let minutes = secs / 60;
        let seconds = secs % 60;
        assert(elapsed(secs, nanos) == text::decimal(minutes) + "m "@ + two_digits(seconds)
            + "s"@);
    }
}

/// Less than a second is shown in tenths: the nearest.
pub proof fn lemma_tenths(nanos: nat)
    requires
        nanos < 1_000_000_000,
    ensures
        -50_000_000 <= nanos - tenths(nanos) * 100_000_000 <= 50_000_000,
        tenths(nanos) <= 10,
        elapsed(0, nanos) == text::decimal(tenths(nanos) / 10) + "."@ + seq![
            text::digit(tenths(nanos) % 10),
        ] + "s"@,
{
}

/// The report begins with the path that was scanned, where it is known, and ends with the
/// last directory: by its number, why it was scanned the slow way, its path and the error.
/// Without any it says so.
pub proof fn lemma_reported(
    scan_path: Seq<char>,
    duration: Option<(u64, u32)>,
    summary: Option<Seq<char>>,
    details: Seq<scanner::Fallback>,
    last: scanner::Fallback,
)
    ensures
        text::has_prefix(
            report(Some(scan_path), duration, summary, details),
            "Disk Cleaner Windows compatibility report\n"@
                + "========================================\n\n"@ + "Scan path: "@ + scan_path
                + "\n"@,
        ),
        text::has_suffix(
            report(Some(scan_path), duration, summary, details.push(last)),
            text::decimal((details.len() + 1) as nat) + ". ["@ + last.kind.title() + "] "@
                + last.path + "\n   "@ + last.error + "\n"@,
        ),
        text::has_suffix(
            report(Some(scan_path), duration, summary, Seq::empty()),
            "Captured entries: "@ + text::decimal(0) + "\n\n"@
                + "No compatibility details were recorded.\n"@,
        ),
{
    let all = report(Some(scan_path), duration, summary, details);
    let head = "Disk Cleaner Windows compatibility report\n"@
        + "========================================\n\n"@ + "Scan path: "@ + scan_path + "\n"@;
    assert(all.take(head.len() as int) =~= head);
    let more = details.push(last);
    assert(more[more.len() - 1] == last);
    let longer = report(Some(scan_path), duration, summary, more);
    let end = text::decimal((details.len() + 1) as nat) + ". ["@ + last.kind.title() + "] "@
        + last.path + "\n   "@ + last.error + "\n"@;
    assert(detail_lines(more, more.len()) =~= detail_lines(more, details.len()) + end);
    assert(longer.skip(longer.len() - end.len()) =~= end);
    let none = report(Some(scan_path), duration, summary, Seq::empty());
    let tail = "Captured entries: "@ + text::decimal(0) + "\n\n"@
        + "No compatibility details were recorded.\n"@;
    assert(none.skip(none.len() - tail.len()) =~= tail);
}

/// The directories are listed in their order: one more leaves the lines of the others as
/// they were, before its own.
pub proof fn lemma_details_in_turn(
    details: Seq<scanner::Fallback>,
    last: scanner::Fallback,
    n: nat,
)
    requires
        n <= details.len(),
    ensures
        detail_lines(details.push(last), n) == detail_lines(details, n),
        text::has_prefix(
            detail_lines(details.push(last), (details.len() + 1) as nat),
            detail_lines(details, details.len()),
        ),
{
    let more = details.push(last);
    lemma_all_kept(details, last, n);
    lemma_all_kept(details, last, details.len());
    let before = detail_lines(details, details.len());
    let all = detail_lines(more, (details.len() + 1) as nat);
    assert(all.take(before.len() as int) =~= before);
}

proof fn lemma_all_kept(details: Seq<scanner::Fallback>, last: scanner::Fallback, n: nat)
    requires
        n <= details.len(),
    ensures
        detail_lines(details.push(last), n) == detail_lines(details, n),
    decreases n,
{
    if n > 0 {
        lemma_all_kept(details, last, (n - 1) as nat);
        assert(details.push(last)[n - 1] == details[n - 1]);
    }
}

} // verus!
