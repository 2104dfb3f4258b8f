//! Usage extraction and threshold evaluation for Btrfs free-space reports.
//!
//! The extraction side reads the textual reports of the volume-usage
//! command: each report is scanned line by line, only the first line
//! matching a label is trusted, values are trimmed of surrounding
//! whitespace, and a malformed numeric field degrades to zero while a
//! wholly absent field is a hard failure. The evaluation side turns the
//! extracted figures and a percentage threshold into a warning message,
//! or into no message at all.

use vstd::prelude::*;

use crate::num::{all_digits, digits_val, parse_or_zero, parse_u64_or_zero, spec_dec, dec_u8};
use crate::text::{
    find, rfind, occurs_at, spec_lines, spec_trim, split_lines, find_pattern, rfind_pattern, trim,
    pattern_at, lemma_find_from_complete, lemma_find_from_sound, lemma_rfind_below_complete,
    lemma_rfind_below_sound,
};

verus! {

/// Raw Btrfs filesystem data usage in bytes.
#[derive(Clone, Copy, Debug, PartialEq, Eq, Structural)]
pub struct UsageRaw {
    pub device_size: u64,
    pub free: u64,
}

/// Human readable Btrfs filesystem data usage (e.g., 1K 234M 2G).
#[derive(Clone, Debug)]
pub struct UsageHuman {
    pub free: String,
    pub free_min: String,
}

/// A required field was entirely absent from a usage report.
#[derive(Clone, Copy, Debug, PartialEq, Eq, Structural)]
pub enum ParseError {
    /// No line of the raw-byte report carries the "Device size:" label.
    MissingDeviceSize,
    /// No line of the raw-byte report carries the "Free (estimated):"
    /// label with a parenthesized suffix.
    MissingFreeEstimatedRaw,
    /// No line of the human-readable report carries the
    /// "Free (estimated):" label with a "(min: ...)" suffix.
    MissingFreeEstimatedHuman,
}

impl ParseError {
    /// The message a failed extraction reports, naming the missing field.
    pub open spec fn spec_message(self) -> Seq<char> {
        match self {
            ParseError::MissingDeviceSize => {
                "parse error in filesystem data usage: at 'Device size' in raw bytes"@
            },
            ParseError::MissingFreeEstimatedRaw => {
                "parse error in filesystem data usage: at 'Free (estimated)' in raw bytes"@
            },
            ParseError::MissingFreeEstimatedHuman => {
                "parse error in filesystem data usage: at 'Free (estimated)'"@
            },
        }
    }

    /// Render the message naming the missing field.
    pub fn message(&self) -> (r: String)
        ensures
            r@ == self.spec_message(),
    {
        match self {
            ParseError::MissingDeviceSize => {
                String::from_str("parse error in filesystem data usage: at 'Device size' in raw bytes")
            },
            ParseError::MissingFreeEstimatedRaw => {
                String::from_str(
                    "parse error in filesystem data usage: at 'Free (estimated)' in raw bytes",
                )
            },
            ParseError::MissingFreeEstimatedHuman => {
                String::from_str("parse error in filesystem data usage: at 'Free (estimated)'")
            },
        }
    }
}

/// The label of the device-size line of the raw-byte report.
pub open spec fn device_size_label() -> Seq<char> {
    "Device size:"@
}

/// The label of the free-estimate line of both reports.
pub open spec fn free_estimated_label() -> Seq<char> {
    "Free (estimated):"@
}

/// The marker that opens the minimum-free value of the human-readable
/// free-estimate line.
pub open spec fn min_marker() -> Seq<char> {
    "(min:"@
}

/// The value text a "Device size:" line yields: everything after the first
/// occurrence of the label.
pub open spec fn device_capture(line: Seq<char>) -> Option<Seq<char>> {
    match find(line, device_size_label()) {
        Some(i) => Some(line.subrange(i + device_size_label().len(), line.len() as int)),
        None => None,
    }
}

/// The value text a raw-byte "Free (estimated):" line yields: what stands
/// between the first occurrence of the label and the last opening
/// parenthesis after it.
pub open spec fn free_raw_capture(line: Seq<char>) -> Option<Seq<char>> {
    match find(line, free_estimated_label()) {
        Some(i) => {
            let rest = line.subrange(i + free_estimated_label().len(), line.len() as int);
            match rfind(rest, seq!['(']) {
                Some(j) => Some(rest.subrange(0, j)),
                None => None,
            }
        },
        None => None,
    }
}

/// A "(min:" marker stands at `k` in `s` and some closing parenthesis
/// follows it: only such a marker completes the pattern.
pub open spec fn min_marker_matches_at(s: Seq<char>, k: int) -> bool {
    occurs_at(s, min_marker(), k) && exists|j: int|
        k + min_marker().len() <= j && occurs_at(s, seq![')'], j)
}

/// The greatest position below `i` of a "(min:" marker that still has a
/// closing parenthesis after it, if any: an incomplete later marker is
/// passed over in favour of an earlier complete one.
pub open spec fn last_min_marker(s: Seq<char>, i: int) -> Option<int>
    decreases i,
{
    if i <= 0 {
        None
    } else if min_marker_matches_at(s, i - 1) {
        Some(i - 1)
    } else {
        last_min_marker(s, i - 1)
    }
}

/// The two value texts a human-readable "Free (estimated):" line yields:
/// what stands between the label and the chosen "(min:" marker — the
/// last one that a closing parenthesis still follows — and what stands
/// between that marker and the last closing parenthesis after it.
pub open spec fn human_capture(line: Seq<char>) -> Option<(Seq<char>, Seq<char>)> {
    match find(line, free_estimated_label()) {
        Some(i) => {
            let rest = line.subrange(i + free_estimated_label().len(), line.len() as int);
            match last_min_marker(rest, rest.len() as int) {
                Some(k) => {
                    let tail = rest.subrange(k + min_marker().len(), rest.len() as int);
                    match rfind(tail, seq![')']) {
                        // the marker's closing parenthesis makes this arm the only one
                        Some(j) => Some((rest.subrange(0, k), tail.subrange(0, j))),
                        None => None,
                    }
                },
                None => None,
            }
        },
        None => None,
    }
}

fn device_capture_exec<'a>(line: &'a str) -> (r: Option<&'a str>)
    ensures
        r is Some <==> device_capture(line@) is Some,
        r matches Some(c) ==> device_capture(line@) == Some(c@),
{
    let n: usize = line.unicode_len();
    match find_pattern(line, "Device size:") {
        Some(i) => {
            let lab: usize = "Device size:".unicode_len();
            Some(line.substring_char(i + lab, n))
        },
        None => None,
    }
}

fn free_raw_capture_exec<'a>(line: &'a str) -> (r: Option<&'a str>)
    ensures
        r is Some <==> free_raw_capture(line@) is Some,
        r matches Some(c) ==> free_raw_capture(line@) == Some(c@),
{
    proof {
        reveal_strlit("(");
        assert("("@ =~= seq!['(']);
    }
    let n: usize = line.unicode_len();
    match find_pattern(line, "Free (estimated):") {
        Some(i) => {
            let lab: usize = "Free (estimated):".unicode_len();
            let rest = line.substring_char(i + lab, n);
            match rfind_pattern(rest, "(") {
                Some(j) => Some(rest.substring_char(0, j)),
                None => None,
            }
        },
        None => None,
    }
}

/// Scan a line's remainder right to left for the last "(min:" marker
/// that a closing parenthesis still follows.
#[verifier::loop_isolation(false)]
fn find_last_complete_marker(rest: &str) -> (r: Option<usize>)
    ensures
        r is Some <==> last_min_marker(rest@, rest@.len() as int) is Some,
        r matches Some(k) ==> last_min_marker(rest@, rest@.len() as int) == Some(k as int)
            && min_marker_matches_at(rest@, k as int),
{
    proof {
        reveal_strlit(")");
        assert(")"@ =~= seq![')']);
    }
    let rn: usize = rest.unicode_len();
    let mark: usize = "(min:".unicode_len();
    let close = rfind_pattern(rest, ")");
    proof {
        if close is Some {
            lemma_rfind_below_sound(rest@, seq![')'], rn as int);
        } else {
            assert forall|m: int| !occurs_at(rest@, seq![')'], m) by {
                if occurs_at(rest@, seq![')'], m) {
                    lemma_rfind_below_complete(rest@, seq![')'], m, rn as int);
                }
            }
        }
    }
    let mut ii: usize = rn;
    while ii > 0
        invariant
            ii <= rn,
            last_min_marker(rest@, rn as int) == last_min_marker(rest@, ii as int),
        decreases ii,
    {
        let k = ii - 1;
        let is_marker = pattern_at(rest, "(min:", k);
        let has_close: bool = match close {
            Some(jr) => jr >= mark && k <= jr - mark,
            None => false,
        };
        if is_marker && has_close {
            proof {
                let jr = close.unwrap();
                assert(k + min_marker().len() <= jr && occurs_at(rest@, seq![')'], jr as int));
                assert(min_marker_matches_at(rest@, k as int));
            }
            return Some(k);
        }
        proof {
            if min_marker_matches_at(rest@, k as int) {
                let j = choose|j: int|
                    k + min_marker().len() <= j && occurs_at(rest@, seq![')'], j);
                assert(close is Some);
                let jr = close.unwrap();
                assert(j <= jr);
                assert(false);
            }
        }
        ii = k;
    }
    None
}

fn human_capture_exec<'a>(line: &'a str) -> (r: Option<(&'a str, &'a str)>)
    ensures
        r is Some <==> human_capture(line@) is Some,
        r matches Some(c) ==> human_capture(line@) == Some((c.0@, c.1@)),
{
    proof {
        reveal_strlit(")");
        assert(")"@ =~= seq![')']);
    }
    let n: usize = line.unicode_len();
    match find_pattern(line, "Free (estimated):") {
        Some(i) => {
            let lab: usize = "Free (estimated):".unicode_len();
            let rest = line.substring_char(i + lab, n);
            let rn: usize = rest.unicode_len();
            match find_last_complete_marker(rest) {
                Some(k) => {
                    let mark: usize = "(min:".unicode_len();
                    let tail = rest.substring_char(k + mark, rn);
                    let tail_close = rfind_pattern(tail, ")");
                    proof {
                        assert(min_marker_matches_at(rest@, k as int));
                        assert(exists|j: int|
                            k as int + min_marker().len() <= j && occurs_at(rest@, seq![')'], j));
                        let j = choose|j: int|
                            k as int + min_marker().len() <= j && occurs_at(rest@, seq![')'], j);
                        assert(k as int + min_marker().len() <= j && occurs_at(rest@, seq![')'], j));
                        assert(rest@[j + 0] == seq![')'][0]);
                        assert(tail@[j - k - mark] == ')');
                        assert(occurs_at(tail@, seq![')'], j - k - mark));
                        lemma_rfind_below_complete(
                            tail@,
                            seq![')'],
                            j - k - mark,
                            tail@.len() as int,
                        );
                    }
                    let j = tail_close.unwrap();
                    Some((rest.substring_char(0, k), tail.substring_char(0, j)))
                },
                None => None,
            }
        },
        None => None,
    }
}

/// The views of a vector of line slices.
pub open spec fn views_of(lines: Seq<&str>) -> Seq<Seq<char>> {
    lines.map_values(|l: &str| l@)
}

/// The capture of the first line at or after `i` whose device-size
/// extraction succeeds, if any.
pub open spec fn first_device_capture(lines: Seq<Seq<char>>, i: int) -> Option<Seq<char>>
    decreases lines.len() - i,
{
    if i < 0 || i >= lines.len() {
        None
    } else {
        match device_capture(lines[i]) {
            Some(c) => Some(c),
            None => first_device_capture(lines, i + 1),
        }
    }
}

/// The capture of the first line at or after `i` whose raw free-estimate
/// extraction succeeds, if any.
pub open spec fn first_free_raw_capture(lines: Seq<Seq<char>>, i: int) -> Option<Seq<char>>
    decreases lines.len() - i,
{
    if i < 0 || i >= lines.len() {
        None
    } else {
        match free_raw_capture(lines[i]) {
            Some(c) => Some(c),
            None => first_free_raw_capture(lines, i + 1),
        }
    }
}

/// The captures of the first line at or after `i` whose human-readable
/// free-estimate extraction succeeds, if any.
pub open spec fn first_human_capture(lines: Seq<Seq<char>>, i: int) -> Option<(Seq<char>, Seq<char>)>
    decreases lines.len() - i,
{
    if i < 0 || i >= lines.len() {
        None
    } else {
        match human_capture(lines[i]) {
            Some(c) => Some(c),
            None => first_human_capture(lines, i + 1),
        }
    }
}

/// The device size the raw-byte report text yields, if any line carries
/// the label: the first matching line's value, trimmed and read as a
/// number, zero when unparsable.
pub open spec fn spec_device_size(text: Seq<char>) -> Option<u64> {
    match first_device_capture(spec_lines(text), 0) {
        Some(c) => Some(parse_or_zero(spec_trim(c))),
        None => None,
    }
}

/// The free estimate the raw-byte report text yields, if any line matches.
pub open spec fn spec_free_raw(text: Seq<char>) -> Option<u64> {
    match first_free_raw_capture(spec_lines(text), 0) {
        Some(c) => Some(parse_or_zero(spec_trim(c))),
        None => None,
    }
}

/// The free and minimum-free display strings the human-readable report
/// text yields, if any line matches: the first matching line's values,
/// trimmed.
pub open spec fn spec_human_usage(text: Seq<char>) -> Option<(Seq<char>, Seq<char>)> {
    match first_human_capture(spec_lines(text), 0) {
        Some(c) => Some((spec_trim(c.0), spec_trim(c.1))),
        None => None,
    }
}

fn scan_device(lines: &Vec<&str>) -> (r: Option<u64>)
    ensures
        r is Some <==> first_device_capture(views_of(lines@), 0) is Some,
        r matches Some(v) ==> v == parse_or_zero(
            spec_trim(first_device_capture(views_of(lines@), 0).unwrap()),
        ),
{
    let n: usize = lines.len();
    let mut i: usize = 0;
    while i < n
        invariant
            n == lines@.len(),
            i <= n,
            first_device_capture(views_of(lines@), 0) == first_device_capture(
                views_of(lines@),
                i as int,
            ),
        decreases n - i,
    {
        proof {
            assert(views_of(lines@)[i as int] == lines@[i as int]@);
        }
        match device_capture_exec(lines[i]) {
            Some(cap) => {
                let t = trim(cap);
                return Some(parse_u64_or_zero(t));
            },
            None => {
                i = i + 1;
            },
        }
    }
    None
}

fn scan_free_raw(lines: &Vec<&str>) -> (r: Option<u64>)
    ensures
        r is Some <==> first_free_raw_capture(views_of(lines@), 0) is Some,
        r matches Some(v) ==> v == parse_or_zero(
            spec_trim(first_free_raw_capture(views_of(lines@), 0).unwrap()),
        ),
{
    let n: usize = lines.len();
    let mut i: usize = 0;
    while i < n
        invariant
            n == lines@.len(),
            i <= n,
            first_free_raw_capture(views_of(lines@), 0) == first_free_raw_capture(
                views_of(lines@),
                i as int,
            ),
        decreases n - i,
    {
        proof {
            assert(views_of(lines@)[i as int] == lines@[i as int]@);
        }
        match free_raw_capture_exec(lines[i]) {
            Some(cap) => {
                let t = trim(cap);
                return Some(parse_u64_or_zero(t));
            },
            None => {
                i = i + 1;
            },
        }
    }
    None
}

fn scan_human(lines: &Vec<&str>) -> (r: Option<UsageHuman>)
    ensures
        r is Some <==> first_human_capture(views_of(lines@), 0) is Some,
        r matches Some(u) ==> ({
            let c = first_human_capture(views_of(lines@), 0).unwrap();
            u.free@ == spec_trim(c.0) && u.free_min@ == spec_trim(c.1)
        }),
{
    let n: usize = lines.len();
    let mut i: usize = 0;
    while i < n
        invariant
            n == lines@.len(),
            i <= n,
            first_human_capture(views_of(lines@), 0) == first_human_capture(
                views_of(lines@),
                i as int,
            ),
        decreases n - i,
    {
        proof {
            assert(views_of(lines@)[i as int] == lines@[i as int]@);
        }
        match human_capture_exec(lines[i]) {
            Some(cap) => {
                let free = String::from_str(trim(cap.0));
                let free_min = String::from_str(trim(cap.1));
                return Some(UsageHuman { free, free_min });
            },
            None => {
                i = i + 1;
            },
        }
    }
    None
}

/// Extract the numeric device-size and free-estimate fields from the text
/// of a raw-byte usage report. Each field comes from the first line
/// carrying its label, trimmed, an unparsable value degrading to zero; a
/// report with no such line at all is a parse error naming the field.
pub fn extract_usage_raw(buf: &str) -> (r: Result<UsageRaw, ParseError>)
    ensures
        spec_device_size(buf@) is None ==> (r matches Err(e) && e
            == ParseError::MissingDeviceSize),
        spec_device_size(buf@) is Some && spec_free_raw(buf@) is None ==> (r matches Err(e) && e
            == ParseError::MissingFreeEstimatedRaw),
        spec_device_size(buf@) is Some && spec_free_raw(buf@) is Some ==> (r matches Ok(u)
            && u.device_size == spec_device_size(buf@).unwrap() && u.free == spec_free_raw(
            buf@,
        ).unwrap()),
{
    let lines = split_lines(buf);
    proof {
        assert(views_of(lines@) =~= spec_lines(buf@));
    }
    let device_size = match scan_device(&lines) {
        Some(v) => v,
        None => {
            return Err(ParseError::MissingDeviceSize);
        },
    };
    let free = match scan_free_raw(&lines) {
        Some(v) => v,
        None => {
            return Err(ParseError::MissingFreeEstimatedRaw);
        },
    };
    Ok(UsageRaw { device_size, free })
}

/// Extract the free and minimum-free display strings from the text of a
/// human-readable usage report: the first line carrying the label with a
/// "(min: ...)" suffix decides, both values trimmed; a report with no such
/// line is a parse error naming the field.
pub fn extract_usage_human(buf: &str) -> (r: Result<UsageHuman, ParseError>)
    ensures
        spec_human_usage(buf@) is None ==> (r matches Err(e) && e
            == ParseError::MissingFreeEstimatedHuman),
        spec_human_usage(buf@) is Some ==> (r matches Ok(u) && u.free@ == spec_human_usage(
            buf@,
        ).unwrap().0 && u.free_min@ == spec_human_usage(buf@).unwrap().1),
{
    let lines = split_lines(buf);
    proof {
        assert(views_of(lines@) =~= spec_lines(buf@));
    }
    match scan_human(&lines) {
        Some(u) => Ok(u),
        None => Err(ParseError::MissingFreeEstimatedHuman),
    }
}

/// The threshold, clamped to the closed range of valid percentages.
pub open spec fn spec_clamp(limit: u8) -> u8 {
    if limit > 100 {
        100
    } else {
        limit
    }
}

/// The free-space percentage: free bytes times one hundred, divided by the
/// device size (multiply first, truncating division), capped at one
/// hundred.
pub open spec fn spec_free_percentage(free: u64, device_size: u64) -> u8
    recommends
        device_size > 0,
{
    let p = free as int * 100 / device_size as int;
    if p > 100 {
        100
    } else {
        p as u8
    }
}

/// The message reported for a degenerate device size of zero.
pub open spec fn spec_error_message(path: Seq<char>) -> Seq<char> {
    "ERROR: "@ + path + ": device size is 0"@
}

/// The warning message: path, human-readable free and minimum-free
/// amounts, computed free percentage and clamped threshold.
pub open spec fn spec_warning_message(
    path: Seq<char>,
    free: Seq<char>,
    free_min: Seq<char>,
    free_percentage: u8,
    limit: u8,
) -> Seq<char> {
    "WARNING: "@ + path + ", free: "@ + free + " (min: "@ + free_min + "), "@ + spec_dec(
        free_percentage as int,
    ) + "% (limit: "@ + spec_dec(limit as int) + "%)"@
}

/// What the threshold evaluation yields: the degenerate-state message when
/// the device size is zero; otherwise a warning exactly when the free
/// percentage falls below the clamped threshold, and no message at all
/// otherwise.
pub open spec fn spec_usage_warning(
    path: Seq<char>,
    limit: u8,
    raw: UsageRaw,
    free: Seq<char>,
    free_min: Seq<char>,
) -> Option<Seq<char>> {
    if raw.device_size == 0 {
        Some(spec_error_message(path))
    } else {
        let lim = spec_clamp(limit);
        let fp = spec_free_percentage(raw.free, raw.device_size);
        if fp < lim {
            Some(spec_warning_message(path, free, free_min, fp, lim))
        } else {
            None
        }
    }
}

/// Decide whether to warn, and format the warning text. A device size of
/// zero short-circuits into an error-style message before any percentage
/// arithmetic; otherwise a warning line is produced exactly when the free
/// percentage falls below the clamped threshold.
pub fn usage_warning(
    path: &str,
    free_limit_percentage: u8,
    usage_raw: &UsageRaw,
    usage_human: &UsageHuman,
) -> (r: Option<String>)
    ensures
        ({
            let w = spec_usage_warning(
                path@,
                free_limit_percentage,
                *usage_raw,
                usage_human.free@,
                usage_human.free_min@,
            );
            &&& (r is Some <==> w is Some)
            &&& (r matches Some(m) ==> m@ == w.unwrap())
        }),
{
    if usage_raw.device_size == 0 {
        let mut m = String::from_str("ERROR: ");
        m.append(path);
        m.append(": device size is 0");
        proof {
            assert(m@ =~= spec_error_message(path@));
        }
        return Some(m);
    }
    let limit: u8 = if free_limit_percentage > 100 {
        100
    } else {
        free_limit_percentage
    };
    let p128: u128 = (usage_raw.free as u128) * 100 / (usage_raw.device_size as u128);
    let free_percentage: u8 = if p128 > 100 {
        100
    } else {
        p128 as u8
    };
    proof {
        assert(free_percentage == spec_free_percentage(usage_raw.free, usage_raw.device_size));
    }
    if free_percentage < limit {
        let mut m = String::from_str("WARNING: ");
        m.append(path);
        m.append(", free: ");
        m.append(usage_human.free.as_str());
        m.append(" (min: ");
        m.append(usage_human.free_min.as_str());
        m.append("), ");
        let fps = dec_u8(free_percentage);
        m.append(fps.as_str());
        m.append("% (limit: ");
        let ls = dec_u8(limit);
        m.append(ls.as_str());
        m.append("%)");
        proof {
            assert(m@ =~= spec_warning_message(
                path@,
                usage_human.free@,
                usage_human.free_min@,
                free_percentage,
                limit,
            ));
        }
        Some(m)
    } else {
        None
    }
}

/// Returns a warning if Btrfs filesystem data usage drops below the free
/// limit percentage. Path is the Btrfs filesystem location; the two
/// report texts are the output of the volume-usage command in raw-byte
/// and in human-readable form. A report missing a required field is a
/// parse error; a zero device size or a shortfall of free space is a
/// message, and ample free space is no message at all.
pub fn btrfs_usage(
    path: &str,
    free_limit_percentage: u8,
    raw_report: &str,
    human_report: &str,
) -> (r: Result<Option<String>, ParseError>)
    ensures
        spec_device_size(raw_report@) is None ==> (r matches Err(e) && e
            == ParseError::MissingDeviceSize),
        spec_device_size(raw_report@) is Some && spec_free_raw(raw_report@) is None ==> (r matches
            Err(e) && e == ParseError::MissingFreeEstimatedRaw),
        spec_device_size(raw_report@) is Some && spec_free_raw(raw_report@) is Some
            && spec_human_usage(human_report@) is None ==> (r matches Err(e) && e
            == ParseError::MissingFreeEstimatedHuman),
        spec_device_size(raw_report@) is Some && spec_free_raw(raw_report@) is Some
            && spec_human_usage(human_report@) is Some ==> (r matches Ok(w) && ({
            let raw = UsageRaw {
                device_size: spec_device_size(raw_report@).unwrap(),
                free: spec_free_raw(raw_report@).unwrap(),
            };
            let human = spec_human_usage(human_report@).unwrap();
            let spec_w = spec_usage_warning(path@, free_limit_percentage, raw, human.0, human.1);
            &&& (w is Some <==> spec_w is Some)
            &&& (w matches Some(m) ==> m@ == spec_w.unwrap())
        })),
{
    let raw = match extract_usage_raw(raw_report) {
        Ok(u) => u,
        Err(e) => {
            return Err(e);
        },
    };
    let human = match extract_usage_human(human_report) {
        Ok(u) => u,
        Err(e) => {
            return Err(e);
        },
    };
    Ok(usage_warning(path, free_limit_percentage, &raw, &human))
}

proof fn lemma_first_device_capture_skip(lines: Seq<Seq<char>>, k: int, i: int)
    requires
        0 <= k <= i <= lines.len(),
        forall|j: int| k <= j < i ==> device_capture(lines[j]) is None,
    ensures
        first_device_capture(lines, k) == first_device_capture(lines, i),
    decreases i - k,
{
    if k < i {
        lemma_first_device_capture_skip(lines, k + 1, i);
    }
}

proof fn lemma_first_free_raw_capture_skip(lines: Seq<Seq<char>>, k: int, i: int)
    requires
        0 <= k <= i <= lines.len(),
        forall|j: int| k <= j < i ==> free_raw_capture(lines[j]) is None,
    ensures
        first_free_raw_capture(lines, k) == first_free_raw_capture(lines, i),
    decreases i - k,
{
    if k < i {
        lemma_first_free_raw_capture_skip(lines, k + 1, i);
    }
}

proof fn lemma_first_human_capture_skip(lines: Seq<Seq<char>>, k: int, i: int)
    requires
        0 <= k <= i <= lines.len(),
        forall|j: int| k <= j < i ==> human_capture(lines[j]) is None,
    ensures
        first_human_capture(lines, k) == first_human_capture(lines, i),
    decreases i - k,
{
    if k < i {
        lemma_first_human_capture_skip(lines, k + 1, i);
    }
}

/// Law: a line yields a device-size value exactly when it contains the
/// "Device size:" label.
pub proof fn lemma_device_line_matches(line: Seq<char>)
    ensures
        device_capture(line) is Some <==> exists|k: int| occurs_at(line, device_size_label(), k),
{
    if device_capture(line) is Some {
        lemma_find_from_sound(line, device_size_label(), 0);
    }
    if exists|k: int| occurs_at(line, device_size_label(), k) {
        let k = choose|k: int| occurs_at(line, device_size_label(), k);
        lemma_find_from_complete(line, device_size_label(), 0, k);
    }
}

/// Law: in well-formed raw-report text the first line carrying the
/// "Device size:" label alone decides the extracted device size,
/// regardless of surrounding unrelated lines, and a value written as a
/// run of digits is returned exactly as written, after trimming.
pub proof fn lemma_device_size_first_match(text: Seq<char>, i: int, d: Seq<char>)
    requires
        0 <= i < spec_lines(text).len(),
        device_capture(spec_lines(text)[i]) is Some,
        forall|j: int| 0 <= j < i ==> device_capture(spec_lines(text)[j]) is None,
        spec_trim(device_capture(spec_lines(text)[i]).unwrap()) == d,
        d.len() > 0,
        all_digits(d),
        digits_val(d) <= u64::MAX,
    ensures
        spec_device_size(text) == Some(digits_val(d) as u64),
{
    lemma_first_device_capture_skip(spec_lines(text), 0, i);
    assert(first_device_capture(spec_lines(text), i) == Some(
        device_capture(spec_lines(text)[i]).unwrap(),
    ));
}

/// Law: a line yields a raw free-estimate value exactly when it contains
/// the "Free (estimated):" label with an opening parenthesis somewhere
/// after it.
pub proof fn lemma_free_raw_line_matches(line: Seq<char>)
    ensures
        free_raw_capture(line) is Some <==> (exists|k: int, j: int|
            occurs_at(line, free_estimated_label(), k) && k + free_estimated_label().len() <= j
                && occurs_at(line, seq!['('], j)),
{
    let lab = free_estimated_label();
    let l = lab.len() as int;
    if free_raw_capture(line) is Some {
        lemma_find_from_sound(line, lab, 0);
        let i = find(line, lab).unwrap();
        let rest = line.subrange(i + l, line.len() as int);
        lemma_rfind_below_sound(rest, seq!['('], rest.len() as int);
        let j = rfind(rest, seq!['(']).unwrap();
        assert(occurs_at(line, seq!['('], i + l + j));
        assert(occurs_at(line, lab, i) && i + l <= i + l + j && occurs_at(
            line,
            seq!['('],
            i + l + j,
        ));
    }
    if exists|k: int, j: int|
        occurs_at(line, lab, k) && k + l <= j && occurs_at(line, seq!['('], j) {
        let (k, j) = choose|k: int, j: int|
            occurs_at(line, lab, k) && k + l <= j && occurs_at(line, seq!['('], j);
        lemma_find_from_complete(line, lab, 0, k);
        lemma_find_from_sound(line, lab, 0);
        let i = find(line, lab).unwrap();
        assert(i <= k);
        let rest = line.subrange(i + l, line.len() as int);
        assert(occurs_at(rest, seq!['('], j - i - l));
        lemma_rfind_below_complete(rest, seq!['('], j - i - l, rest.len() as int);
    }
}

/// Law: in well-formed raw-report text the first line carrying the
/// "Free (estimated):" label with a parenthesized suffix alone decides
/// the extracted free estimate, regardless of surrounding unrelated
/// lines, and a value written as a run of digits is returned exactly as
/// written, after trimming.
pub proof fn lemma_free_raw_first_match(text: Seq<char>, i: int, d: Seq<char>)
    requires
        0 <= i < spec_lines(text).len(),
        free_raw_capture(spec_lines(text)[i]) is Some,
        forall|j: int| 0 <= j < i ==> free_raw_capture(spec_lines(text)[j]) is None,
        spec_trim(free_raw_capture(spec_lines(text)[i]).unwrap()) == d,
        d.len() > 0,
        all_digits(d),
        digits_val(d) <= u64::MAX,
    ensures
        spec_free_raw(text) == Some(digits_val(d) as u64),
{
    lemma_first_free_raw_capture_skip(spec_lines(text), 0, i);
    assert(first_free_raw_capture(spec_lines(text), i) == Some(
        free_raw_capture(spec_lines(text)[i]).unwrap(),
    ));
}

/// Law: in well-formed human-report text the first line matching
/// "Free (estimated): A (min: B)" alone decides the extraction, which
/// yields exactly A and B, each trimmed of surrounding whitespace.
pub proof fn lemma_human_usage_first_match(text: Seq<char>, i: int)
    requires
        0 <= i < spec_lines(text).len(),
        human_capture(spec_lines(text)[i]) is Some,
        forall|j: int| 0 <= j < i ==> human_capture(spec_lines(text)[j]) is None,
    ensures
        spec_human_usage(text) == Some(
            (
                spec_trim(human_capture(spec_lines(text)[i]).unwrap().0),
                spec_trim(human_capture(spec_lines(text)[i]).unwrap().1),
            ),
        ),
{
    lemma_first_human_capture_skip(spec_lines(text), 0, i);
    assert(first_human_capture(spec_lines(text), i) == Some(
        human_capture(spec_lines(text)[i]).unwrap(),
    ));
}

/// Law: the evaluation is monotonic in the threshold — raising the
/// threshold while holding the usage figures fixed can only turn a silent
/// result into a warning, never the reverse.
pub proof fn lemma_usage_warning_monotonic(
    path: Seq<char>,
    limit1: u8,
    limit2: u8,
    raw: UsageRaw,
    free: Seq<char>,
    free_min: Seq<char>,
)
    requires
        limit1 <= limit2,
        spec_usage_warning(path, limit1, raw, free, free_min) is Some,
    ensures
        spec_usage_warning(path, limit2, raw, free, free_min) is Some,
{
}

/// Law: with a device size of zero the evaluation yields the
/// degenerate-state message, whatever the free bytes, the threshold and
/// the display strings.
pub proof fn lemma_zero_device_size(
    path: Seq<char>,
    limit: u8,
    free: u64,
    hfree: Seq<char>,
    hmin: Seq<char>,
)
    ensures
        spec_usage_warning(path, limit, UsageRaw { device_size: 0, free }, hfree, hmin) == Some(
            spec_error_message(path),
        ),
{
}

/// Law: a threshold above one hundred behaves identically to a threshold
/// of exactly one hundred.
pub proof fn lemma_threshold_clamped(
    path: Seq<char>,
    limit: u8,
    raw: UsageRaw,
    free: Seq<char>,
    free_min: Seq<char>,
)
    requires
        limit >= 100,
    ensures
        spec_usage_warning(path, limit, raw, free, free_min) == spec_usage_warning(
            path,
            100,
            raw,
            free,
            free_min,
        ),
{
}

} // verus!
