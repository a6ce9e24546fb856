//! Progress of the download and separation tools, read from the lines they
//! print.
use vstd::prelude::*;

use regex::Regex;

use crate::lrc::{decimal, digit_value, is_digit};
use crate::text::{chars_of, string_from_chars};
use vstd::string::StringExecFns;

verus! {

/// Group 1 of every match of `(\d{1,3})%` in a line, in order (the demucs
/// progress: whole percentages).
pub uninterp spec fn whole_percent_captures(line: Seq<char>) -> Seq<Seq<char>>;

/// Group 1 of every match of `(\d{1,3}(?:\.\d+)?)%` in a line, in order (the
/// yt-dlp progress: percentages with optional decimals).
pub uninterp spec fn percent_captures(line: Seq<char>) -> Seq<Seq<char>>;

pub open spec fn view_opt(o: Option<String>) -> Option<Seq<char>> {
    match o {
        Some(s) => Some(s@),
        None => None,
    }
}

pub open spec fn strings_view(v: Seq<String>) -> Seq<Seq<char>> {
    v.map_values(|s: String| s@)
}

/// The last capture of a line, if it has any.
pub open spec fn last_capture(caps: Seq<Seq<char>>) -> Option<Seq<char>> {
    if caps.len() == 0 {
        None
    } else {
        Some(caps.last())
    }
}

/// `Regex::captures_iter` with `(\d{1,3})%`: group 1 of each match.
#[verifier::external_body]
fn whole_percents_in(line: &str) -> (r: Vec<String>)
    ensures
        strings_view(r@) == whole_percent_captures(line@),
{
    let re = Regex::new(r"(\d{1,3})%").unwrap();
    re.captures_iter(line).map(|c| c[1].to_string()).collect()
}

/// `Regex::captures_iter` with `(\d{1,3}(?:\.\d+)?)%`: group 1 of each
/// match.
#[verifier::external_body]
fn percents_in(line: &str) -> (r: Vec<String>)
    ensures
        strings_view(r@) == percent_captures(line@),
{
    let re = Regex::new(r"(\d{1,3}(?:\.\d+)?)%").unwrap();
    re.captures_iter(line).map(|c| c[1].to_string()).collect()
}

/// The last of a line's captures.
fn last_of(mut caps: Vec<String>) -> (r: Option<String>)
    ensures
        view_opt(r) == last_capture(strings_view(caps@)),
{
    let ghost before = caps@;
    let r = caps.pop();
    proof {
        if before.len() > 0 {
            assert(strings_view(before).last() == before.last()@);
        }
    }
    r
}

/// Value of a sequence of decimal digits.
pub open spec fn digits_value(s: Seq<char>) -> int
    decreases s.len(),
{
    if s.len() == 0 {
        0
    } else {
        digits_value(s.drop_last()) * 10 + digit_value(s.last())
    }
}

/// A whole percentage as captured: one to three decimal digits, read as a
/// number; nothing for any other text.
pub open spec fn whole_percent_spec(capture: Seq<char>) -> Option<u32> {
    if 1 <= capture.len() <= 3 && forall|i: int| 0 <= i < capture.len() ==> is_digit(#[trigger] capture[i]) {
        Some(digits_value(capture) as u32)
    } else {
        None
    }
}

/// The number a captured whole percentage stands for.
pub fn whole_percent_value(capture: &str) -> (r: Option<u32>)
    ensures
        r == whole_percent_spec(capture@),
{
    let cs = chars_of(capture);
    let n = cs.len();
    if n < 1 || n > 3 {
        return None;
    }
    let mut v: u32 = 0;
    let mut i: usize = 0;
    while i < n
        invariant
            i <= n <= 3,
            n == cs@.len(),
            cs@ == capture@,
            forall|k: int| 0 <= k < i ==> is_digit(#[trigger] cs@[k]),
            v == digits_value(cs@.take(i as int)),
            v < 1000,
            i == 0 ==> v == 0,
            i == 1 ==> v < 10,
            i == 2 ==> v < 100,
        decreases n - i,
    {
        let c = cs[i];
        if !('0' <= c && c <= '9') {
            return None;
        }
        assert(cs@.take(i + 1).drop_last() =~= cs@.take(i as int));
        v = v * 10 + (c as u32 - 0x30);
        i += 1;
    }
    assert(cs@.take(n as int) =~= cs@);
    Some(v)
}

/// Percentage of a demucs progress line, when it shows one.
pub fn separation_percent(line: &str) -> (r: Option<u32>)
    ensures
        r == match last_capture(whole_percent_captures(line@)) {
            Some(c) => whole_percent_spec(c),
            None => None,
        },
{
    match last_of(whole_percents_in(line)) {
        Some(c) => whole_percent_value(c.as_str()),
        None => None,
    }
}

/// The progress message for a separation percentage.
pub fn separation_message(percent: u32) -> (r: String)
    ensures
        r@ == "Separating... "@ + decimal(percent as nat) + "%"@,
{
    let mut out = chars_of("Separating... ");
    crate::lrc::push_decimal(&mut out, percent as u64);
    out.push('%');
    proof {
        reveal_strlit("%");
        assert(out@ =~= "Separating... "@ + decimal(percent as nat) + "%"@);
    }
    string_from_chars(&out)
}

/// The percentage text of a yt-dlp progress line, when it shows one.
pub fn download_percent_text(line: &str) -> (r: Option<String>)
    ensures
        view_opt(r) == last_capture(percent_captures(line@)),
{
    last_of(percents_in(line))
}

} // verus!
