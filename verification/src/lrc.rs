//! LRC lyrics: parsing `[mm:ss.xx] text` lines and formatting timestamps.
use vstd::prelude::*;

use crate::sort::{
    insert_by, key_is, lemma_insert_by_at, lemma_sort_by_multiset, lemma_sort_by_sorted, lemma_sort_by_stable, sort_by,
};
use crate::text::{chars_of, lines, lines_chars, string_from_chars, trim, trim_chars};

verus! {

/// One timed lyric line.
#[derive(Debug, Clone)]
pub struct LrcLine {
    pub ts_ms: u64,
    pub text: String,
}

/// A line as (timestamp, text).
pub open spec fn lrc_view(l: LrcLine) -> (u64, Seq<char>) {
    (l.ts_ms, l.text@)
}

pub open spec fn lrc_views(v: Seq<LrcLine>) -> Seq<(u64, Seq<char>)> {
    v.map_values(|l: LrcLine| lrc_view(l))
}

pub open spec fn is_digit(c: char) -> bool {
    '0' <= c && c <= '9'
}

pub open spec fn digit_value(c: char) -> int {
    (c as u32) - 0x30
}

/// Two digits at `i` read as a number.
pub open spec fn two_digits(s: Seq<char>, i: int) -> int {
    10 * digit_value(s[i]) + digit_value(s[i + 1])
}

/// The common part `?dd:dd.dd` of a timestamp at `i` (the opening bracket is
/// checked by the caller).
pub open spec fn stamp_body_at(s: Seq<char>, i: int) -> bool {
    0 <= i && i + 10 <= s.len() && is_digit(s[i + 1]) && is_digit(s[i + 2]) && s[i + 3] == ':'
        && is_digit(s[i + 4]) && is_digit(s[i + 5]) && s[i + 6] == '.' && is_digit(s[i + 7])
        && is_digit(s[i + 8])
}

/// `[mm:ss.xx]` or `[mm:ss.xxx]` at position `i`: its value in milliseconds
/// (two fraction digits are centiseconds) and the index just past `]`.
pub open spec fn timestamp_at(s: Seq<char>, i: int) -> Option<(u64, int)> {
    if stamp_body_at(s, i) && s[i] == '[' {
        let base = (two_digits(s, i + 1) * 60 + two_digits(s, i + 4)) * 1000;
        if i + 11 <= s.len() && is_digit(s[i + 9]) && s[i + 10] == ']' {
            Some(((base + 10 * two_digits(s, i + 7) + digit_value(s[i + 9])) as u64, i + 11))
        } else if s[i + 9] == ']' {
            Some(((base + 10 * two_digits(s, i + 7)) as u64, i + 10))
        } else {
            None
        }
    } else {
        None
    }
}

/// The leftmost timestamp at or after `i`.
pub open spec fn first_timestamp(s: Seq<char>, i: int) -> Option<(u64, int)>
    decreases s.len() - i,
{
    if i < 0 || i >= s.len() {
        None
    } else {
        match timestamp_at(s, i) {
            Some(r) => Some(r),
            None => first_timestamp(s, i + 1),
        }
    }
}

/// Length of an enhanced-LRC word stamp `<mm:ss.xx>`/`<mm:ss.xxx>` at `i`, or 0.
pub open spec fn word_stamp_len(s: Seq<char>, i: int) -> int {
    if stamp_body_at(s, i) && s[i] == '<' {
        if i + 11 <= s.len() && is_digit(s[i + 9]) && s[i + 10] == '>' {
            11
        } else if s[i + 9] == '>' {
            10
        } else {
            0
        }
    } else {
        0
    }
}

/// Every word stamp removed, scanning left to right.
pub open spec fn remove_word_stamps(s: Seq<char>) -> Seq<char>
    decreases s.len(),
{
    if s.len() == 0 {
        s
    } else if word_stamp_len(s, 0) > 0 {
        remove_word_stamps(s.skip(word_stamp_len(s, 0)))
    } else {
        seq![s[0]] + remove_word_stamps(s.drop_first())
    }
}

/// One LRC line: the leftmost timestamp and the text after it (trimmed, word
/// stamps removed); `None` without timestamp or with empty text.
pub open spec fn parse_lrc_line(line: Seq<char>) -> Option<(u64, Seq<char>)> {
    let l = trim(line);
    match first_timestamp(l, 0) {
        None => None,
        Some((ts, end)) => {
            let t = trim(remove_word_stamps(trim(l.skip(end))));
            if t.len() > 0 {
                Some((ts, t))
            } else {
                None
            }
        },
    }
}

pub open spec fn line_parser() -> spec_fn(Seq<char>) -> Option<(u64, Seq<char>)> {
    |line: Seq<char>| parse_lrc_line(line)
}

pub open spec fn ts_key() -> spec_fn((u64, Seq<char>)) -> int {
    |e: (u64, Seq<char>)| e.0 as int
}

/// The timed lines of an LRC text in input order.
pub open spec fn lrc_entries(text: Seq<char>) -> Seq<(u64, Seq<char>)> {
    lines(text).filter_map(line_parser())
}

/// `parse_lrc`: the timed lines, stably sorted by timestamp.
pub open spec fn parse_lrc_spec(text: Seq<char>) -> Seq<(u64, Seq<char>)> {
    sort_by(lrc_entries(text), ts_key())
}

fn is_digit_char(c: char) -> (r: bool)
    ensures
        r == is_digit(c),
{
    c >= '0' && c <= '9'
}

fn digit_of(c: char) -> (d: u64)
    requires
        is_digit(c),
    ensures
        d == digit_value(c),
        d < 10,
{
    (c as u32 - 0x30) as u64
}

fn stamp_body(s: &Vec<char>, i: usize) -> (r: bool)
    ensures
        r == stamp_body_at(s@, i as int),
{
    if i > s.len() || s.len() - i < 10 {
        return false;
    }
    is_digit_char(s[i + 1]) && is_digit_char(s[i + 2]) && s[i + 3] == ':' && is_digit_char(s[i + 4])
        && is_digit_char(s[i + 5]) && s[i + 6] == '.' && is_digit_char(s[i + 7]) && is_digit_char(
        s[i + 8],
    )
}

fn timestamp_at_exec(s: &Vec<char>, i: usize) -> (r: Option<(u64, usize)>)
    ensures
        match r {
            Some((ts, e)) => timestamp_at(s@, i as int) == Some((ts, e as int)),
            None => timestamp_at(s@, i as int) is None,
        },
{
    let n = s.len();
    if !stamp_body(s, i) || s[i] != '[' {
        return None;
    }
    assert(i + 10 <= n);
    let m = 10 * digit_of(s[i + 1]) + digit_of(s[i + 2]);
    let sec = 10 * digit_of(s[i + 4]) + digit_of(s[i + 5]);
    let base = (m * 60 + sec) * 1000;
    let f = 10 * digit_of(s[i + 7]) + digit_of(s[i + 8]);
    if s.len() - i >= 11 && is_digit_char(s[i + 9]) && s[i + 10] == ']' {
        Some((base + 10 * f + digit_of(s[i + 9]), i + 11))
    } else if s[i + 9] == ']' {
        Some((base + 10 * f, i + 10))
    } else {
        None
    }
}

fn word_stamp_len_exec(s: &Vec<char>, i: usize) -> (r: usize)
    ensures
        r == word_stamp_len(s@, i as int),
{
    let n = s.len();
    if !stamp_body(s, i) || s[i] != '<' {
        return 0;
    }
    assert(i + 10 <= n);
    if s.len() - i >= 11 && is_digit_char(s[i + 9]) && s[i + 10] == '>' {
        11
    } else if s[i + 9] == '>' {
        10
    } else {
        0
    }
}

proof fn lemma_word_stamp_shift(s: Seq<char>, i: int)
    requires
        0 <= i <= s.len(),
    ensures
        word_stamp_len(s.skip(i), 0) == word_stamp_len(s, i),
{
    let t = s.skip(i);
    if i + 10 <= s.len() {
        assert forall|k: int| 0 <= k < t.len() implies t[k] == s[i + k] by {}
    }
}

fn remove_word_stamps_exec(s: &Vec<char>) -> (r: Vec<char>)
    ensures
        r@ == remove_word_stamps(s@),
{
    let mut out: Vec<char> = Vec::new();
    let mut i: usize = 0;
    proof {
        assert(s@.skip(0) =~= s@);
    }
    while i < s.len()
        invariant
            i <= s@.len(),
            remove_word_stamps(s@) == out@ + remove_word_stamps(s@.skip(i as int)),
        decreases s@.len() - i,
    {
        let n = word_stamp_len_exec(s, i);
        let ghost rest = s@.skip(i as int);
        proof {
            lemma_word_stamp_shift(s@, i as int);
        }
        if n > 0 {
            proof {
                assert(rest.skip(n as int) =~= s@.skip(i + n));
            }
            i += n;
        } else {
            proof {
                assert(rest[0] == s@[i as int]);
                assert(rest.drop_first() =~= s@.skip(i + 1));
                assert(out@ + (seq![s@[i as int]] + remove_word_stamps(s@.skip(i + 1))) =~= out@.push(
                    s@[i as int],
                ) + remove_word_stamps(s@.skip(i + 1)));
            }
            out.push(s[i]);
            i += 1;
        }
    }
    proof {
        assert(s@.skip(i as int).len() == 0);
        assert(out@ + s@.skip(i as int) =~= out@);
    }
    out
}

fn parse_line(line: &Vec<char>) -> (r: Option<LrcLine>)
    ensures
        match r {
            Some(l) => parse_lrc_line(line@) == Some(lrc_view(l)),
            None => parse_lrc_line(line@) is None,
        },
{
    let l = trim_chars(line);
    let mut i: usize = 0;
    while i < l.len() && timestamp_at_exec(&l, i).is_none()
        invariant
            i <= l@.len(),
            first_timestamp(l@, 0) == first_timestamp(l@, i as int),
        decreases l@.len() - i,
    {
        i += 1;
    }
    let found = if i < l.len() {
        timestamp_at_exec(&l, i)
    } else {
        None
    };
    match found {
        None => None,
        Some((ts, end)) => {
            let mut rest: Vec<char> = Vec::new();
            let mut k: usize = end;
            while k < l.len()
                invariant
                    end <= l@.len(),
                    end <= k <= l@.len(),
                    rest@ == l@.subrange(end as int, k as int),
                decreases l@.len() - k,
            {
                rest.push(l[k]);
                k += 1;
            }
            proof {
                assert(rest@ =~= l@.skip(end as int));
            }
            let t1 = trim_chars(&rest);
            let t2 = remove_word_stamps_exec(&t1);
            let t3 = trim_chars(&t2);
            if t3.len() > 0 {
                Some(LrcLine { ts_ms: ts, text: string_from_chars(&t3) })
            } else {
                None
            }
        },
    }
}

/// Parse the timed lines of an LRC text (`[mm:ss.xx] text`, enhanced-LRC
/// word stamps stripped, empty lines dropped), sorted by timestamp; lines
/// with equal timestamps keep their order.
pub fn parse_lrc(text: &str) -> (r: Vec<LrcLine>)
    ensures
        lrc_views(r@) == parse_lrc_spec(text@),
{
    let chars = chars_of(text);
    let ls = lines_chars(&chars);
    let ghost spec_lines = lines(chars@);
    let mut out: Vec<LrcLine> = Vec::new();
    let mut k: usize = 0;
    while k < ls.len()
        invariant
            k <= ls@.len() == spec_lines.len(),
            spec_lines == lines(text@),
            forall|j: int| 0 <= j < ls@.len() ==> (#[trigger] ls@[j])@ == spec_lines[j],
            lrc_views(out@) == sort_by(spec_lines.take(k as int).filter_map(line_parser()), ts_key()),
        decreases ls@.len() - k,
    {
        let parsed = parse_line(&ls[k]);
        proof {
            spec_lines.lemma_filter_map_take_succ(line_parser(), k as int);
        }
        match parsed {
            None => {},
            Some(line) => {
                let ghost x = lrc_view(line);
                let ghost before = spec_lines.take(k as int).filter_map(line_parser());
                let mut j: usize = out.len();
                while j > 0 && out[j - 1].ts_ms > line.ts_ms
                    invariant
                        j <= out@.len(),
                        forall|m: int| j <= m < out@.len() ==> (#[trigger] out@[m]).ts_ms > line.ts_ms,
                    decreases j,
                {
                    j -= 1;
                }
                proof {
                    let sv = lrc_views(out@);
                    assert forall|m: int| j <= m < sv.len() implies ts_key()(#[trigger] sv[m]) > ts_key()(
                        x,
                    ) by {}
                    lemma_insert_by_at(sv, x, ts_key(), j as int);
                    assert(before + seq![x] =~= before.push(x));
                    assert(before.push(x).drop_last() =~= before);
                    assert(lrc_views(out@.insert(j as int, line)) =~= sv.insert(j as int, x));
                }
                out.insert(j, line);
            },
        }
        k += 1;
    }
    proof {
        assert(spec_lines.take(spec_lines.len() as int) =~= spec_lines);
    }
    out
}

// ───────────── formatting ─────────────

pub open spec fn digit_char(d: int) -> char {
    ((0x30 + d) as u32) as char
}

/// Decimal digits of `n`, no leading zeros.
pub open spec fn decimal(n: nat) -> Seq<char>
    decreases n,
{
    if n < 10 {
        seq![digit_char(n as int)]
    } else {
        decimal(n / 10).push(digit_char((n % 10) as int))
    }
}

/// Decimal digits of `n`, padded with a leading zero to two digits.
pub open spec fn pad2(n: nat) -> Seq<char> {
    if n < 10 {
        seq!['0', digit_char(n as int)]
    } else {
        decimal(n)
    }
}

/// `[mm:ss.xx]` for `ms` rounded to the nearest centisecond.
pub open spec fn lrc_timestamp(ms: nat) -> Seq<char> {
    let c = (ms + 5) / 10;
    seq!['['] + pad2(c / 6000) + seq![':'] + pad2((c / 100) % 60) + seq!['.'] + pad2(c % 100) + seq![
        ']',
    ]
}

pub(crate) fn push_decimal(out: &mut Vec<char>, n: u64)
    ensures
        final(out)@ == old(out)@ + decimal(n as nat),
    decreases n,
{
    if n >= 10 {
        push_decimal(out, n / 10);
    }
    let d = (n % 10) as u8;
    let c = (0x30u8 + d) as char;
    proof {
        assert(c == digit_char((n % 10) as int));
    }
    out.push(c);
    proof {
        if n >= 10 {
            assert(final(out)@ =~= old(out)@ + decimal(n as nat));
        } else {
            assert(final(out)@ =~= old(out)@ + decimal(n as nat));
        }
    }
}

fn push_pad2(out: &mut Vec<char>, n: u64)
    ensures
        final(out)@ == old(out)@ + pad2(n as nat),
{
    if n < 10 {
        out.push('0');
    }
    push_decimal(out, n);
    proof {
        assert(final(out)@ =~= old(out)@ + pad2(n as nat));
    }
}

/// `[mm:ss.xx]` (centiseconds), the format parsed back by `parse_lrc`.
pub fn format_lrc_timestamp(ms: u64) -> (r: String)
    requires
        ms <= u64::MAX - 5,
    ensures
        r@ == lrc_timestamp(ms as nat),
{
    let centis = (ms + 5) / 10;
    let mut out: Vec<char> = Vec::new();
    out.push('[');
    push_pad2(&mut out, centis / 6000);
    out.push(':');
    push_pad2(&mut out, (centis / 100) % 60);
    out.push('.');
    push_pad2(&mut out, centis % 100);
    out.push(']');
    proof {
        assert(out@ =~= lrc_timestamp(ms as nat));
    }
    string_from_chars(&out)
}

/// Parsed lines come out in timestamp order, holding exactly the timed lines
/// of the text.
pub proof fn law_parse_lrc_sorted(text: Seq<char>)
    ensures
        forall|i: int, j: int|
            0 <= i <= j < parse_lrc_spec(text).len() ==> (#[trigger] parse_lrc_spec(text)[i]).0 <= (
            #[trigger] parse_lrc_spec(text)[j]).0,
        parse_lrc_spec(text).to_multiset() == lrc_entries(text).to_multiset(),
{
    lemma_sort_by_sorted(lrc_entries(text), ts_key());
    lemma_sort_by_multiset(lrc_entries(text), ts_key());
    let r = parse_lrc_spec(text);
    assert forall|i: int, j: int| 0 <= i <= j < r.len() implies (#[trigger] r[i]).0 <= (
    #[trigger] r[j]).0 by {
        assert(ts_key()(r[i]) <= ts_key()(r[j]));
    }
}

/// Lines with the same timestamp keep the order they have in the text.
pub proof fn law_parse_lrc_stable(text: Seq<char>, ts: int)
    ensures
        parse_lrc_spec(text).filter(key_is(ts_key(), ts)) == lrc_entries(text).filter(key_is(ts_key(), ts)),
{
    lemma_sort_by_stable(lrc_entries(text), ts_key(), ts);
}

proof fn lemma_filter_map_has<A, B>(s: Seq<A>, f: spec_fn(A) -> Option<B>, i: int)
    requires
        0 <= i < s.len(),
        f(s[i]) is Some,
    ensures
        s.filter_map(f).contains(f(s[i])->0),
    decreases s.len(),
{
    let e = f(s[i])->0;
    let rest = s.drop_last();
    if i == s.len() - 1 {
        let r = s.filter_map(f);
        assert(r == rest.filter_map(f) + seq![e]);
        assert(r[r.len() - 1] == e);
    } else {
        lemma_filter_map_has(rest, f, i);
        assert(rest[i] == s[i]);
        let w = choose|w: int| 0 <= w < rest.filter_map(f).len() && rest.filter_map(f)[w] == e;
        match f(s.last()) {
            Some(x) => {
                assert((rest.filter_map(f) + seq![x])[w] == e);
            },
            None => {},
        }
    }
}

/// The parsed lines are exactly the text's lines that hold a timestamp and
/// non-empty text after it, each read as (value of its first `[mm:ss.xx]` or
/// `[mm:ss.xxx]` stamp, text after it without word stamps, trimmed): one
/// entry per such line, sorted by timestamp, lines with equal timestamps in
/// text order.
pub proof fn law_parse_lrc_lines(text: Seq<char>)
    ensures
        ({
            let r = parse_lrc_spec(text);
            let ls = lines(text);
            &&& r.len() == lrc_entries(text).len()
            &&& forall|i: int, j: int| 0 <= i <= j < r.len() ==> (#[trigger] r[i]).0 <= (#[trigger] r[j]).0
            &&& forall|ts: int|
                #![trigger r.filter(key_is(ts_key(), ts))]
                r.filter(key_is(ts_key(), ts)) == lrc_entries(text).filter(key_is(ts_key(), ts))
            &&& forall|k: int|
                0 <= k < r.len() ==> (#[trigger] r[k]).1.len() > 0 && exists|m: int|
                    0 <= m < ls.len() && parse_lrc_line(#[trigger] ls[m]) == Some(r[k])
            &&& forall|m: int|
                0 <= m < ls.len() && (#[trigger] parse_lrc_line(ls[m])) is Some ==> r.contains(
                    parse_lrc_line(ls[m])->0,
                )
        }),
{
    let r = parse_lrc_spec(text);
    let es = lrc_entries(text);
    let ls = lines(text);
    law_parse_lrc_sorted(text);
    lemma_sort_by_multiset(es, ts_key());
    crate::sort::lemma_sort_by_len(es, ts_key());
    assert forall|ts: int| #![trigger r.filter(key_is(ts_key(), ts))]
        r.filter(key_is(ts_key(), ts)) == es.filter(key_is(ts_key(), ts)) by {
        lemma_sort_by_stable(es, ts_key(), ts);
    }
    assert forall|k: int| 0 <= k < r.len() implies (#[trigger] r[k]).1.len() > 0 && exists|m: int|
        0 <= m < ls.len() && parse_lrc_line(#[trigger] ls[m]) == Some(r[k]) by {
        let e = r[k];
        assert(r.contains(e));
        vstd::seq_lib::to_multiset_contains(r, e);
        vstd::seq_lib::to_multiset_contains(es, e);
        assert(es.contains(e));
        ls.lemma_filter_map_contains(line_parser(), e);
        let l = choose|l: Seq<char>| #[trigger] ls.contains(l) && line_parser()(l) == Some(e);
        let m = choose|m: int| 0 <= m < ls.len() && ls[m] == l;
        assert(parse_lrc_line(ls[m]) == Some(e));
    }
    assert forall|m: int| 0 <= m < ls.len() && (#[trigger] parse_lrc_line(ls[m])) is Some implies r.contains(
        parse_lrc_line(ls[m])->0,
    ) by {
        let e = parse_lrc_line(ls[m])->0;
        assert(line_parser()(ls[m]) == parse_lrc_line(ls[m]));
        lemma_filter_map_has(ls, line_parser(), m);
        vstd::seq_lib::to_multiset_contains(r, e);
        vstd::seq_lib::to_multiset_contains(es, e);
    }
}

} // verus!
