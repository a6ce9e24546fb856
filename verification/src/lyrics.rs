//! Lyrics lookup on LRCLIB: the title variants tried, the request URLs, and
//! which answer is kept.
use vstd::prelude::*;

use regex::Regex;

use crate::http::{percent_encode, urlencode};
use crate::text::{
    chars_of, starts_with, starts_with_chars, str_lowercase, str_to_lowercase, string_from_chars,
    trim, trim_chars, trim_end_by,
};
use vstd::string::{StringExecFns, StringSliceAdditionalSpecFns};

verus! {

// ───────────── title variants ─────────────

/// Result of removing YouTube noise ("(Official Video)", "[HD]", "ft. X", ...)
/// with the case-insensitive pattern of `remove_youtube_noise`.
pub uninterp spec fn youtube_noise_removed(raw: Seq<char>) -> Seq<char>;

/// `Regex::replace_all` with the YouTube-noise pattern and an empty
/// replacement.
#[verifier::external_body]
fn remove_youtube_noise(raw: &str) -> (r: String)
    ensures
        r@ == youtube_noise_removed(raw@),
{
    let re = Regex::new(
        r"(?i)\s*[\(\[]\s*(official\b[^)\]]*|lyrics?|audio|video|hd|4k|remaster(?:ed)?|live[^)\]]*|feat\.[^)\]]*|ft\.[^)\]]*|explicit)\s*[\)\]]",
    ).unwrap();
    re.replace_all(raw, "").into_owned()
}

pub open spec fn dash() -> spec_fn(char) -> bool {
    |c: char| c == '-'
}

/// A title without YouTube noise, trimmed, trailing dashes dropped.
pub open spec fn clean_title_spec(raw: Seq<char>) -> Seq<char> {
    trim(trim_end_by(trim(youtube_noise_removed(raw)), dash()))
}

fn strip_trailing_dashes(v: &Vec<char>) -> (r: Vec<char>)
    ensures
        r@ == trim_end_by(v@, dash()),
{
    let mut j: usize = v.len();
    assert(v@.take(v@.len() as int) =~= v@);
    while j > 0 && v[j - 1] == '-'
        invariant
            j <= v@.len(),
            trim_end_by(v@.take(j as int), dash()) == trim_end_by(v@, dash()),
        decreases j,
    {
        assert(v@.take(j as int).drop_last() =~= v@.take(j - 1));
        j -= 1;
    }
    let mut r: Vec<char> = Vec::new();
    let mut k: usize = 0;
    while k < j
        invariant
            k <= j <= v@.len(),
            r@ == v@.take(k as int),
        decreases j - k,
    {
        r.push(v[k]);
        assert(v@.take(k + 1) =~= v@.take(k as int).push(v@[k as int]));
        k += 1;
    }
    r
}

pub fn clean_title(raw: &str) -> (r: String)
    ensures
        r@ == clean_title_spec(raw@),
{
    let s = remove_youtube_noise(raw);
    let t = trim_chars(&chars_of(s.as_str()));
    let d = strip_trailing_dashes(&t);
    string_from_chars(&trim_chars(&d))
}

/// Bytes of a char in UTF-8.
pub open spec fn utf8_len(c: char) -> nat {
    if (c as u32) < 0x80 {
        1
    } else if (c as u32) < 0x800 {
        2
    } else if (c as u32) < 0x10000 {
        3
    } else {
        4
    }
}

/// Bytes of a string in UTF-8.
pub open spec fn byte_len(s: Seq<char>) -> nat
    decreases s.len(),
{
    if s.len() == 0 {
        0
    } else {
        byte_len(s.drop_last()) + utf8_len(s.last())
    }
}

/// First position of `p` in `s`.
pub open spec fn find(s: Seq<char>, p: Seq<char>) -> Option<int> {
    if exists|j: int| 0 <= j <= s.len() && starts_with(#[trigger] s.skip(j), p) {
        Some(
            choose|j: int|
                0 <= j <= s.len() && starts_with(s.skip(j), p) && forall|i: int|
                    0 <= i < j ==> !starts_with(#[trigger] s.skip(i), p),
        )
    } else {
        None
    }
}

pub open spec fn artist_prefix(artist: Seq<char>) -> Seq<char> {
    artist + " - "@
}

/// The title starts with "artist - " (ignoring case).
pub open spec fn has_artist_prefix(title: Seq<char>, artist: Seq<char>) -> bool {
    starts_with(str_lowercase(title), str_lowercase(artist_prefix(artist)))
}

/// The title is cut after as many bytes as "artist - " has: at a char `k`
/// when the first `k` chars have exactly that many bytes.
pub open spec fn cut_at(title: Seq<char>, artist: Seq<char>, k: int) -> bool {
    0 <= k <= title.len() && byte_len(title.take(k)) == byte_len(artist_prefix(artist))
}

/// Cutting "artist - " falls inside a char: the title cannot be sliced
/// there.
pub open spec fn strip_fails(title: Seq<char>, artist: Seq<char>) -> bool {
    has_artist_prefix(title, artist) && !exists|k: int| cut_at(title, artist, k)
}

/// For "Artist - Song Title", just "Song Title": the part after the
/// artist's prefix (matched ignoring case), else the part after the first
/// " - ", trimmed; `None` without either.
pub open spec fn strip_artist_prefix_spec(title: Seq<char>, artist: Seq<char>) -> Option<Seq<char>> {
    if has_artist_prefix(title, artist) {
        let k = choose|k: int| cut_at(title, artist, k);
        Some(trim(title.skip(k)))
    } else {
        match find(title, " - "@) {
            Some(j) => Some(trim(title.skip(j + 3))),
            None => None,
        }
    }
}

proof fn lemma_byte_len_mono(s: Seq<char>, i: int, j: int)
    requires
        0 <= i < j <= s.len(),
    ensures
        byte_len(s.take(i)) < byte_len(s.take(j)),
    decreases j - i,
{
    assert(s.take(j).drop_last() =~= s.take(j - 1));
    if i < j - 1 {
        lemma_byte_len_mono(s, i, j - 1);
    }
}

fn char_bytes(c: char) -> (r: u128)
    ensures
        r == utf8_len(c),
{
    let u = c as u32;
    if u < 0x80 {
        1
    } else if u < 0x800 {
        2
    } else if u < 0x10000 {
        3
    } else {
        4
    }
}

fn chars_byte_len(v: &Vec<char>) -> (r: u128)
    ensures
        r == byte_len(v@),
{
    let mut n: u128 = 0;
    let mut i: usize = 0;
    while i < v.len()
        invariant
            i <= v@.len(),
            n == byte_len(v@.take(i as int)),
            n <= 4 * i,
        decreases v@.len() - i,
    {
        assert(v@.take(i + 1).drop_last() =~= v@.take(i as int));
        n = n + char_bytes(v[i]);
        i += 1;
    }
    assert(v@.take(v@.len() as int) =~= v@);
    n
}

fn skip_trimmed(v: &Vec<char>, k: usize) -> (r: String)
    requires
        k <= v@.len(),
    ensures
        r@ == trim(v@.skip(k as int)),
{
    let mut rest: Vec<char> = Vec::new();
    let mut i: usize = k;
    while i < v.len()
        invariant
            k <= i <= v@.len(),
            rest@ == v@.subrange(k as int, i as int),
        decreases v@.len() - i,
    {
        rest.push(v[i]);
        i += 1;
    }
    assert(rest@ =~= v@.skip(k as int));
    string_from_chars(&trim_chars(&rest))
}

/// Where "artist - " ends in the title when the title starts with it
/// (ignoring case): `Some(Some(k))` when its bytes end right after char `k`,
/// `Some(None)` when they end inside a char, `None` without that prefix.
fn artist_prefix_cut(t: &Vec<char>, title: &str, artist: &str) -> (r: Option<Option<usize>>)
    requires
        t@ == title@,
    ensures
        r is None <==> !has_artist_prefix(title@, artist@),
        r == Some(None::<usize>) <==> strip_fails(title@, artist@),
        r matches Some(Some(k)) ==> k == choose|c: int| cut_at(title@, artist@, c),
        r matches Some(Some(k)) ==> cut_at(title@, artist@, k as int),
{
    let prefix = String::from_str(artist).concat(" - ");
    let lt = str_to_lowercase(title);
    let lp = str_to_lowercase(prefix.as_str());
    if !starts_with_chars(&chars_of(lt.as_str()), &chars_of(lp.as_str())) {
        return None;
    }
    let target = chars_byte_len(&chars_of(prefix.as_str()));
    let mut acc: u128 = 0;
    let mut k: usize = 0;
    while k < t.len() && acc < target
        invariant
            k <= t@.len(),
            acc == byte_len(t@.take(k as int)),
            acc <= 4 * k,
            forall|i: int| 0 <= i < k ==> byte_len(#[trigger] t@.take(i)) < target,
        decreases t@.len() - k,
    {
        assert(t@.take(k + 1).drop_last() =~= t@.take(k as int));
        acc = acc + char_bytes(t[k]);
        k += 1;
    }
    if acc == target {
        assert(cut_at(title@, artist@, k as int));
        proof {
            let c = choose|c: int| cut_at(title@, artist@, c);
            if c < k {
                lemma_byte_len_mono(t@, c, k as int);
            } else if c > k {
                lemma_byte_len_mono(t@, k as int, c);
            }
        }
        Some(Some(k))
    } else {
        assert forall|c: int| !cut_at(title@, artist@, c) by {
            if 0 <= c <= title@.len() && byte_len(title@.take(c)) == target {
                if c < k {
                } else if c > k {
                    lemma_byte_len_mono(t@, k as int, c);
                }
            }
        }
        Some(None)
    }
}

/// Whether "artist - " would be cut inside a char of the title (where
/// `strip_artist_prefix` cannot slice).
pub fn strip_would_fail(title: &str, artist: &str) -> (r: bool)
    ensures
        r == strip_fails(title@, artist@),
{
    let t = chars_of(title);
    match artist_prefix_cut(&t, title, artist) {
        Some(None) => true,
        _ => false,
    }
}

/// If the title looks like "Artist - Song Title", just "Song Title".
pub fn strip_artist_prefix(title: &str, artist: &str) -> (r: Option<String>)
    requires
        !strip_fails(title@, artist@),
    ensures
        match strip_artist_prefix_spec(title@, artist@) {
            Some(s) => r matches Some(x) && x@ == s,
            None => r is None,
        },
{
    let t = chars_of(title);
    match artist_prefix_cut(&t, title, artist) {
        Some(Some(k)) => {
            return Some(skip_trimmed(&t, k));
        },
        Some(None) => {
            return None;
        },
        None => {},
    }
    let sep = chars_of(" - ");
    let mut j: usize = 0;
    while j < t.len() && !crate::text::has_at(&t, j, &sep)
        invariant
            j <= t@.len(),
            sep@ == " - "@,
            forall|i: int| 0 <= i < j ==> !starts_with(#[trigger] t@.skip(i), " - "@),
        decreases t@.len() - j,
    {
        j += 1;
    }
    if j < t.len() {
        proof {
            reveal_strlit(" - ");
            let f = choose|f: int|
                0 <= f <= title@.len() && starts_with(title@.skip(f), " - "@) && forall|i: int|
                    0 <= i < f ==> !starts_with(#[trigger] title@.skip(i), " - "@);
            assert(starts_with(t@.skip(j as int), " - "@));
            if f > j {
                assert(!starts_with(title@.skip(j as int), " - "@));
            }
            assert(t@.skip(j as int).take(3) =~= " - "@);
        }
        Some(skip_trimmed(&t, j + 3))
    } else {
        proof {
            reveal_strlit(" - ");
            assert forall|i: int| 0 <= i <= title@.len() implies !starts_with(
                #[trigger] title@.skip(i),
                " - "@,
            ) by {
                if i == title@.len() {
                    assert(title@.skip(i).len() == 0);
                }
            }
        }
        None
    }
}

/// Consecutive repeats removed (`Vec::dedup`).
pub open spec fn dedup(s: Seq<Seq<char>>) -> Seq<Seq<char>>
    decreases s.len(),
{
    if s.len() <= 1 {
        s
    } else {
        let d = dedup(s.drop_last());
        if s.last() == d.last() {
            d
        } else {
            d.push(s.last())
        }
    }
}

pub open spec fn views(v: Seq<String>) -> Seq<Seq<char>> {
    v.map_values(|s: String| s@)
}

/// The titles tried in turn: as given, cleaned of YouTube noise, and without
/// an "Artist - " prefix (from the cleaned title, else the raw one), with
/// repeats dropped.
pub open spec fn title_candidates_spec(title: Seq<char>, artist: Seq<char>) -> Seq<Seq<char>> {
    let cleaned = clean_title_spec(title);
    let stripped = match strip_artist_prefix_spec(cleaned, artist) {
        Some(s) => Some(s),
        None => strip_artist_prefix_spec(title, artist),
    };
    dedup(
        seq![title, cleaned] + match stripped {
            Some(s) => seq![s],
            None => seq![],
        },
    )
}

/// The title-variant computation would cut a title inside a char.
pub open spec fn candidates_fail(title: Seq<char>, artist: Seq<char>) -> bool {
    let cleaned = clean_title_spec(title);
    strip_fails(cleaned, artist) || (strip_artist_prefix_spec(cleaned, artist) is None && strip_fails(
        title,
        artist,
    ))
}

proof fn lemma_dedup_last(s: Seq<Seq<char>>)
    requires
        s.len() > 0,
    ensures
        dedup(s).len() > 0,
        dedup(s).last() == s.last(),
    decreases s.len(),
{
    if s.len() > 1 {
        lemma_dedup_last(s.drop_last());
    }
}

/// Appends `x` unless it repeats the last entry.
fn push_dedup(list: &mut Vec<String>, x: String, Ghost(base): Ghost<Seq<Seq<char>>>)
    requires
        base.len() > 0,
        views(old(list)@) == dedup(base),
    ensures
        views(final(list)@) == dedup(base.push(x@)),
{
    proof {
        lemma_dedup_last(base);
        assert(base.push(x@).drop_last() =~= base);
    }
    let last = list.len() - 1;
    let ghost before = list@;
    if !(x == list[last]) {
        list.push(x);
        assert(views(list@) =~= views(before).push(x@));
    }
}

pub fn title_candidates(title: &str, artist: &str) -> (r: Vec<String>)
    requires
        !candidates_fail(title@, artist@),
    ensures
        views(r@) == title_candidates_spec(title@, artist@),
{
    let cleaned = clean_title(title);
    let stripped = match strip_artist_prefix(cleaned.as_str(), artist) {
        Some(s) => Some(s),
        None => strip_artist_prefix(title, artist),
    };
    let ghost cs = cleaned@;
    let mut list: Vec<String> = Vec::new();
    list.push(String::from_str(title));
    let ghost b1 = seq![title@];
    assert(views(list@) =~= dedup(b1));
    push_dedup(&mut list, cleaned, Ghost(b1));
    assert(seq![title@].push(cs) =~= seq![title@, cs]);
    match stripped {
        Some(s) => {
            let ghost sv = s@;
            let ghost b2 = seq![title@, cs];
            push_dedup(&mut list, s, Ghost(b2));
            assert(seq![title@, cs].push(sv) =~= seq![title@, cs] + seq![sv]);
        },
        None => {
            assert(seq![title@, cs] + Seq::<Seq<char>>::empty() =~= seq![title@, cs]);
        },
    }
    list
}

/// The title variants, or `None` where computing them would cut a title
/// inside a char.
pub fn try_title_candidates(title: &str, artist: &str) -> (r: Option<Vec<String>>)
    ensures
        candidates_fail(title@, artist@) <==> r is None,
        r matches Some(v) ==> views(v@) == title_candidates_spec(title@, artist@),
{
    let cleaned = clean_title(title);
    if strip_would_fail(cleaned.as_str(), artist) {
        return None;
    }
    let first = strip_artist_prefix(cleaned.as_str(), artist);
    if first.is_none() && strip_would_fail(title, artist) {
        return None;
    }
    Some(title_candidates(title, artist))
}

// ───────────── requests ─────────────

/// LRCLIB exact lookup of a title and artist.
pub fn lrclib_get_url(title: &str, artist: &str) -> (r: String)
    ensures
        r@ == "https://lrclib.net/api/get?track_name="@ + percent_encode(title.spec_bytes())
            + "&artist_name="@ + percent_encode(artist.spec_bytes()),
{
    String::from_str("https://lrclib.net/api/get?track_name=").concat(urlencode(title).as_str()).concat(
        "&artist_name=",
    ).concat(urlencode(artist).as_str())
}

/// LRCLIB free-text search for `query` ("title artist").
pub fn lrclib_search_url(query: &str) -> (r: String)
    ensures
        r@ == "https://lrclib.net/api/search?q="@ + percent_encode(query.spec_bytes()),
{
    String::from_str("https://lrclib.net/api/search?q=").concat(urlencode(query).as_str())
}

// ───────────── answers ─────────────

pub open spec fn non_empty(s: Option<String>) -> bool {
    s matches Some(x) && x@.len() > 0
}

/// Lyrics of an exact lookup: the synced ones when present, else the plain
/// ones, ignoring empty texts.
pub fn lyrics_from_lookup(synced: Option<String>, plain: Option<String>) -> (r: Option<String>)
    ensures
        non_empty(synced) ==> r == synced,
        !non_empty(synced) && non_empty(plain) ==> r == plain,
        !non_empty(synced) && !non_empty(plain) ==> r is None,
{
    match synced {
        Some(s) => {
            if !s.as_str().is_empty() {
                return Some(s);
            }
        },
        None => {},
    }
    match plain {
        Some(p) => {
            if !p.as_str().is_empty() {
                return Some(p);
            }
            None
        },
        None => None,
    }
}

/// One search result: its duration in whole seconds and its lyrics.
#[derive(Debug, Clone)]
pub struct LyricsHit {
    pub duration_sec: Option<i64>,
    pub synced_lyrics: Option<String>,
    pub plain_lyrics: Option<String>,
}

/// How far a result's duration is from the song's (0 when either is unknown).
pub open spec fn distance(duration_sec: Option<u64>, hit: LyricsHit) -> int {
    match (duration_sec, hit.duration_sec) {
        (Some(d), Some(l)) => {
            let x = (d as i64) - l;
            if x < 0 {
                -x
            } else {
                x
            }
        },
        _ => 0,
    }
}

/// The closest (first on a tie) result among the first `n` with non-empty
/// text of the chosen kind.
pub open spec fn closest(hits: Seq<LyricsHit>, duration_sec: Option<u64>, synced: bool, n: int) -> Option<
    (int, Seq<char>),
>
    decreases n,
{
    if n <= 0 {
        None
    } else {
        let prev = closest(hits, duration_sec, synced, n - 1);
        let h = hits[n - 1];
        let text = if synced {
            h.synced_lyrics
        } else {
            h.plain_lyrics
        };
        let d = distance(duration_sec, h);
        match text {
            Some(t) if t@.len() > 0 && (prev is None || d < prev.unwrap().0) => Some((d, t@)),
            _ => prev,
        }
    }
}

/// Lyrics chosen from search results: the closest synced ones, else the
/// closest plain ones.
pub open spec fn search_choice(hits: Seq<LyricsHit>, duration_sec: Option<u64>) -> Option<Seq<char>> {
    match closest(hits, duration_sec, true, hits.len() as int) {
        Some(b) => Some(b.1),
        None => match closest(hits, duration_sec, false, hits.len() as int) {
            Some(b) => Some(b.1),
            None => None,
        },
    }
}

/// Every distance is an `i64` whose absolute value is one too.
pub open spec fn distances_fit(hits: Seq<LyricsHit>, duration_sec: Option<u64>) -> bool {
    forall|i: int|
        0 <= i < hits.len() ==> match (duration_sec, (#[trigger] hits[i]).duration_sec) {
            (Some(d), Some(l)) => -i64::MAX <= (d as i64) - l <= i64::MAX,
            _ => true,
        }
}

fn hit_distance(duration_sec: Option<u64>, hit: &LyricsHit) -> (r: i64)
    requires
        match (duration_sec, hit.duration_sec) {
            (Some(d), Some(l)) => -i64::MAX <= (d as i64) - l <= i64::MAX,
            _ => true,
        },
    ensures
        r == distance(duration_sec, *hit),
{
    match (duration_sec, hit.duration_sec) {
        (Some(d), Some(l)) => {
            let x = d as i64 - l;
            if x < 0 {
                -x
            } else {
                x
            }
        },
        _ => 0,
    }
}

/// The lyrics a search picks, over every result of every title tried, in
/// order.
pub fn pick_search_lyrics(hits: &Vec<LyricsHit>, duration_sec: Option<u64>) -> (r: Option<String>)
    requires
        distances_fit(hits@, duration_sec),
    ensures
        match search_choice(hits@, duration_sec) {
            Some(t) => r matches Some(x) && x@ == t,
            None => r is None,
        },
{
    let mut best_synced: Option<(i64, String)> = None;
    let mut best_plain: Option<(i64, String)> = None;
    let mut i: usize = 0;
    while i < hits.len()
        invariant
            i <= hits@.len(),
            distances_fit(hits@, duration_sec),
            match closest(hits@, duration_sec, true, i as int) {
                Some(b) => best_synced matches Some(x) && x.0 == b.0 && x.1@ == b.1,
                None => best_synced is None,
            },
            match closest(hits@, duration_sec, false, i as int) {
                Some(b) => best_plain matches Some(x) && x.0 == b.0 && x.1@ == b.1,
                None => best_plain is None,
            },
        decreases hits@.len() - i,
    {
        let h = &hits[i];
        let dist = hit_distance(duration_sec, h);
        match &h.synced_lyrics {
            Some(s) => {
                if !s.as_str().is_empty() {
                    let better = match &best_synced {
                        None => true,
                        Some(b) => dist < b.0,
                    };
                    if better {
                        best_synced = Some((dist, s.clone()));
                    }
                }
            },
            None => {},
        }
        match &h.plain_lyrics {
            Some(p) => {
                if !p.as_str().is_empty() {
                    let better = match &best_plain {
                        None => true,
                        Some(b) => dist < b.0,
                    };
                    if better {
                        best_plain = Some((dist, p.clone()));
                    }
                }
            },
            None => {},
        }
        i += 1;
    }
    match best_synced {
        Some((_, s)) => Some(s),
        None => match best_plain {
            Some((_, p)) => Some(p),
            None => None,
        },
    }
}

pub open spec fn text_of(h: LyricsHit, synced: bool) -> Option<String> {
    if synced {
        h.synced_lyrics
    } else {
        h.plain_lyrics
    }
}

/// The result kept among the first `n` is the nearest in duration of those
/// with non-empty text of the chosen kind, the earliest of them on a tie;
/// there is one whenever any such result exists.
pub proof fn law_closest_is_nearest(hits: Seq<LyricsHit>, duration_sec: Option<u64>, synced: bool, n: int)
    requires
        0 <= n <= hits.len(),
    ensures
        (exists|i: int| 0 <= i < n && non_empty(#[trigger] text_of(hits[i], synced))) <==> closest(
            hits,
            duration_sec,
            synced,
            n,
        ) is Some,
        closest(hits, duration_sec, synced, n) matches Some(b) ==> exists|w: int|
            0 <= w < n && non_empty(text_of(hits[w], synced)) && text_of(hits[w], synced)->0@ == b.1
                && distance(duration_sec, hits[w]) == b.0 && (forall|i: int|
                0 <= i < w && non_empty(#[trigger] text_of(hits[i], synced)) ==> distance(duration_sec, hits[i])
                    > b.0),
        closest(hits, duration_sec, synced, n) matches Some(b) ==> forall|i: int|
            0 <= i < n && non_empty(#[trigger] text_of(hits[i], synced)) ==> b.0 <= distance(
                duration_sec,
                hits[i],
            ),
    decreases n,
{
    if n > 0 {
        law_closest_is_nearest(hits, duration_sec, synced, n - 1);
        let prev = closest(hits, duration_sec, synced, n - 1);
        let h = hits[n - 1];
        let d = distance(duration_sec, h);
        let cur = closest(hits, duration_sec, synced, n);
        if non_empty(text_of(h, synced)) && (prev is None || d < prev.unwrap().0) {
            assert(cur == Some((d, text_of(h, synced)->0@)));
            if prev is Some {
                let b = prev.unwrap();
                assert forall|i: int| 0 <= i < n - 1 && non_empty(#[trigger] text_of(hits[i], synced)) implies distance(
                    duration_sec,
                    hits[i],
                ) > d by {
                    assert(b.0 <= distance(duration_sec, hits[i]));
                }
            } else {
                assert forall|i: int| 0 <= i < n - 1 implies !non_empty(#[trigger] text_of(hits[i], synced)) by {
                }
            }
        } else {
            assert(cur == prev);
            if !non_empty(text_of(h, synced)) {
            }
        }
    }
}

/// Distance between two numbers.
pub open spec fn abs_diff(a: int, b: int) -> int {
    if a >= b {
        a - b
    } else {
        b - a
    }
}

/// How many seconds a result's duration is off the song's, in either
/// direction (0 when either is unknown).
pub open spec fn duration_gap(duration_sec: Option<u64>, hit: LyricsHit) -> int {
    match (duration_sec, hit.duration_sec) {
        (Some(d), Some(l)) => abs_diff((d as i64) as int, l as int),
        _ => 0,
    }
}

/// Some result has non-empty lyrics of the kind.
pub open spec fn has_kind(hits: Seq<LyricsHit>, synced: bool) -> bool {
    exists|i: int| 0 <= i < hits.len() && non_empty(#[trigger] text_of(hits[i], synced))
}

/// A search keeps the lyrics of a result nearest in duration to the song,
/// whether shorter or longer: synced lyrics when any result has them, else
/// plain ones, and no other result with lyrics of that kind is closer. There
/// is an answer whenever some result has lyrics.
pub proof fn law_search_picks_nearest(hits: Seq<LyricsHit>, duration_sec: Option<u64>)
    ensures
        search_choice(hits, duration_sec) is Some <==> has_kind(hits, true) || has_kind(hits, false),
        search_choice(hits, duration_sec) matches Some(t) ==> exists|w: int|
            0 <= w < hits.len() && non_empty(#[trigger] text_of(hits[w], has_kind(hits, true))) && text_of(
                hits[w],
                has_kind(hits, true),
            )->0@ == t && forall|i: int|
                0 <= i < hits.len() && non_empty(#[trigger] text_of(hits[i], has_kind(hits, true))) ==> duration_gap(
                    duration_sec,
                    hits[w],
                ) <= duration_gap(duration_sec, hits[i]),
{
    let n = hits.len() as int;
    assert forall|h: LyricsHit| #[trigger] distance(duration_sec, h) == duration_gap(duration_sec, h) by {}
    law_closest_is_nearest(hits, duration_sec, true, n);
    law_closest_is_nearest(hits, duration_sec, false, n);
    let k = has_kind(hits, true);
    if let Some(b) = closest(hits, duration_sec, k, n) {
        let w = choose|w: int|
            0 <= w < n && non_empty(text_of(hits[w], k)) && text_of(hits[w], k)->0@ == b.1 && distance(
                duration_sec,
                hits[w],
            ) == b.0 && (forall|i: int|
                0 <= i < w && non_empty(#[trigger] text_of(hits[i], k)) ==> distance(duration_sec, hits[i])
                    > b.0);
        assert(non_empty(text_of(hits[w], k)));
    }
}

} // verus!
