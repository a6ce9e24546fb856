//! Album metadata: the lookups made (iTunes search, MusicBrainz fallback,
//! Cover Art Archive) and how their answers become an `AlbumMeta`.
use vstd::prelude::*;

use crate::http::{percent_encode, urlencode};
use crate::text::{chars_of, starts_with, string_from_chars};
use vstd::string::{StringExecFns, StringSliceAdditionalSpecFns};

verus! {

#[derive(Debug, Clone, Default)]
pub struct AlbumMeta {
    pub album: Option<String>,
    pub album_artist: Option<String>,
    pub release_year: Option<String>,
    pub cover_path: Option<String>,
    pub genre: Option<String>,
}

/// Search text of a song: "title artist".
pub fn search_term(title: &str, artist: &str) -> (r: String)
    ensures
        r@ == title@ + " "@ + artist@,
{
    String::from_str(title).concat(" ").concat(artist)
}

/// iTunes search for the best song match of `term`.
pub fn itunes_search_url(term: &str) -> (r: String)
    ensures
        r@ == "https://itunes.apple.com/search?term="@ + percent_encode(term.spec_bytes())
            + "&entity=song&limit=1"@,
{
    String::from_str("https://itunes.apple.com/search?term=").concat(urlencode(term).as_str()).concat(
        "&entity=song&limit=1",
    )
}

/// MusicBrainz query for a recording with the exact title and artist.
pub fn musicbrainz_query(title: &str, artist: &str) -> (r: String)
    ensures
        r@ == "recording:\""@ + title@ + "\" AND artist:\""@ + artist@ + "\""@,
{
    String::from_str("recording:\"").concat(title).concat("\" AND artist:\"").concat(artist).concat(
        "\"",
    )
}

pub fn musicbrainz_search_url(query: &str) -> (r: String)
    ensures
        r@ == "https://musicbrainz.org/ws/2/recording?query="@ + percent_encode(query.spec_bytes())
            + "&fmt=json&limit=1"@,
{
    String::from_str("https://musicbrainz.org/ws/2/recording?query=").concat(
        urlencode(query).as_str(),
    ).concat("&fmt=json&limit=1")
}

/// Front cover (500 px) of a MusicBrainz release on the Cover Art Archive.
pub fn cover_art_url(release_id: &str) -> (r: String)
    ensures
        r@ == "https://coverartarchive.org/release/"@ + release_id@ + "/front-500"@,
{
    String::from_str("https://coverartarchive.org/release/").concat(release_id).concat("/front-500")
}

// ───────────── iTunes answer ─────────────

/// `s` with every non-overlapping occurrence of a non-empty `from`, scanned
/// left to right, replaced by `to` (`str::replace`).
pub open spec fn replace_all(s: Seq<char>, from: Seq<char>, to: Seq<char>) -> Seq<char>
    decreases s.len(),
{
    if s.len() == 0 || from.len() == 0 {
        s
    } else if starts_with(s, from) {
        to + replace_all(s.skip(from.len() as int), from, to)
    } else {
        seq![s[0]] + replace_all(s.drop_first(), from, to)
    }
}

proof fn lemma_replace_step(s: Seq<char>, i: int, from: Seq<char>, to: Seq<char>)
    requires
        0 <= i < s.len(),
        from.len() > 0,
    ensures
        starts_with(s.skip(i), from) ==> replace_all(s.skip(i), from, to) == to + replace_all(
            s.skip(i + from.len()),
            from,
            to,
        ),
        !starts_with(s.skip(i), from) ==> replace_all(s.skip(i), from, to) == seq![s[i]] + replace_all(
            s.skip(i + 1),
            from,
            to,
        ),
{
    let t = s.skip(i);
    if starts_with(t, from) {
        assert(t.skip(from.len() as int) =~= s.skip(i + from.len()));
    } else {
        assert(t.drop_first() =~= s.skip(i + 1));
    }
}

/// Artwork URL with the 100 px size swapped for 500 px.
pub fn upscaled_artwork(art: &str) -> (r: String)
    ensures
        r@ == replace_all(art@, "100x100"@, "500x500"@),
{
    let s = chars_of(art);
    let from = chars_of("100x100");
    let to = chars_of("500x500");
    proof {
        reveal_strlit("100x100");
        assert(s@.skip(0) =~= s@);
        assert(Seq::<char>::empty() + replace_all(s@, from@, to@) =~= replace_all(s@, from@, to@));
    }
    let mut out: Vec<char> = Vec::new();
    let mut i: usize = 0;
    while i < s.len()
        invariant
            i <= s@.len(),
            s@ == art@,
            from@ == "100x100"@,
            to@ == "500x500"@,
            from@.len() == 7,
            out@ + replace_all(s@.skip(i as int), from@, to@) == replace_all(s@, from@, to@),
        decreases s@.len() - i,
    {
        let here = crate::text::has_at(&s, i, &from);
        proof {
            lemma_replace_step(s@, i as int, from@, to@);
            if here {
                assert(starts_with(s@.skip(i as int), from@)) by {
                    assert(s@.skip(i as int).take(7) =~= s@.subrange(i as int, i + 7));
                }
            } else {
                assert(!starts_with(s@.skip(i as int), from@)) by {
                    if i + 7 <= s@.len() {
                        assert(s@.skip(i as int).take(7) =~= s@.subrange(i as int, i + 7));
                    }
                }
            }
        }
        if here {
            let ghost before = out@;
            let mut k: usize = 0;
            while k < to.len()
                invariant
                    k <= to@.len(),
                    out@ == before + to@.take(k as int),
                decreases to@.len() - k,
            {
                out.push(to[k]);
                assert(to@.take(k + 1) =~= to@.take(k as int).push(to@[k as int]));
                k += 1;
            }
            assert(to@.take(to@.len() as int) =~= to@);
            assert(out@ + replace_all(s@.skip(i + 7), from@, to@) =~= before + (to@ + replace_all(
                s@.skip(i + 7),
                from@,
                to@,
            )));
            i += 7;
        } else {
            let ghost before = out@;
            out.push(s[i]);
            assert(out@ + replace_all(s@.skip(i + 1), from@, to@) =~= before + (seq![s@[i as int]]
                + replace_all(s@.skip(i + 1), from@, to@)));
            i += 1;
        }
    }
    assert(s@.skip(s@.len() as int) =~= Seq::<char>::empty());
    assert(out@ + Seq::<char>::empty() =~= out@);
    string_from_chars(&out)
}

/// Text fields of the first iTunes search result (a field is `None` when
/// absent or not a string).
#[derive(Debug, Clone, Default)]
pub struct ItunesTrack {
    pub collection_name: Option<String>,
    pub artist_name: Option<String>,
    pub release_date: Option<String>,
    pub primary_genre_name: Option<String>,
    pub artwork_url100: Option<String>,
}

/// First four chars of a release date: its year.
pub fn release_year(date: &str) -> (r: String)
    ensures
        r@ == date@.take(if date@.len() < 4 {
            date@.len() as int
        } else {
            4
        }),
{
    let v = chars_of(date);
    let n = if v.len() < 4 {
        v.len()
    } else {
        4
    };
    let mut out: Vec<char> = Vec::new();
    let mut i: usize = 0;
    while i < n
        invariant
            i <= n <= v@.len(),
            out@ == v@.take(i as int),
        decreases n - i,
    {
        out.push(v[i]);
        assert(v@.take(i + 1) =~= v@.take(i as int).push(v@[i as int]));
        i += 1;
    }
    string_from_chars(&out)
}

pub open spec fn year_of(date: Seq<char>) -> Seq<char> {
    date.take(
        if date.len() < 4 {
            date.len() as int
        } else {
            4
        },
    )
}

pub open spec fn view_opt(o: Option<String>) -> Option<Seq<char>> {
    match o {
        Some(s) => Some(s@),
        None => None,
    }
}

/// Album metadata and cover URL from the first iTunes result (nothing when
/// there was none).
pub fn from_itunes(first: Option<ItunesTrack>) -> (r: (AlbumMeta, Option<String>))
    ensures
        first is None ==> r.0.album is None && r.0.album_artist is None && r.0.release_year is None
            && r.0.genre is None && r.1 is None,
        first matches Some(t) ==> {
            &&& r.0.album == t.collection_name
            &&& r.0.album_artist == t.artist_name
            &&& view_opt(r.0.release_year) == match t.release_date {
                Some(d) => Some(year_of(d@)),
                None => None,
            }
            &&& r.0.genre == t.primary_genre_name
            &&& view_opt(r.1) == match t.artwork_url100 {
                Some(a) => Some(replace_all(a@, "100x100"@, "500x500"@)),
                None => None,
            }
        },
        r.0.cover_path is None,
{
    match first {
        None => (AlbumMeta { album: None, album_artist: None, release_year: None, cover_path: None, genre: None }, None),
        Some(t) => {
            let year = match &t.release_date {
                Some(d) => Some(release_year(d.as_str())),
                None => None,
            };
            let cover = match &t.artwork_url100 {
                Some(a) => Some(upscaled_artwork(a.as_str())),
                None => None,
            };
            (
                AlbumMeta {
                    album: t.collection_name,
                    album_artist: t.artist_name,
                    release_year: year,
                    cover_path: None,
                    genre: t.primary_genre_name,
                },
                cover,
            )
        },
    }
}

/// First release of the first MusicBrainz recording found.
#[derive(Debug, Clone, Default)]
pub struct MusicBrainzRelease {
    pub id: Option<String>,
    pub title: Option<String>,
}

/// The MusicBrainz fallback, used when iTunes gave no cover: the release's
/// cover on the Cover Art Archive, and its title when no album is known yet.
pub fn with_musicbrainz(meta: AlbumMeta, cover: Option<String>, release: Option<MusicBrainzRelease>) -> (r:
    (AlbumMeta, Option<String>))
    ensures
        release is None ==> r.0 == meta && r.1 == cover,
        release matches Some(rel) ==> {
            &&& view_opt(r.1) == match rel.id {
                Some(id) => Some("https://coverartarchive.org/release/"@ + id@ + "/front-500"@),
                None => view_opt(cover),
            }
            &&& r.0.album == (if meta.album is None {
                rel.title
            } else {
                meta.album
            })
            &&& r.0.album_artist == meta.album_artist
            &&& r.0.release_year == meta.release_year
            &&& r.0.genre == meta.genre
            &&& r.0.cover_path == meta.cover_path
        },
{
    match release {
        None => (meta, cover),
        Some(rel) => {
            let cover2 = match &rel.id {
                Some(id) => Some(cover_art_url(id.as_str())),
                None => cover,
            };
            let mut m = meta;
            if m.album.is_none() {
                m.album = rel.title;
            }
            (m, cover2)
        },
    }
}

} // verus!
