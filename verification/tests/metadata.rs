use cologna_karaoke::metadata::{
    cover_art_url, from_itunes, itunes_search_url, musicbrainz_query, musicbrainz_search_url, release_year, search_term,
    upscaled_artwork, with_musicbrainz, ItunesTrack, MusicBrainzRelease,
};

#[test]
fn builds_lookup_urls() {
    assert_eq!(
        itunes_search_url(&search_term("Città", "Queen")),
        "https://itunes.apple.com/search?term=Citt%C3%A0%20Queen&entity=song&limit=1"
    );
    assert_eq!(musicbrainz_query("So", "Me"), "recording:\"So\" AND artist:\"Me\"");
    assert_eq!(
        musicbrainz_search_url("a b"),
        "https://musicbrainz.org/ws/2/recording?query=a%20b&fmt=json&limit=1"
    );
    assert_eq!(cover_art_url("abc"), "https://coverartarchive.org/release/abc/front-500");
}

#[test]
fn artwork_is_upscaled_and_year_cut() {
    assert_eq!(upscaled_artwork("https://x/100x100bb.jpg"), "https://x/500x500bb.jpg");
    assert_eq!(upscaled_artwork("100x100100x100"), "500x500500x500");
    assert_eq!(upscaled_artwork("none"), "none");
    assert_eq!(release_year("1975-10-31T07:00:00Z"), "1975");
    assert_eq!(release_year("75"), "75");
}

#[test]
fn itunes_hit_fills_meta_and_musicbrainz_fills_gaps() {
    let hit = ItunesTrack {
        collection_name: None,
        artist_name: Some("Queen".into()),
        release_date: Some("1975-10-31".into()),
        primary_genre_name: Some("Rock".into()),
        artwork_url100: None,
    };
    let (meta, cover) = from_itunes(Some(hit));
    assert_eq!(meta.album_artist.as_deref(), Some("Queen"));
    assert_eq!(meta.release_year.as_deref(), Some("1975"));
    assert!(cover.is_none());
    let rel = MusicBrainzRelease { id: Some("r1".into()), title: Some("A Night at the Opera".into()) };
    let (meta, cover) = with_musicbrainz(meta, cover, Some(rel));
    assert_eq!(meta.album.as_deref(), Some("A Night at the Opera"));
    assert_eq!(cover.as_deref(), Some("https://coverartarchive.org/release/r1/front-500"));
    let (empty, none) = from_itunes(None);
    assert!(empty.album.is_none() && none.is_none());
}
