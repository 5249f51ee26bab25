//! Playlists and the operations on one playlist. Each operation returns a
//! new playlist and leaves its argument as it was.

use vstd::prelude::*;
use crate::song::{Song, copy_songs};
use crate::sorting::{sort_by, sort_stable, strict_weak_order, lemma_sort_by_sorted, lemma_sort_by_permutes, is_sorted_by};
use crate::text::{distinct, texts, contains_text, lowercase, lex_lt, lower_less, concat, string_from, decimal, decimal_string, lemma_lex_irreflexive, lemma_lex_transitive, lemma_lex_not_lt};

verus! {

/// A named list of songs.
pub struct Playlist {
    pub name: String,
    pub songs: Vec<Song>,
}

/// What a playlist holds: its name's characters and its songs.
pub struct PlaylistView {
    pub name: Seq<char>,
    pub songs: Seq<Song>,
}

impl View for Playlist {
    type V = PlaylistView;

    open spec fn view(&self) -> PlaylistView {
        PlaylistView { name: self.name@, songs: self.songs@ }
    }
}

impl Clone for Playlist {
    fn clone(&self) -> (r: Playlist)
        ensures
            r@ == self@,
    {
        Playlist { name: self.name.clone(), songs: copy_songs(self.songs.as_slice()) }
    }
}

/// The views of a sequence of playlists.
pub open spec fn views(ps: Seq<Playlist>) -> Seq<PlaylistView> {
    ps.map_values(|p: Playlist| p@)
}

/// Copies every playlist of `ps`, in order.
pub fn copy_playlists(ps: &[Playlist]) -> (r: Vec<Playlist>)
    ensures
        views(r@) == views(ps@),
{
    let mut r: Vec<Playlist> = Vec::new();
    for i in 0..ps.len()
        invariant
            r@.len() == i,
            forall|k: int| 0 <= k < i ==> (#[trigger] r@[k])@ == ps@[k]@,
    {
        r.push(ps[i].clone());
    }
    assert(views(r@) =~= views(ps@));
    r
}

// ---------------------------------------------------------------------
// Orders on songs
// ---------------------------------------------------------------------

/// Song `a` comes before song `b` by the lowercase of their names.
pub open spec fn name_before() -> spec_fn(Song, Song) -> bool {
    |a: Song, b: Song| lex_lt(lowercase(a.name@), lowercase(b.name@))
}

/// Song `a` comes before song `b` by year.
pub open spec fn year_before() -> spec_fn(Song, Song) -> bool {
    |a: Song, b: Song| a.year < b.year
}

/// Whether `a` comes before `b` by the lowercase of their names.
pub fn song_name_before(a: &Song, b: &Song) -> (r: bool)
    ensures
        r == name_before()(*a, *b),
{
    lower_less(a.name.as_str(), b.name.as_str())
}

/// Whether `a` comes before `b` by year.
pub fn song_year_before(a: &Song, b: &Song) -> (r: bool)
    ensures
        r == year_before()(*a, *b),
{
    a.year < b.year
}

/// Ordering songs by the lowercase of their names is a strict weak order.
pub proof fn lemma_name_order()
    ensures
        strict_weak_order(name_before()),
{
    assert forall|a: Song| !#[trigger] name_before()(a, a) by {
        lemma_lex_irreflexive(lowercase(a.name@));
    }
    assert forall|a: Song, b: Song, c: Song|
        #[trigger] name_before()(a, b) && #[trigger] name_before()(b, c) implies name_before()(a, c) by {
        lemma_lex_transitive(lowercase(a.name@), lowercase(b.name@), lowercase(c.name@));
    }
    assert forall|a: Song, b: Song, c: Song|
        !#[trigger] name_before()(a, b) && !#[trigger] name_before()(b, c) implies !name_before()(a, c) by {
        lemma_lex_not_lt(lowercase(a.name@), lowercase(b.name@), lowercase(c.name@));
    }
}

/// Ordering songs by year is a strict weak order.
pub proof fn lemma_year_order()
    ensures
        strict_weak_order(year_before()),
{
}

// ---------------------------------------------------------------------
// Operations on one playlist
// ---------------------------------------------------------------------

/// An empty playlist called `name`.
pub fn create_playlist(name: &str) -> (r: Playlist)
    ensures
        r@ == (PlaylistView { name: name@, songs: Seq::empty() }),
{
    Playlist { name: string_from(name), songs: Vec::new() }
}

/// `pl` with `song` added at the end.
pub fn add_song_to_playlist(pl: &Playlist, song: Song) -> (r: Playlist)
    ensures
        r@ == (PlaylistView { name: pl.name@, songs: pl.songs@.push(song) }),
{
    let mut songs = copy_songs(pl.songs.as_slice());
    songs.push(song);
    Playlist { name: pl.name.clone(), songs }
}

/// The songs of `songs` whose id is not `song_id`.
pub open spec fn without_id(songs: Seq<Song>, song_id: u32) -> Seq<Song> {
    songs.filter(|s: Song| s.id != song_id)
}

/// `pl` without the songs whose id is `song_id`.
pub fn remove_song_from_playlist(pl: &Playlist, song_id: u32) -> (r: Playlist)
    ensures
        r@ == (PlaylistView { name: pl.name@, songs: without_id(pl.songs@, song_id) }),
{
    let ghost s = pl.songs@;
    let mut songs: Vec<Song> = Vec::new();
    for i in 0..pl.songs.len()
        invariant
            s == pl.songs@,
            songs@ == without_id(s.take(i as int), song_id),
    {
        proof {
            reveal_with_fuel(Seq::filter, 1);
        }
        assert(s.take(i + 1).drop_last() =~= s.take(i as int));
        if pl.songs[i].id != song_id {
            songs.push(pl.songs[i].clone());
        }
    }
    assert(s.take(s.len() as int) =~= s);
    Playlist { name: pl.name.clone(), songs }
}

/// The songs of `songs` that `keep` marks, in order.
pub open spec fn select(songs: Seq<Song>, keep: Seq<bool>) -> Seq<Song>
    decreases songs.len(),
{
    if songs.len() == 0 || keep.len() != songs.len() {
        Seq::empty()
    } else if keep.last() {
        select(songs.drop_last(), keep.drop_last()).push(songs.last())
    } else {
        select(songs.drop_last(), keep.drop_last())
    }
}

/// When `keep` marks exactly the songs that satisfy `p`, selecting by it is
/// filtering by `p`.
pub proof fn lemma_select_filter(songs: Seq<Song>, keep: Seq<bool>, p: spec_fn(Song) -> bool)
    requires
        keep.len() == songs.len(),
        forall|i: int| 0 <= i < songs.len() ==> keep[i] == p(#[trigger] songs[i]),
    ensures
        select(songs, keep) == songs.filter(p),
    decreases songs.len(),
{
    reveal_with_fuel(Seq::filter, 1);
    if songs.len() > 0 {
        let (s2, k2) = (songs.drop_last(), keep.drop_last());
        assert forall|i: int| 0 <= i < s2.len() implies k2[i] == p(#[trigger] s2[i]) by {
            assert(songs[i] == s2[i]);
        }
        lemma_select_filter(s2, k2, p);
        assert(keep.last() == p(songs[songs.len() - 1]));
    }
}

/// `pl` with only the songs for which `predicate` answers true, in order.
/// The predicate may answer anything its contract allows: the result keeps
/// exactly the songs for which it did answer true.
pub fn filter_playlist<F: Fn(&Song) -> bool>(pl: &Playlist, predicate: F) -> (r: Playlist)
    requires
        forall|s: &Song| #[trigger] predicate.requires((s,)),
    ensures
        r.name@ == pl.name@,
        exists|keep: Seq<bool>|
            {
                &&& keep.len() == pl.songs@.len()
                &&& forall|i: int| 0 <= i < keep.len() ==> #[trigger] predicate.ensures((&pl.songs@[i],), keep[i])
                &&& r.songs@ == select(pl.songs@, keep)
            },
{
    let ghost s = pl.songs@;
    let ghost mut keep: Seq<bool> = Seq::empty();
    let mut songs: Vec<Song> = Vec::new();
    for i in 0..pl.songs.len()
        invariant
            s == pl.songs@,
            keep.len() == i,
            forall|k: int| 0 <= k < i ==> #[trigger] predicate.ensures((&s[k],), keep[k]),
            songs@ == select(s.take(i as int), keep),
            forall|s: &Song| #[trigger] predicate.requires((s,)),
    {
        let b = predicate(&pl.songs[i]);
        let ghost prev = keep;
        proof {
            keep = keep.push(b);
        }
        assert(s.take(i + 1).drop_last() =~= s.take(i as int));
        assert(keep.drop_last() =~= prev);
        assert(s.take(i + 1).last() == s[i as int]);
        if b {
            songs.push(pl.songs[i].clone());
        }
    }
    assert(s.take(s.len() as int) =~= s);
    Playlist { name: pl.name.clone(), songs }
}

/// `pl` with its songs in the order of the lowercase of their names;
/// songs whose names tie keep their order.
pub fn sort_by_name(pl: &Playlist) -> (r: Playlist)
    ensures
        r@ == (PlaylistView { name: pl.name@, songs: sort_by(pl.songs@, name_before()) }),
{
    let songs = copy_songs(pl.songs.as_slice());
    let sorted = sort_stable(songs, &song_name_before, Ghost(name_before()));
    Playlist { name: pl.name.clone(), songs: sorted }
}

/// `pl` with its songs in the order of their years; songs of the same year
/// keep their order.
pub fn sort_by_year(pl: &Playlist) -> (r: Playlist)
    ensures
        r@ == (PlaylistView { name: pl.name@, songs: sort_by(pl.songs@, year_before()) }),
{
    let songs = copy_songs(pl.songs.as_slice());
    let sorted = sort_stable(songs, &song_year_before, Ghost(year_before()));
    Playlist { name: pl.name.clone(), songs: sorted }
}

/// The artists of `songs`, in order.
pub open spec fn artists_of(songs: Seq<Song>) -> Seq<Seq<char>> {
    songs.map_values(|s: Song| s.artist@)
}

/// The summary line of a playlist called `name` with `total` songs by
/// `artists` different artists.
pub open spec fn summary_text(name: Seq<char>, total: nat, artists: nat) -> Seq<char> {
    "Playlist '"@ + name + "': "@ + decimal(total) + " canciones, "@ + decimal(artists)
        + " artistas únicos"@
}

/// A line that gives the name of `pl`, its number of songs and its number
/// of different artists.
pub fn summarize_playlist(pl: &Playlist) -> (r: String)
    requires
        pl.songs@.len() <= u32::MAX,
    ensures
        r@ == summary_text(pl.name@, pl.songs@.len(), distinct(artists_of(pl.songs@)).len()),
{
    let ghost s = pl.songs@;
    let mut count: u32 = 0;
    let mut artists: Vec<String> = Vec::new();
    for i in 0..pl.songs.len()
        invariant
            s == pl.songs@,
            s.len() <= u32::MAX,
            count == i,
            texts(artists@) == distinct(artists_of(s.take(i as int))),
    {
        assert(artists_of(s.take(i + 1)).drop_last() =~= artists_of(s.take(i as int)));
        assert(artists_of(s.take(i + 1)).last() == s[i as int].artist@);
        if !contains_text(artists.as_slice(), pl.songs[i].artist.as_str()) {
            artists.push(pl.songs[i].artist.clone());
            assert(texts(artists@) =~= distinct(artists_of(s.take(i as int))).push(s[i as int].artist@));
        }
        count = count + 1;
    }
    assert(s.take(s.len() as int) =~= s);
    let total = decimal_string(count as u64);
    let different = decimal_string(artists.len() as u64);
    let a = concat("Playlist '", pl.name.as_str());
    let b = concat(a.as_str(), "': ");
    let c = concat(b.as_str(), total.as_str());
    let d = concat(c.as_str(), " canciones, ");
    let e = concat(d.as_str(), different.as_str());
    concat(e.as_str(), " artistas únicos")
}

/// The line that names a song: its name, a dash and its artist.
pub open spec fn song_label(s: Song) -> Seq<char> {
    s.name@ + " - "@ + s.artist@
}

/// For each song of `pl`, in order, its name and artist as "name - artist".
pub fn get_song_names(pl: &Playlist) -> (r: Vec<String>)
    ensures
        texts(r@) == pl.songs@.map_values(|s: Song| song_label(s)),
{
    let mut r: Vec<String> = Vec::new();
    for i in 0..pl.songs.len()
        invariant
            r@.len() == i,
            forall|k: int| 0 <= k < i ==> (#[trigger] r@[k])@ == song_label(pl.songs@[k]),
    {
        let a = concat(pl.songs[i].name.as_str(), " - ");
        let b = concat(a.as_str(), pl.songs[i].artist.as_str());
        r.push(b);
    }
    assert(texts(r@) =~= pl.songs@.map_values(|s: Song| song_label(s)));
    r
}

/// Sorting a playlist by name puts its songs in the order of their
/// lowercase names and keeps every song: the same songs, as many times.
pub proof fn lemma_sort_by_name_orders(songs: Seq<Song>)
    ensures
        is_sorted_by(sort_by(songs, name_before()), name_before()),
        forall|i: int, j: int|
            0 <= i < j < sort_by(songs, name_before()).len() ==> !lex_lt(
                lowercase((#[trigger] sort_by(songs, name_before())[j]).name@),
                lowercase((#[trigger] sort_by(songs, name_before())[i]).name@),
            ),
        sort_by(songs, name_before()).to_multiset() == songs.to_multiset(),
        sort_by(songs, name_before()).len() == songs.len(),
{
    lemma_name_order();
    lemma_sort_by_sorted(songs, name_before());
    lemma_sort_by_permutes(songs, name_before());
    let r = sort_by(songs, name_before());
    assert forall|i: int, j: int| 0 <= i < j < r.len() implies !lex_lt(
        lowercase((#[trigger] r[j]).name@),
        lowercase((#[trigger] r[i]).name@),
    ) by {
        assert(!name_before()(r[j], r[i]));
    }
}

/// Sorting a playlist by year puts its songs in the order of their years
/// and keeps every song: the same songs, as many times.
pub proof fn lemma_sort_by_year_orders(songs: Seq<Song>)
    ensures
        forall|i: int, j: int|
            0 <= i < j < sort_by(songs, year_before()).len() ==> #[trigger] sort_by(songs, year_before())[i].year
                <= #[trigger] sort_by(songs, year_before())[j].year,
        sort_by(songs, year_before()).to_multiset() == songs.to_multiset(),
        sort_by(songs, year_before()).len() == songs.len(),
{
    lemma_year_order();
    lemma_sort_by_sorted(songs, year_before());
    lemma_sort_by_permutes(songs, year_before());
    let r = sort_by(songs, year_before());
    assert forall|i: int, j: int| 0 <= i < j < r.len() implies #[trigger] r[i].year <= #[trigger] r[j].year by {
        assert(!year_before()(r[j], r[i]));
    }
}

} // verus!
