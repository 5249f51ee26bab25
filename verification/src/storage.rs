//! What the files of the library hold, and how they become songs and
//! playlists again. Songs are stored without id and playing state (ids are
//! handed out when loading); playlists are stored as a name and the ids of
//! their songs. Reading and writing the files is left to the program
//! around the library.

use vstd::prelude::*;
use crate::song::Song;
use crate::playlist::{Playlist, PlaylistView, views};
use crate::id_generator::{IdGenerator, next_id};
use crate::server::{first_with_id, position_of_id, lemma_first_with_id};
use crate::text::chars_of;
use crate::text::string_of;

verus! {

/// A stored song.
pub struct SongEntry {
    pub name: String,
    pub artist: String,
    pub genre: String,
    pub year: u32,
    pub file_path: String,
}

/// A stored playlist: its name and the ids of its songs.
pub struct PlaylistEntry {
    pub name: String,
    pub song_ids: Vec<u32>,
}

/// What a stored playlist holds.
pub open spec fn entry_view(e: PlaylistEntry) -> (Seq<char>, Seq<u32>) {
    (e.name@, e.song_ids@)
}

/// What stored playlists hold.
pub open spec fn entries_view(es: Seq<PlaylistEntry>) -> Seq<(Seq<char>, Seq<u32>)> {
    es.map_values(|e: PlaylistEntry| entry_view(e))
}

/// A path with every backslash turned into a slash.
pub open spec fn forward_slashes(path: Seq<char>) -> Seq<char> {
    path.map_values(|c: char| if c == '\\' { '/' } else { c })
}

/// `path` with every backslash turned into a slash.
pub fn with_forward_slashes(path: &str) -> (r: String)
    ensures
        r@ == forward_slashes(path@),
{
    let cs = chars_of(path);
    let mut out: Vec<char> = Vec::new();
    for i in 0..cs.len()
        invariant
            out@.len() == i,
            forall|k: int| 0 <= k < i ==> out@[k] == (if cs@[k] == '\\' { '/' } else { cs@[k] }),
    {
        out.push(if cs[i] == '\\' { '/' } else { cs[i] });
    }
    assert(out@ =~= forward_slashes(path@));
    string_of(out.as_slice())
}

/// Turning backslashes into slashes twice is the same as once: songs that
/// were loaded, saved and loaded again keep their paths.
pub proof fn lemma_forward_slashes_idempotent(path: Seq<char>)
    ensures
        forward_slashes(forward_slashes(path)) == forward_slashes(path),
{
    assert(forward_slashes(forward_slashes(path)) =~= forward_slashes(path));
}

/// The song that the `i`-th stored song becomes when the ids handed out so
/// far end at `start`.
pub open spec fn loaded_song(e: SongEntry, id: u32, s: Song) -> bool {
    &&& s.id == id
    &&& s.name@ == e.name@
    &&& s.artist@ == e.artist@
    &&& s.genre@ == e.genre@
    &&& s.year == e.year
    &&& s.file_path@ == forward_slashes(e.file_path@)
    &&& !s.is_playing
}

/// The songs of the stored entries, in order, each with the next id of the
/// generator, not playing, its path with forward slashes.
pub fn songs_from_entries(entries: Vec<SongEntry>, id_gen: &mut IdGenerator) -> (r: Vec<Song>)
    requires
        old(id_gen).current + entries@.len() <= u32::MAX,
    ensures
        final(id_gen).current == old(id_gen).current + entries@.len(),
        r@.len() == entries@.len(),
        forall|i: int|
            0 <= i < entries@.len() ==> loaded_song(
                entries@[i],
                (old(id_gen).current + i + 1) as u32,
                #[trigger] r@[i],
            ),
{
    let ghost all = entries@;
    let ghost start = id_gen.current;
    let mut songs: Vec<Song> = Vec::new();
    let mut rest = entries;
    let n = rest.len();
    let mut i: usize = 0;
    while i < n
        invariant
            n == all.len(),
            0 <= i <= n,
            start + n <= u32::MAX,
            id_gen.current == start + i,
            rest@ == all.skip(i as int),
            songs@.len() == i,
            forall|k: int| 0 <= k < i ==> loaded_song(all[k], (start + k + 1) as u32, #[trigger] songs@[k]),
        decreases n - i,
    {
        let entry = rest.remove(0);
        assert(entry == all[i as int]);
        assert(rest@ =~= all.skip(i + 1));
        let id = next_id(id_gen);
        let file_path = with_forward_slashes(entry.file_path.as_str());
        songs.push(
            Song {
                id,
                name: entry.name,
                artist: entry.artist,
                genre: entry.genre,
                year: entry.year,
                file_path,
                is_playing: false,
            },
        );
        i = i + 1;
    }
    songs
}

/// The stored form of the songs: everything but id and playing state.
pub fn song_entries(songs: &[Song]) -> (r: Vec<SongEntry>)
    ensures
        r@.len() == songs@.len(),
        forall|i: int|
            0 <= i < songs@.len() ==> {
                &&& (#[trigger] r@[i]).name@ == songs@[i].name@
                &&& r@[i].artist@ == songs@[i].artist@
                &&& r@[i].genre@ == songs@[i].genre@
                &&& r@[i].year == songs@[i].year
                &&& r@[i].file_path@ == songs@[i].file_path@
            },
{
    let mut r: Vec<SongEntry> = Vec::new();
    for i in 0..songs.len()
        invariant
            r@.len() == i,
            forall|k: int|
                0 <= k < i ==> {
                    &&& (#[trigger] r@[k]).name@ == songs@[k].name@
                    &&& r@[k].artist@ == songs@[k].artist@
                    &&& r@[k].genre@ == songs@[k].genre@
                    &&& r@[k].year == songs@[k].year
                    &&& r@[k].file_path@ == songs@[k].file_path@
                },
    {
        let s = &songs[i];
        r.push(
            SongEntry {
                name: s.name.clone(),
                artist: s.artist.clone(),
                genre: s.genre.clone(),
                year: s.year,
                file_path: s.file_path.clone(),
            },
        );
    }
    r
}

/// The stored form of the playlists: names and the ids of their songs.
pub open spec fn stored_playlists(pls: Seq<PlaylistView>) -> Seq<(Seq<char>, Seq<u32>)> {
    pls.map_values(|p: PlaylistView| (p.name, p.songs.map_values(|s: Song| s.id)))
}

/// The song of the library with id `id` (the first one), if any.
pub open spec fn song_with_id(songs: Seq<Song>, id: u32) -> Option<Song> {
    let k = first_with_id(songs, id);
    if k < songs.len() {
        Some(songs[k])
    } else {
        None
    }
}

/// The playlists that stored playlists describe: each id becomes the song
/// of the library with that id; ids without a song are dropped.
pub open spec fn rebuilt_playlists(entries: Seq<(Seq<char>, Seq<u32>)>, songs: Seq<Song>) -> Seq<PlaylistView> {
    entries.map_values(
        |e: (Seq<char>, Seq<u32>)|
            PlaylistView { name: e.0, songs: e.1.filter_map(|id: u32| song_with_id(songs, id)) },
    )
}

/// The stored form of the playlists.
pub fn playlist_entries(playlists: &[Playlist]) -> (r: Vec<PlaylistEntry>)
    ensures
        entries_view(r@) == stored_playlists(views(playlists@)),
{
    let mut r: Vec<PlaylistEntry> = Vec::new();
    for i in 0..playlists.len()
        invariant
            r@.len() == i,
            forall|k: int|
                0 <= k < i ==> entry_view(#[trigger] r@[k]) == (
                    playlists@[k].name@,
                    playlists@[k].songs@.map_values(|s: Song| s.id),
                ),
    {
        let pl = &playlists[i];
        let mut ids: Vec<u32> = Vec::new();
        for j in 0..pl.songs.len()
            invariant
                ids@ == pl.songs@.take(j as int).map_values(|s: Song| s.id),
        {
            ids.push(pl.songs[j].id);
            assert(ids@ =~= pl.songs@.take(j + 1).map_values(|s: Song| s.id));
        }
        assert(pl.songs@.take(pl.songs@.len() as int) =~= pl.songs@);
        r.push(PlaylistEntry { name: pl.name.clone(), song_ids: ids });
    }
    assert(entries_view(r@) =~= stored_playlists(views(playlists@)));
    r
}

/// The playlists that the stored entries describe, their songs taken from
/// the library by id.
pub fn playlists_from_entries(entries: Vec<PlaylistEntry>, songs: &[Song]) -> (r: Vec<Playlist>)
    ensures
        views(r@) == rebuilt_playlists(entries_view(entries@), songs@),
{
    let ghost all = entries_view(entries@);
    let mut r: Vec<Playlist> = Vec::new();
    for i in 0..entries.len()
        invariant
            all == entries_view(entries@),
            r@.len() == i,
            forall|k: int|
                0 <= k < i ==> (#[trigger] r@[k])@ == (PlaylistView {
                    name: all[k].0,
                    songs: all[k].1.filter_map(|id: u32| song_with_id(songs@, id)),
                }),
    {
        let entry = &entries[i];
        let ghost ids = entry.song_ids@;
        let mut found: Vec<Song> = Vec::new();
        for j in 0..entry.song_ids.len()
            invariant
                ids == entry.song_ids@,
                found@ == ids.take(j as int).filter_map(|id: u32| song_with_id(songs@, id)),
        {
            let id = entry.song_ids[j];
            let k = position_of_id(songs, id);
            assert(ids.take(j + 1).drop_last() =~= ids.take(j as int));
            assert(ids.take(j + 1).last() == id);
            if k < songs.len() {
                found.push(songs[k].clone());
            }
            assert(found@ =~= ids.take(j + 1).filter_map(|id: u32| song_with_id(songs@, id)));
        }
        assert(ids.take(ids.len() as int) =~= ids);
        r.push(Playlist { name: entry.name.clone(), songs: found });
    }
    assert(views(r@) =~= rebuilt_playlists(all, songs@));
    r
}

/// No two songs of the library share an id.
pub open spec fn unique_ids(songs: Seq<Song>) -> bool {
    forall|i: int, j: int| 0 <= i < j < songs.len() ==> #[trigger] songs[i].id != #[trigger] songs[j].id
}

/// When no two songs share an id, every song of the library is the song
/// found by its id, so playlists of library songs meet the condition of
/// `lemma_playlists_round_trip`.
pub proof fn lemma_song_by_id(songs: Seq<Song>, s: Song)
    requires
        unique_ids(songs),
        songs.contains(s),
    ensures
        song_with_id(songs, s.id) == Some(s),
{
    let k = choose|k: int| 0 <= k < songs.len() && songs[k] == s;
    assert forall|j: int| 0 <= j < k implies #[trigger] songs[j].id != s.id by {
        assert(songs[j].id != songs[k].id);
    }
    lemma_first_with_id(songs, s.id, k);
}

proof fn lemma_ids_round_trip(list: Seq<Song>, songs: Seq<Song>)
    requires
        forall|j: int| 0 <= j < list.len() ==> song_with_id(songs, (#[trigger] list[j]).id) == Some(list[j]),
    ensures
        list.map_values(|s: Song| s.id).filter_map(|id: u32| song_with_id(songs, id)) == list,
    decreases list.len(),
{
    if list.len() > 0 {
        let t = list.drop_last();
        assert forall|j: int| 0 <= j < t.len() implies song_with_id(songs, (#[trigger] t[j]).id) == Some(t[j]) by {
            assert(t[j] == list[j]);
        }
        lemma_ids_round_trip(t, songs);
        let ids = list.map_values(|s: Song| s.id);
        assert(ids.drop_last() =~= t.map_values(|s: Song| s.id));
        assert(song_with_id(songs, list[list.len() - 1].id) == Some(list[list.len() - 1]));
        assert(ids.last() == list.last().id);
        assert(t + seq![list.last()] =~= list);
    }
}

/// Saving playlists and loading them back gives the same playlists, when
/// each song of a playlist is the first song of the library with its id
/// (as it is when the playlists hold songs of a library whose ids are
/// unique, see `lemma_song_by_id`).
pub proof fn lemma_playlists_round_trip(pls: Seq<PlaylistView>, songs: Seq<Song>)
    requires
        forall|i: int, j: int|
            0 <= i < pls.len() && 0 <= j < pls[i].songs.len() ==> song_with_id(
                songs,
                (#[trigger] pls[i].songs[j]).id,
            ) == Some(pls[i].songs[j]),
    ensures
        rebuilt_playlists(stored_playlists(pls), songs) == pls,
{
    let r = rebuilt_playlists(stored_playlists(pls), songs);
    assert forall|i: int| 0 <= i < pls.len() implies #[trigger] r[i] == pls[i] by {
        assert forall|j: int| 0 <= j < pls[i].songs.len() implies song_with_id(
            songs,
            (#[trigger] pls[i].songs[j]).id,
        ) == Some(pls[i].songs[j]) by {}
        lemma_ids_round_trip(pls[i].songs, songs);
    }
    assert(r =~= pls);
}

/// Loading songs hands out the ids one after another, so loaded songs never
/// share an id.
pub proof fn lemma_loaded_ids_unique(entries: Seq<SongEntry>, start: u32, loaded: Seq<Song>)
    requires
        loaded.len() == entries.len(),
        start + entries.len() <= u32::MAX,
        forall|i: int| 0 <= i < entries.len() ==> loaded_song(entries[i], (start + i + 1) as u32, #[trigger] loaded[i]),
    ensures
        unique_ids(loaded),
{
    assert forall|i: int, j: int| 0 <= i < j < loaded.len() implies #[trigger] loaded[i].id != #[trigger] loaded[j].id by {
        assert(loaded_song(entries[i], (start + i + 1) as u32, loaded[i]));
        assert(loaded_song(entries[j], (start + j + 1) as u32, loaded[j]));
    }
}

} // verus!
