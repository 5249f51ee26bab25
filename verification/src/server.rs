//! The decisions of the streaming server. Each request is answered by a
//! step from the library's state (songs and playlists) to a new state and
//! an action; the program around the library performs the action (sending,
//! saving, decoding, touching files) and, where the action asks, hands the
//! outcome back to a follow-up step here.

use vstd::prelude::*;
use crate::song::{Song, copy_songs};
use crate::playlist::{Playlist, PlaylistView, views, copy_playlists};
use crate::playlist_service::{create, delete, add_song, remove_song, sort, get, list_names, filter, summarize,
    created, deleted, changed, found, filtered, summarized, names_of, with_song, without_song,
    sorted_by_criterion, has_named, first_named, find_named, lemma_first_named_is_first, list_result, playlist_result, text_result};
use crate::song_service::{list_songs, search_by_name, try_search_by_name, search_by_year_range,
    search_by_genre_ranked, name_result, name_search_fits, year_range_result, genre_result};
use crate::protocol::{Request, RequestView, Response, ResponseView};
use crate::text::{concat, decimal, decimal_string, has_char, string_from, texts, lowercase, lex_lt, to_lower,
    str_equal, str_less, chars_of, lemma_lex_irreflexive, lemma_lex_transitive, lemma_lex_not_lt};
use crate::decoder::DecodedAudio;
use crate::playlist::without_id;
use crate::sorting::{sort_by, sort_stable, strict_weak_order, lemma_sort_by_sorted, lemma_sort_by_permutes,
    lemma_sort_by_contains};

verus! {

/// What the program around the library does after a step.
pub enum Action {
    /// Send the response.
    Reply(Response),
    /// Save the playlists, then send the response.
    SavePlaylistsAndReply(Response),
    /// The song is marked as playing: decode its file and stream it.
    Stream { song_id: u32, file_path: String },
    /// Remove the song's audio file if it exists, then finish the deletion
    /// with `finish_song_deletion`.
    RemoveSongFile { song_id: u32, file_path: String },
    /// List the audio files of the library folder with `library_listing`.
    ListLibrary,
    /// Check that the library file exists and is not yet among the songs,
    /// copy it to `destination`, then register it with
    /// `check_library_song` and `register_library_song`.
    ImportFromLibrary {
        file_name: String,
        destination: String,
        name: String,
        artist: String,
        genre: String,
        year: u32,
    },
}

/// What an action holds, its texts as character sequences.
pub enum ActionView {
    Reply(ResponseView),
    SavePlaylistsAndReply(ResponseView),
    Stream { song_id: u32, file_path: Seq<char> },
    RemoveSongFile { song_id: u32, file_path: Seq<char> },
    ListLibrary,
    ImportFromLibrary {
        file_name: Seq<char>,
        destination: Seq<char>,
        name: Seq<char>,
        artist: Seq<char>,
        genre: Seq<char>,
        year: u32,
    },
}

impl View for Action {
    type V = ActionView;

    open spec fn view(&self) -> ActionView {
        match self {
            Action::Reply(r) => ActionView::Reply(r@),
            Action::SavePlaylistsAndReply(r) => ActionView::SavePlaylistsAndReply(r@),
            Action::Stream { song_id, file_path } => ActionView::Stream { song_id: *song_id, file_path: file_path@ },
            Action::RemoveSongFile { song_id, file_path } => ActionView::RemoveSongFile {
                song_id: *song_id,
                file_path: file_path@,
            },
            Action::ListLibrary => ActionView::ListLibrary,
            Action::ImportFromLibrary { file_name, destination, name, artist, genre, year } => ActionView::ImportFromLibrary {
                file_name: file_name@,
                destination: destination@,
                name: name@,
                artist: artist@,
                genre: genre@,
                year: *year,
            },
        }
    }
}

// ---------------------------------------------------------------------
// Songs by id
// ---------------------------------------------------------------------

/// The index of the first song with id `id`, or the number of songs.
pub open spec fn first_with_id(songs: Seq<Song>, id: u32) -> int
    decreases songs.len(),
{
    if songs.len() == 0 {
        0
    } else if songs[0].id == id {
        0
    } else {
        1 + first_with_id(songs.drop_first(), id)
    }
}

pub proof fn lemma_first_with_id(songs: Seq<Song>, id: u32, i: int)
    requires
        0 <= i <= songs.len(),
        forall|k: int| 0 <= k < i ==> #[trigger] songs[k].id != id,
        i < songs.len() ==> songs[i].id == id,
    ensures
        first_with_id(songs, id) == i,
    decreases i,
{
    if i > 0 {
        let t = songs.drop_first();
        assert forall|k: int| 0 <= k < i - 1 implies #[trigger] t[k].id != id by {
            assert(t[k] == songs[k + 1]);
        }
        if i < songs.len() {
            assert(t[i - 1] == songs[i]);
        }
        assert(songs[0].id != id);
        lemma_first_with_id(t, id, i - 1);
    }
}

/// `first_with_id` is at most the number of songs, no song before it has
/// the id, and the song there (if any) has it.
pub proof fn lemma_first_with_id_bounds(songs: Seq<Song>, id: u32)
    ensures
        0 <= first_with_id(songs, id) <= songs.len(),
        forall|j: int| 0 <= j < first_with_id(songs, id) ==> #[trigger] songs[j].id != id,
        first_with_id(songs, id) < songs.len() ==> songs[first_with_id(songs, id)].id == id,
    decreases songs.len(),
{
    if songs.len() > 0 && songs[0].id != id {
        let t = songs.drop_first();
        lemma_first_with_id_bounds(t, id);
        assert forall|j: int| 0 <= j < first_with_id(songs, id) implies #[trigger] songs[j].id != id by {
            if j > 0 {
                assert(songs[j] == t[j - 1]);
            }
        }
    }
}

/// Where the first song with id `id` stands, or the number of songs.
pub fn position_of_id(songs: &[Song], id: u32) -> (r: usize)
    ensures
        r == first_with_id(songs@, id),
        r <= songs@.len(),
        r < songs@.len() ==> songs@[r as int].id == id,
        r == songs@.len() ==> forall|k: int| 0 <= k < songs@.len() ==> #[trigger] songs@[k].id != id,
{
    let mut i: usize = 0;
    while i < songs.len()
        invariant
            0 <= i <= songs@.len(),
            forall|k: int| 0 <= k < i ==> #[trigger] songs@[k].id != id,
        decreases songs@.len() - i,
    {
        if songs[i].id == id {
            proof {
                lemma_first_with_id(songs@, id, i as int);
            }
            return i;
        }
        i = i + 1;
    }
    proof {
        lemma_first_with_id(songs@, id, i as int);
    }
    i
}

/// `s` with `is_playing` set to `playing`.
pub open spec fn with_playing(s: Song, playing: bool) -> Song {
    Song { is_playing: playing, ..s }
}

/// The songs with the first song of id `id` (if any) set to `playing`.
pub open spec fn set_playing(songs: Seq<Song>, id: u32, playing: bool) -> Seq<Song> {
    let k = first_with_id(songs, id);
    if k < songs.len() {
        songs.update(k, with_playing(songs[k], playing))
    } else {
        songs
    }
}

fn mark_playing(songs: &mut Vec<Song>, k: usize, playing: bool)
    requires
        k < old(songs)@.len(),
    ensures
        final(songs)@ == old(songs)@.update(k as int, with_playing(old(songs)@[k as int], playing)),
{
    let mut s = songs[k].clone();
    s.is_playing = playing;
    songs.set(k, s);
}

// ---------------------------------------------------------------------
// Messages
// ---------------------------------------------------------------------

/// "Canción con ID <id> no encontrada".
pub open spec fn id_not_found(id: u32) -> Seq<char> {
    "Canción con ID "@ + decimal(id as nat) + " no encontrada"@
}

/// "Canción <id> no encontrada".
pub open spec fn song_not_found(id: u32) -> Seq<char> {
    "Canción "@ + decimal(id as nat) + " no encontrada"@
}

fn message_with_id(before: &str, id: u32, after: &str) -> (r: String)
    ensures
        r@ == before@ + decimal(id as nat) + after@,
{
    let n = decimal_string(id as u64);
    let a = concat(before, n.as_str());
    concat(a.as_str(), after)
}

/// The answer that an error message gives.
pub open spec fn error_reply(message: Seq<char>) -> ResponseView {
    ResponseView::Error { message }
}

// ---------------------------------------------------------------------
// The step
// ---------------------------------------------------------------------

/// The playlists after a step that may replace them.
pub open spec fn replaced(pls: Seq<PlaylistView>, r: Result<Seq<PlaylistView>, Seq<char>>) -> Seq<PlaylistView> {
    match r {
        Ok(v) => v,
        Err(_) => pls,
    }
}

/// The action after a change of the playlists that answers the list of
/// names.
pub open spec fn list_action(r: Result<Seq<PlaylistView>, Seq<char>>) -> ActionView {
    match r {
        Ok(v) => ActionView::SavePlaylistsAndReply(ResponseView::PlaylistList { playlists: names_of(v) }),
        Err(m) => ActionView::Reply(error_reply(m)),
    }
}

/// The action after a change of the playlist `name` that answers the
/// changed playlist.
pub open spec fn playlist_action(r: Result<Seq<PlaylistView>, Seq<char>>, name: Seq<char>) -> ActionView {
    match r {
        Ok(v) => ActionView::SavePlaylistsAndReply(
            match found(v, name) {
                Ok(p) => ResponseView::PlaylistOk { playlist: p },
                Err(m) => error_reply(m),
            },
        ),
        Err(m) => ActionView::Reply(error_reply(m)),
    }
}

/// The answer that shows one playlist, or the error.
pub open spec fn playlist_reply(r: Result<PlaylistView, Seq<char>>) -> ResponseView {
    match r {
        Ok(p) => ResponseView::PlaylistOk { playlist: p },
        Err(m) => error_reply(m),
    }
}

/// Where a file of the library is copied to.
pub open spec fn library_destination(file_name: Seq<char>) -> Seq<char> {
    "songs/"@ + file_name
}

/// The songs after a step.
pub open spec fn step_songs(songs: Seq<Song>, req: RequestView) -> Seq<Song> {
    match req {
        RequestView::Play { song_id } => set_playing(songs, song_id, true),
        RequestView::Stop { song_id } => set_playing(songs, song_id, false),
        _ => songs,
    }
}

/// The playlists after a step.
pub open spec fn step_playlists(songs: Seq<Song>, pls: Seq<PlaylistView>, req: RequestView) -> Seq<PlaylistView> {
    match req {
        RequestView::CreatePlaylist { name } => replaced(pls, created(pls, name)),
        RequestView::DeletePlaylist { name } => replaced(pls, deleted(pls, name)),
        RequestView::AddToPlaylist { playlist_name, song_id } => {
            let k = first_with_id(songs, song_id);
            if k < songs.len() {
                replaced(pls, changed(pls, playlist_name, with_song(songs[k])))
            } else {
                pls
            }
        },
        RequestView::RemoveFromPlaylist { playlist_name, song_id } => replaced(
            pls,
            changed(pls, playlist_name, without_song(song_id)),
        ),
        RequestView::SortPlaylist { playlist_name, by } => replaced(
            pls,
            changed(pls, playlist_name, sorted_by_criterion(by)),
        ),
        _ => pls,
    }
}

/// The action of a step.
pub open spec fn step_action(songs: Seq<Song>, pls: Seq<PlaylistView>, req: RequestView) -> ActionView {
    match req {
        RequestView::ListSongs => ActionView::Reply(ResponseView::SongList { songs }),
        RequestView::SearchByName { query } => ActionView::Reply(
            ResponseView::SongList { songs: name_result(songs, query) },
        ),
        RequestView::SearchByYearRange { from, to } => ActionView::Reply(
            ResponseView::SongList { songs: year_range_result(songs, from, to) },
        ),
        RequestView::SearchByGenre { query } => ActionView::Reply(
            ResponseView::SongList { songs: genre_result(songs, query) },
        ),
        RequestView::Play { song_id } => {
            let k = first_with_id(songs, song_id);
            if k < songs.len() {
                ActionView::Stream { song_id, file_path: songs[k].file_path@ }
            } else {
                ActionView::Reply(error_reply(id_not_found(song_id)))
            }
        },
        RequestView::Stop { song_id } => {
            let k = first_with_id(songs, song_id);
            if k < songs.len() {
                ActionView::Reply(ResponseView::SongList { songs: seq![with_playing(songs[k], false)] })
            } else {
                ActionView::Reply(error_reply(song_not_found(song_id)))
            }
        },
        RequestView::DeleteSong { song_id } => {
            let k = first_with_id(songs, song_id);
            if k == songs.len() {
                ActionView::Reply(error_reply(id_not_found(song_id)))
            } else if songs[k].is_playing {
                ActionView::Reply(error_reply("No se puede eliminar una canción que se está reproduciendo"@))
            } else {
                ActionView::RemoveSongFile { song_id, file_path: songs[k].file_path@ }
            }
        },
        RequestView::ListLibrarySongs => ActionView::ListLibrary,
        RequestView::AddSongFromLibrary { file_name, name, artist, genre, year } => {
            if file_name.contains('/') || file_name.contains('\\') {
                ActionView::Reply(error_reply("Nombre de archivo inválido"@))
            } else {
                ActionView::ImportFromLibrary {
                    file_name,
                    destination: library_destination(file_name),
                    name,
                    artist,
                    genre,
                    year,
                }
            }
        },
        RequestView::CreatePlaylist { name } => list_action(created(pls, name)),
        RequestView::DeletePlaylist { name } => list_action(deleted(pls, name)),
        RequestView::ListPlaylists => ActionView::Reply(ResponseView::PlaylistList { playlists: names_of(pls) }),
        RequestView::AddToPlaylist { playlist_name, song_id } => {
            let k = first_with_id(songs, song_id);
            if k < songs.len() {
                playlist_action(changed(pls, playlist_name, with_song(songs[k])), playlist_name)
            } else {
                ActionView::Reply(error_reply(song_not_found(song_id)))
            }
        },
        RequestView::RemoveFromPlaylist { playlist_name, song_id } => playlist_action(
            changed(pls, playlist_name, without_song(song_id)),
            playlist_name,
        ),
        RequestView::GetPlaylist { playlist_name } => ActionView::Reply(playlist_reply(found(pls, playlist_name))),
        RequestView::FilterPlaylist { playlist_name, field, query } => ActionView::Reply(
            playlist_reply(filtered(pls, playlist_name, field, query)),
        ),
        RequestView::SortPlaylist { playlist_name, by } => playlist_action(
            changed(pls, playlist_name, sorted_by_criterion(by)),
            playlist_name,
        ),
        RequestView::SummarizePlaylist { playlist_name } => ActionView::Reply(
            match summarized(pls, playlist_name) {
                Ok(info) => ResponseView::PlaylistInfo { info },
                Err(m) => error_reply(m),
            },
        ),
    }
}

/// The request can be handled without a count overflowing: a name search
/// whose scores fit in a `u32`, a summary of a playlist of at most
/// `u32::MAX` songs.
pub open spec fn request_fits(songs: Seq<Song>, pls: Seq<PlaylistView>, req: RequestView) -> bool {
    match req {
        RequestView::SearchByName { query } => name_search_fits(songs, query),
        RequestView::SummarizePlaylist { playlist_name } => has_named(pls, playlist_name) ==> pls[first_named(
            pls,
            playlist_name,
        )].songs.len() <= u32::MAX,
        _ => true,
    }
}

fn replace_and_list(playlists: &mut Vec<Playlist>, r: Result<Vec<Playlist>, String>) -> (a: Action)
    ensures
        views(final(playlists)@) == replaced(views(old(playlists)@), list_result(r)),
        a@ == list_action(list_result(r)),
{
    match r {
        Ok(new) => {
            *playlists = new;
            let names = list_names(playlists.as_slice());
            Action::SavePlaylistsAndReply(Response::PlaylistList { playlists: names })
        },
        Err(message) => Action::Reply(Response::Error { message }),
    }
}

fn replace_and_show(playlists: &mut Vec<Playlist>, r: Result<Vec<Playlist>, String>, name: &str) -> (a: Action)
    ensures
        views(final(playlists)@) == replaced(views(old(playlists)@), list_result(r)),
        a@ == playlist_action(list_result(r), name@),
{
    match r {
        Ok(new) => {
            *playlists = new;
            let shown = match get(playlists.as_slice(), name) {
                Ok(playlist) => Response::PlaylistOk { playlist },
                Err(message) => Response::Error { message },
            };
            Action::SavePlaylistsAndReply(shown)
        },
        Err(message) => Action::Reply(Response::Error { message }),
    }
}

fn show(r: Result<Playlist, String>) -> (a: Response)
    ensures
        a@ == playlist_reply(playlist_result(r)),
{
    match r {
        Ok(playlist) => Response::PlaylistOk { playlist },
        Err(message) => Response::Error { message },
    }
}

/// One step of the server: answers `request` from the songs and the
/// playlists, changing them as the request asks.
pub fn handle_request(songs: &mut Vec<Song>, playlists: &mut Vec<Playlist>, request: Request) -> (a: Action)
    requires
        request_fits(old(songs)@, views(old(playlists)@), request@),
    ensures
        final(songs)@ == step_songs(old(songs)@, request@),
        views(final(playlists)@) == step_playlists(old(songs)@, views(old(playlists)@), request@),
        a@ == step_action(old(songs)@, views(old(playlists)@), request@),
{
    match request {
        Request::ListSongs => Action::Reply(Response::SongList { songs: list_songs(songs.as_slice()) }),
        Request::SearchByName { query } => Action::Reply(
            Response::SongList { songs: search_by_name(songs.as_slice(), query.as_str()) },
        ),
        Request::SearchByYearRange { from, to } => Action::Reply(
            Response::SongList { songs: search_by_year_range(songs.as_slice(), from, to) },
        ),
        Request::SearchByGenre { query } => Action::Reply(
            Response::SongList { songs: search_by_genre_ranked(songs.as_slice(), query.as_str()) },
        ),
        Request::Play { song_id } => {
            let k = position_of_id(songs.as_slice(), song_id);
            if k == songs.len() {
                return Action::Reply(
                    Response::Error { message: message_with_id("Canción con ID ", song_id, " no encontrada") },
                );
            }
            mark_playing(songs, k, true);
            Action::Stream { song_id, file_path: songs[k].file_path.clone() }
        },
        Request::Stop { song_id } => {
            let k = position_of_id(songs.as_slice(), song_id);
            if k == songs.len() {
                return Action::Reply(
                    Response::Error { message: message_with_id("Canción ", song_id, " no encontrada") },
                );
            }
            mark_playing(songs, k, false);
            let mut stopped: Vec<Song> = Vec::new();
            stopped.push(songs[k].clone());
            assert(stopped@ =~= seq![with_playing(old(songs)@[k as int], false)]);
            Action::Reply(Response::SongList { songs: stopped })
        },
        Request::DeleteSong { song_id } => {
            let k = position_of_id(songs.as_slice(), song_id);
            if k == songs.len() {
                return Action::Reply(
                    Response::Error { message: message_with_id("Canción con ID ", song_id, " no encontrada") },
                );
            }
            if songs[k].is_playing {
                return Action::Reply(
                    Response::Error {
                        message: string_from("No se puede eliminar una canción que se está reproduciendo"),
                    },
                );
            }
            Action::RemoveSongFile { song_id, file_path: songs[k].file_path.clone() }
        },
        Request::ListLibrarySongs => Action::ListLibrary,
        Request::AddSongFromLibrary { file_name, name, artist, genre, year } => {
            if has_char(file_name.as_str(), '/') || has_char(file_name.as_str(), '\\') {
                return Action::Reply(Response::Error { message: string_from("Nombre de archivo inválido") });
            }
            let destination = concat("songs/", file_name.as_str());
            Action::ImportFromLibrary { file_name, destination, name, artist, genre, year }
        },
        Request::CreatePlaylist { name } => {
            let r = create(playlists.as_slice(), name.as_str());
            replace_and_list(playlists, r)
        },
        Request::DeletePlaylist { name } => {
            let r = delete(playlists.as_slice(), name.as_str());
            replace_and_list(playlists, r)
        },
        Request::ListPlaylists => Action::Reply(
            Response::PlaylistList { playlists: list_names(playlists.as_slice()) },
        ),
        Request::AddToPlaylist { playlist_name, song_id } => {
            let k = position_of_id(songs.as_slice(), song_id);
            if k == songs.len() {
                return Action::Reply(
                    Response::Error { message: message_with_id("Canción ", song_id, " no encontrada") },
                );
            }
            let song = songs[k].clone();
            let r = add_song(playlists.as_slice(), playlist_name.as_str(), song);
            replace_and_show(playlists, r, playlist_name.as_str())
        },
        Request::RemoveFromPlaylist { playlist_name, song_id } => {
            let r = remove_song(playlists.as_slice(), playlist_name.as_str(), song_id);
            replace_and_show(playlists, r, playlist_name.as_str())
        },
        Request::GetPlaylist { playlist_name } => Action::Reply(
            show(get(playlists.as_slice(), playlist_name.as_str())),
        ),
        Request::FilterPlaylist { playlist_name, field, query } => Action::Reply(
            show(filter(playlists.as_slice(), playlist_name.as_str(), field.as_str(), query.as_str())),
        ),
        Request::SortPlaylist { playlist_name, by } => {
            let r = sort(playlists.as_slice(), playlist_name.as_str(), by.as_str());
            replace_and_show(playlists, r, playlist_name.as_str())
        },
        Request::SummarizePlaylist { playlist_name } => {
            let k = find_named(playlists.as_slice(), playlist_name.as_str());
            if k < playlists.len() {
                assert(views(playlists@)[k as int] == playlists@[k as int]@);
            }
            let reply = match summarize(playlists.as_slice(), playlist_name.as_str()) {
                Ok(info) => Response::PlaylistInfo { info },
                Err(message) => Response::Error { message },
            };
            Action::Reply(reply)
        },
    }
}

/// One step of the server, or `None` (with nothing changed) when the
/// request cannot be handled without a count overflowing (see
/// `request_fits`).
pub fn try_handle_request(songs: &mut Vec<Song>, playlists: &mut Vec<Playlist>, request: Request) -> (a: Option<
    Action,
>)
    ensures
        a is Some <==> request_fits(old(songs)@, views(old(playlists)@), request@),
        a is None ==> final(songs)@ == old(songs)@ && views(final(playlists)@) == views(old(playlists)@),
        a matches Some(act) ==> {
            &&& final(songs)@ == step_songs(old(songs)@, request@)
            &&& views(final(playlists)@) == step_playlists(old(songs)@, views(old(playlists)@), request@)
            &&& act@ == step_action(old(songs)@, views(old(playlists)@), request@)
        },
{
    match &request {
        Request::SearchByName { query } => {
            match try_search_by_name(songs.as_slice(), query.as_str()) {
                Some(found_songs) => {
                    return Some(Action::Reply(Response::SongList { songs: found_songs }));
                },
                None => {
                    return None;
                },
            }
        },
        Request::SummarizePlaylist { playlist_name } => {
            let k = find_named(playlists.as_slice(), playlist_name.as_str());
            if k < playlists.len() && playlists[k].songs.len() > 4294967295 {
                assert(views(playlists@)[k as int] == playlists@[k as int]@);
                return None;
            }
            if k < playlists.len() {
                assert(views(playlists@)[k as int] == playlists@[k as int]@);
            }
        },
        _ => {},
    }
    Some(handle_request(songs, playlists, request))
}

// ---------------------------------------------------------------------
// Follow-up steps
// ---------------------------------------------------------------------

/// Decoding failed: the song is no longer playing and the client gets the
/// message.
pub fn playback_failed(songs: &mut Vec<Song>, song_id: u32, message: String) -> (r: Response)
    ensures
        final(songs)@ == set_playing(old(songs)@, song_id, false),
        r@ == error_reply(message@),
{
    let k = position_of_id(songs.as_slice(), song_id);
    if k < songs.len() {
        mark_playing(songs, k, false);
    }
    Response::Error { message }
}

/// The header that announces the decoded audio.
pub fn audio_start(audio: &DecodedAudio) -> (r: Response)
    ensures
        r@ == (ResponseView::AudioStart {
            sample_rate: audio.info.sample_rate,
            channels: audio.info.channels,
            bits: audio.info.bits,
            total_bytes: audio.samples@.len() as usize,
        }),
{
    Response::AudioStart {
        sample_rate: audio.info.sample_rate,
        channels: audio.info.channels,
        bits: audio.info.bits,
        total_bytes: audio.samples.len(),
    }
}

/// The playlists without the songs of id `song_id`.
pub open spec fn purged(pls: Seq<PlaylistView>, song_id: u32) -> Seq<PlaylistView> {
    pls.map_values(|p: PlaylistView| PlaylistView { name: p.name, songs: without_id(p.songs, song_id) })
}

/// The song's file is gone: the first song of id `song_id` leaves the
/// library and every song of that id leaves every playlist; the answer
/// names the deleted song.
pub fn finish_song_deletion(songs: &mut Vec<Song>, playlists: &mut Vec<Playlist>, song_id: u32) -> (r: Response)
    requires
        first_with_id(old(songs)@, song_id) < old(songs)@.len(),
    ensures
        final(songs)@ == old(songs)@.remove(first_with_id(old(songs)@, song_id)),
        views(final(playlists)@) == purged(views(old(playlists)@), song_id),
        r@ == (ResponseView::PlaylistInfo {
            info: "Canción eliminada correctamente: "@ + old(songs)@[first_with_id(old(songs)@, song_id)].name@,
        }),
{
    let k = position_of_id(songs.as_slice(), song_id);
    let removed = songs.remove(k);
    let ghost before = views(playlists@);
    let mut purged_lists: Vec<Playlist> = Vec::new();
    for i in 0..playlists.len()
        invariant
            before == views(playlists@),
            purged_lists@.len() == i,
            forall|j: int| 0 <= j < i ==> (#[trigger] purged_lists@[j])@ == (PlaylistView {
                name: before[j].name,
                songs: without_id(before[j].songs, song_id),
            }),
    {
        purged_lists.push(crate::playlist::remove_song_from_playlist(&playlists[i], song_id));
    }
    *playlists = purged_lists;
    assert(views(playlists@) =~= purged(before, song_id));
    Response::PlaylistInfo { info: concat("Canción eliminada correctamente: ", removed.name.as_str()) }
}

/// Asking for a playlist changes neither the songs nor the playlists. It
/// answers the first playlist with that name, whole, when there is one, and
/// the not-found error when there is none.
pub proof fn lemma_get_playlist_step(songs: Seq<Song>, pls: Seq<PlaylistView>, n: Seq<char>)
    ensures
        step_songs(songs, RequestView::GetPlaylist { playlist_name: n }) == songs,
        step_playlists(songs, pls, RequestView::GetPlaylist { playlist_name: n }) == pls,
        (exists|k: int| 0 <= k < pls.len() && #[trigger] pls[k].name == n) ==> exists|k: int|
            {
                &&& 0 <= k < pls.len()
                &&& #[trigger] pls[k].name == n
                &&& forall|j: int| 0 <= j < k ==> #[trigger] pls[j].name != n
                &&& step_action(songs, pls, RequestView::GetPlaylist { playlist_name: n }) == ActionView::Reply(
                    ResponseView::PlaylistOk { playlist: pls[k] },
                )
            },
        !(exists|k: int| 0 <= k < pls.len() && #[trigger] pls[k].name == n) ==> step_action(
            songs,
            pls,
            RequestView::GetPlaylist { playlist_name: n },
        ) == ActionView::Reply(ResponseView::Error { message: "Playlist '"@ + n + "' no encontrada"@ }),
{
    lemma_first_named_is_first(pls, n);
    if exists|k: int| 0 <= k < pls.len() && #[trigger] pls[k].name == n {
        let f = first_named(pls, n);
        assert(pls[f].name == n);
        assert(has_named(pls, n));
    } else {
        assert(!has_named(pls, n));
    }
}

/// The requests that only read answer what the library's operations give
/// on the current songs and playlists, and change nothing: the song list,
/// the three searches, the playlist names, a filtered playlist and a
/// playlist's summary.
pub proof fn lemma_reading_steps(songs: Seq<Song>, pls: Seq<PlaylistView>, req: RequestView)
    requires
        req is ListSongs || req is SearchByName || req is SearchByYearRange || req is SearchByGenre
            || req is ListPlaylists || req is GetPlaylist || req is FilterPlaylist || req is SummarizePlaylist,
    ensures
        step_songs(songs, req) == songs,
        step_playlists(songs, pls, req) == pls,
        req is ListSongs ==> step_action(songs, pls, req) == ActionView::Reply(ResponseView::SongList { songs }),
        req matches RequestView::SearchByName { query } ==> step_action(songs, pls, req) == ActionView::Reply(
            ResponseView::SongList { songs: name_result(songs, query) },
        ),
        req matches RequestView::SearchByYearRange { from, to } ==> step_action(songs, pls, req)
            == ActionView::Reply(ResponseView::SongList { songs: year_range_result(songs, from, to) }),
        req matches RequestView::SearchByGenre { query } ==> step_action(songs, pls, req) == ActionView::Reply(
            ResponseView::SongList { songs: genre_result(songs, query) },
        ),
        req is ListPlaylists ==> step_action(songs, pls, req) == ActionView::Reply(
            ResponseView::PlaylistList { playlists: pls.map_values(|p: PlaylistView| p.name) },
        ),
        req matches RequestView::FilterPlaylist { playlist_name, field, query } ==> step_action(songs, pls, req)
            == ActionView::Reply(
            match filtered(pls, playlist_name, field, query) {
                Ok(p) => ResponseView::PlaylistOk { playlist: p },
                Err(m) => ResponseView::Error { message: m },
            },
        ),
        req matches RequestView::SummarizePlaylist { playlist_name } ==> step_action(songs, pls, req)
            == ActionView::Reply(
            match summarized(pls, playlist_name) {
                Ok(info) => ResponseView::PlaylistInfo { info },
                Err(m) => ResponseView::Error { message: m },
            },
        ),
{
    if req is ListPlaylists {
        assert(names_of(pls) =~= pls.map_values(|p: PlaylistView| p.name));
    }
}

/// Playing a song marks the first song of that id as playing, changes no
/// other song and nothing else of it, and asks to stream that song's file;
/// for an unknown id nothing changes and the answer is the not-found error.
/// Stopping a song does the same with "not playing" and answers the song.
pub proof fn lemma_play_stop_steps(songs: Seq<Song>, pls: Seq<PlaylistView>, id: u32)
    ensures
        ({
            let k = first_with_id(songs, id);
            let played = step_songs(songs, RequestView::Play { song_id: id });
            let stopped = step_songs(songs, RequestView::Stop { song_id: id });
            &&& step_playlists(songs, pls, RequestView::Play { song_id: id }) == pls
            &&& step_playlists(songs, pls, RequestView::Stop { song_id: id }) == pls
            &&& k < songs.len() ==> {
                &&& played.len() == songs.len() && stopped.len() == songs.len()
                &&& played[k] == (Song { is_playing: true, ..songs[k] })
                &&& stopped[k] == (Song { is_playing: false, ..songs[k] })
                &&& forall|j: int| 0 <= j < songs.len() && j != k ==> #[trigger] played[j] == songs[j] && stopped[j]
                    == songs[j]
                &&& step_action(songs, pls, RequestView::Play { song_id: id }) == (ActionView::Stream {
                    song_id: id,
                    file_path: songs[k].file_path@,
                })
                &&& step_action(songs, pls, RequestView::Stop { song_id: id }) == ActionView::Reply(
                    ResponseView::SongList { songs: seq![Song { is_playing: false, ..songs[k] }] },
                )
            }
            &&& k == songs.len() ==> {
                &&& played == songs && stopped == songs
                &&& step_action(songs, pls, RequestView::Play { song_id: id }) == ActionView::Reply(
                    ResponseView::Error { message: "Canción con ID "@ + decimal(id as nat) + " no encontrada"@ },
                )
                &&& step_action(songs, pls, RequestView::Stop { song_id: id }) == ActionView::Reply(
                    ResponseView::Error { message: "Canción "@ + decimal(id as nat) + " no encontrada"@ },
                )
            }
        }),
{
    lemma_first_with_id_bounds(songs, id);
}

/// Deleting a song: the step changes nothing yet. It refuses an unknown id
/// and a song that is playing, and otherwise asks to remove the file of
/// the first song of that id. Importing a file refuses a name with a slash
/// or a backslash and otherwise asks to copy it to "songs/" and the name.
pub proof fn lemma_delete_and_import_steps(
    songs: Seq<Song>,
    pls: Seq<PlaylistView>,
    id: u32,
    file_name: Seq<char>,
    name: Seq<char>,
    artist: Seq<char>,
    genre: Seq<char>,
    year: u32,
)
    ensures
        ({
            let k = first_with_id(songs, id);
            let del = RequestView::DeleteSong { song_id: id };
            &&& step_songs(songs, del) == songs
            &&& step_playlists(songs, pls, del) == pls
            &&& k == songs.len() ==> step_action(songs, pls, del) == ActionView::Reply(
                ResponseView::Error { message: "Canción con ID "@ + decimal(id as nat) + " no encontrada"@ },
            )
            &&& k < songs.len() && songs[k].is_playing ==> step_action(songs, pls, del) == ActionView::Reply(
                ResponseView::Error { message: "No se puede eliminar una canción que se está reproduciendo"@ },
            )
            &&& k < songs.len() && !songs[k].is_playing ==> step_action(songs, pls, del) == (
            ActionView::RemoveSongFile { song_id: id, file_path: songs[k].file_path@ })
        }),
        ({
            let imp = RequestView::AddSongFromLibrary { file_name, name, artist, genre, year };
            &&& step_songs(songs, imp) == songs
            &&& step_playlists(songs, pls, imp) == pls
            &&& (file_name.contains('/') || file_name.contains('\\')) ==> step_action(songs, pls, imp)
                == ActionView::Reply(ResponseView::Error { message: "Nombre de archivo inválido"@ })
            &&& !(file_name.contains('/') || file_name.contains('\\')) ==> step_action(songs, pls, imp) == (
            ActionView::ImportFromLibrary {
                file_name,
                destination: "songs/"@ + file_name,
                name,
                artist,
                genre,
                year,
            })
        }),
{
    lemma_first_with_id_bounds(songs, id);
}

/// Adding a song to a playlist takes the first library song of that id:
/// for an unknown id nothing changes and the answer is the not-found error;
/// otherwise the playlists change as adding that song to the playlist does,
/// or not at all when that is refused, with its message as the answer.
pub proof fn lemma_add_to_playlist_step(songs: Seq<Song>, pls: Seq<PlaylistView>, pn: Seq<char>, id: u32)
    ensures
        ({
            let k = first_with_id(songs, id);
            let req = RequestView::AddToPlaylist { playlist_name: pn, song_id: id };
            &&& step_songs(songs, req) == songs
            &&& k == songs.len() ==> step_playlists(songs, pls, req) == pls && step_action(songs, pls, req)
                == ActionView::Reply(
                ResponseView::Error { message: "Canción "@ + decimal(id as nat) + " no encontrada"@ },
            )
            &&& k < songs.len() ==> songs[k].id == id && match changed(pls, pn, with_song(songs[k])) {
                Ok(v) => step_playlists(songs, pls, req) == v && step_action(songs, pls, req) is SavePlaylistsAndReply,
                Err(m) => step_playlists(songs, pls, req) == pls && step_action(songs, pls, req) == ActionView::Reply(
                    ResponseView::Error { message: m },
                ),
            }
        }),
{
    lemma_first_with_id_bounds(songs, id);
}

/// The requests that change the playlists make exactly the change of the
/// corresponding playlist operation, or none when it refuses. A change is
/// saved and answered (the names after creating or deleting, the changed
/// playlist otherwise); a refusal is answered with its message.
pub proof fn lemma_playlist_change_steps(songs: Seq<Song>, pls: Seq<PlaylistView>, req: RequestView)
    requires
        req is CreatePlaylist || req is DeletePlaylist || req is RemoveFromPlaylist || req is SortPlaylist,
    ensures
        step_songs(songs, req) == songs,
        ({
            let r = match req {
                RequestView::CreatePlaylist { name } => created(pls, name),
                RequestView::DeletePlaylist { name } => deleted(pls, name),
                RequestView::RemoveFromPlaylist { playlist_name, song_id } => changed(
                    pls,
                    playlist_name,
                    without_song(song_id),
                ),
                RequestView::SortPlaylist { playlist_name, by } => changed(pls, playlist_name, sorted_by_criterion(by)),
                _ => Err(Seq::empty()),
            };
            &&& step_playlists(songs, pls, req) == match r {
                Ok(v) => v,
                Err(_) => pls,
            }
            &&& r matches Err(m) ==> step_action(songs, pls, req) == ActionView::Reply(
                ResponseView::Error { message: m },
            )
            &&& r matches Ok(v) ==> step_action(songs, pls, req) is SavePlaylistsAndReply
            &&& (req is CreatePlaylist || req is DeletePlaylist) ==> (r matches Ok(v) ==> step_action(songs, pls, req)
                == ActionView::SavePlaylistsAndReply(
                ResponseView::PlaylistList { playlists: v.map_values(|p: PlaylistView| p.name) },
            ))
        }),
{
    match req {
        RequestView::CreatePlaylist { name } => {
            if let Ok(v) = created(pls, name) {
                assert(names_of(v) =~= v.map_values(|p: PlaylistView| p.name));
            }
        },
        RequestView::DeletePlaylist { name } => {
            if let Ok(v) = deleted(pls, name) {
                assert(names_of(v) =~= v.map_values(|p: PlaylistView| p.name));
            }
        },
        _ => {},
    }
}

/// Changing whether a song is playing keeps where the first song of each id
/// stands.
proof fn lemma_set_playing_keeps_position(songs: Seq<Song>, id: u32, playing: bool)
    ensures
        first_with_id(set_playing(songs, id, playing), id) == first_with_id(songs, id),
        set_playing(songs, id, playing).len() == songs.len(),
{
    lemma_first_with_id_bounds(songs, id);
    let k = first_with_id(songs, id);
    if k < songs.len() {
        let s1 = set_playing(songs, id, playing);
        assert forall|j: int| 0 <= j < k implies #[trigger] s1[j].id != id by {
            assert(s1[j] == songs[j]);
        }
        lemma_first_with_id(s1, id, k);
    }
}

/// Playing a song that is not playing and then stopping it leaves the
/// songs as they were; for an unknown id both requests change nothing.
pub proof fn lemma_play_then_stop(songs: Seq<Song>, id: u32)
    requires
        first_with_id(songs, id) < songs.len() ==> !songs[first_with_id(songs, id)].is_playing,
    ensures
        step_songs(step_songs(songs, RequestView::Play { song_id: id }), RequestView::Stop { song_id: id })
            == songs,
{
    lemma_first_with_id_bounds(songs, id);
    lemma_set_playing_keeps_position(songs, id, true);
    let s1 = set_playing(songs, id, true);
    let k = first_with_id(songs, id);
    if k < songs.len() {
        assert(s1[k] == with_playing(songs[k], true));
        assert(with_playing(s1[k], false) == songs[k]);
        assert(set_playing(s1, id, false) =~= songs);
    }
}

/// Stopping a song leaves it not playing, and a song that is not playing
/// can be deleted: the step asks for its file to be removed.
pub proof fn lemma_stop_then_delete(songs: Seq<Song>, pls: Seq<PlaylistView>, id: u32)
    requires
        first_with_id(songs, id) < songs.len(),
    ensures
        step_action(
            step_songs(songs, RequestView::Stop { song_id: id }),
            pls,
            RequestView::DeleteSong { song_id: id },
        ) == (ActionView::RemoveSongFile { song_id: id, file_path: songs[first_with_id(songs, id)].file_path@ }),
{
    lemma_first_with_id_bounds(songs, id);
    lemma_set_playing_keeps_position(songs, id, false);
    let k = first_with_id(songs, id);
    let s1 = set_playing(songs, id, false);
    assert(s1[k] == with_playing(songs[k], false));
}

/// After a song is deleted, no playlist holds a song of its id; the
/// playlists keep their names, their order and their other songs.
pub proof fn lemma_deletion_purges(pls: Seq<PlaylistView>, song_id: u32)
    ensures
        purged(pls, song_id).len() == pls.len(),
        forall|i: int| 0 <= i < pls.len() ==> (#[trigger] purged(pls, song_id)[i]).name == pls[i].name,
        forall|i: int, j: int|
            0 <= i < pls.len() && 0 <= j < purged(pls, song_id)[i].songs.len() ==> (
            #[trigger] purged(pls, song_id)[i].songs[j]).id != song_id,
        forall|i: int, j: int|
            0 <= i < pls.len() && 0 <= j < pls[i].songs.len() && (#[trigger] pls[i].songs[j]).id != song_id
                ==> purged(pls, song_id)[i].songs.contains(pls[i].songs[j]),
{
    broadcast use vstd::seq_lib::group_filter_ensures;

    assert forall|i: int, j: int|
        0 <= i < pls.len() && 0 <= j < purged(pls, song_id)[i].songs.len() implies (
        #[trigger] purged(pls, song_id)[i].songs[j]).id != song_id by {
        assert(purged(pls, song_id)[i].songs == without_id(pls[i].songs, song_id));
    }
    assert forall|i: int, j: int|
        0 <= i < pls.len() && 0 <= j < pls[i].songs.len() && (#[trigger] pls[i].songs[j]).id != song_id
            implies purged(pls, song_id)[i].songs.contains(pls[i].songs[j]) by {
        assert(purged(pls, song_id)[i].songs == without_id(pls[i].songs, song_id));
        assert(pls[i].songs.contains(pls[i].songs[j]));
    }
}

/// The extension of a file name, as `Path::extension` finds it: what
/// follows the last '.', unless there is none or the name begins with the
/// only one.
pub open spec fn extension(name: Seq<char>) -> Option<Seq<char>> {
    if exists|i: int| 0 < i < name.len() && name[i] == '.' {
        let i = choose|i: int|
            0 < i < name.len() && name[i] == '.' && forall|j: int| i < j < name.len() ==> name[j] != '.';
        Some(name.skip(i + 1))
    } else {
        None
    }
}

/// The name ends in ".mp3" in any ASCII case: its extension is "mp3".
pub open spec fn is_mp3(name: Seq<char>) -> bool {
    match extension(name) {
        Some(e) => e.len() == 3 && (e[0] == 'm' || e[0] == 'M') && (e[1] == 'p' || e[1] == 'P') && e[2] == '3',
        None => false,
    }
}

/// Whether the file name's extension is "mp3", in any ASCII case.
pub fn mp3_name(name: &str) -> (r: bool)
    ensures
        r == is_mp3(name@),
{
    let cs = chars_of(name);
    let n = cs.len();
    let mut i = n;
    while i > 0
        invariant
            cs@ == name@,
            n == cs@.len(),
            0 <= i <= n,
            forall|j: int| i <= j < n ==> cs@[j] != '.',
        ensures
            cs@ == name@,
            n == cs@.len(),
            0 <= i <= n,
            forall|j: int| i <= j < n ==> cs@[j] != '.',
            i > 0 ==> cs@[i - 1] == '.',
        decreases i,
    {
        if cs[i - 1] == '.' {
            break;
        }
        i = i - 1;
    }
    if i <= 1 {
        assert(!(exists|p: int| 0 < p < name@.len() && name@[p] == '.')) by {
            if exists|p: int| 0 < p < name@.len() && name@[p] == '.' {
                let p = choose|p: int| 0 < p < name@.len() && name@[p] == '.';
                assert(p >= i);
            }
        }
        return false;
    }
    let ghost d = i - 1;
    proof {
        assert(0 < d < name@.len() && name@[d] == '.');
        let c = choose|c: int|
            0 < c < name@.len() && name@[c] == '.' && forall|j: int| c < j < name@.len() ==> name@[j] != '.';
        assert(forall|j: int| d < j < name@.len() ==> name@[j] != '.');
        assert(c == d) by {
            if c < d {
                assert(name@[d] != '.');
            } else if c > d {
                assert(cs@[c] != '.');
            }
        }
        assert(extension(name@) == Some(name@.skip(i as int)));
    }
    if n - i != 3 {
        return false;
    }
    let e0 = cs[i];
    let e1 = cs[i + 1];
    let e2 = cs[i + 2];
    (e0 == 'm' || e0 == 'M') && (e1 == 'p' || e1 == 'P') && e2 == '3'
}

/// A file name is an MP3 name exactly when it ends in ".mp3", the letters
/// in either case, after at least one other character.
pub proof fn lemma_mp3_name_shape(n: Seq<char>)
    ensures
        is_mp3(n) <==> {
            &&& n.len() >= 5
            &&& n[n.len() - 4] == '.'
            &&& (n[n.len() - 3] == 'm' || n[n.len() - 3] == 'M')
            &&& (n[n.len() - 2] == 'p' || n[n.len() - 2] == 'P')
            &&& n[n.len() - 1] == '3'
        },
{
    let l = n.len() as int;
    if l >= 5 && n[l - 4] == '.' && (n[l - 3] == 'm' || n[l - 3] == 'M') && (n[l - 2] == 'p' || n[l - 2] == 'P')
        && n[l - 1] == '3' {
        assert(0 < l - 4 < l && n[l - 4] == '.');
        let i = choose|i: int|
            0 < i < n.len() && n[i] == '.' && forall|j: int| i < j < n.len() ==> n[j] != '.';
        assert(forall|j: int| l - 4 < j < l ==> n[j] != '.');
        assert(i == l - 4) by {
            if i < l - 4 {
                assert(n[l - 4] != '.');
            }
        }
        let e = n.skip(i + 1);
        assert(e.len() == 3 && e[0] == n[l - 3] && e[1] == n[l - 2] && e[2] == n[l - 1]);
    }
    if is_mp3(n) {
        assert(exists|i: int| 0 < i < n.len() && n[i] == '.');
        lemma_last_dot(n);
        let i = choose|i: int|
            0 < i < n.len() && n[i] == '.' && forall|j: int| i < j < n.len() ==> n[j] != '.';
        let e = n.skip(i + 1);
        assert(e.len() == 3);
        assert(i == l - 4);
        assert(e[0] == n[l - 3] && e[1] == n[l - 2] && e[2] == n[l - 1]);
    }
}

/// A name with a dot after its first character has a last such dot.
proof fn lemma_last_dot(n: Seq<char>)
    requires
        exists|i: int| 0 < i < n.len() && n[i] == '.',
    ensures
        exists|i: int| 0 < i < n.len() && n[i] == '.' && forall|j: int| i < j < n.len() ==> n[j] != '.',
    decreases n.len(),
{
    let t = n.drop_last();
    if n[n.len() - 1] == '.' && n.len() - 1 > 0 {
        assert(forall|j: int| n.len() - 1 < j < n.len() ==> n[j] != '.');
    } else {
        let k = choose|k: int| 0 < k < n.len() && n[k] == '.';
        assert(k < n.len() - 1);
        assert(t[k] == '.');
        lemma_last_dot(t);
        let i = choose|i: int| 0 < i < t.len() && t[i] == '.' && forall|j: int| i < j < t.len() ==> t[j] != '.';
        assert(n[i] == t[i]);
        assert forall|j: int| i < j < n.len() implies n[j] != '.' by {
            if j < t.len() {
                assert(n[j] == t[j]);
            }
        }
    }
}

/// The text order of file names.
pub open spec fn name_text_before() -> spec_fn(String, String) -> bool {
    |a: String, b: String| lex_lt(a@, b@)
}

fn text_before(a: &String, b: &String) -> (r: bool)
    ensures
        r == name_text_before()(*a, *b),
{
    str_less(a.as_str(), b.as_str())
}

/// The file names of the library that end in ".mp3", sorted.
pub open spec fn library_files(names: Seq<String>) -> Seq<Seq<char>> {
    texts(sort_by(names.filter(|n: String| is_mp3(n@)), name_text_before()))
}

/// The answer that lists the MP3 files of the library folder, given the
/// names of its regular files.
pub fn library_listing(names: Vec<String>) -> (r: Response)
    ensures
        r@ == (ResponseView::LibraryList { files: library_files(names@) }),
{
    let ghost all = names@;
    let mut kept: Vec<String> = Vec::new();
    let mut rest = names;
    let n = rest.len();
    let mut i: usize = 0;
    while i < n
        invariant
            n == all.len(),
            0 <= i <= n,
            rest@ == all.skip(i as int),
            kept@ == all.take(i as int).filter(|n: String| is_mp3(n@)),
        decreases n - i,
    {
        proof {
            reveal_with_fuel(Seq::filter, 1);
        }
        let name = rest.remove(0);
        assert(name == all[i as int]);
        assert(rest@ =~= all.skip(i + 1));
        assert(all.take(i + 1).drop_last() =~= all.take(i as int));
        if mp3_name(name.as_str()) {
            kept.push(name);
        }
        i = i + 1;
    }
    assert(all.take(n as int) =~= all);
    let sorted = sort_stable(kept, &text_before, Ghost(name_text_before()));
    Response::LibraryList { files: sorted }
}

/// The library listing gives the MP3 names among the file names, each
/// as many times as it occurs, in text order.
pub proof fn lemma_library_listing_law(names: Seq<String>)
    ensures
        forall|i: int, j: int|
            0 <= i < j < library_files(names).len() ==> !lex_lt(
                #[trigger] library_files(names)[j],
                #[trigger] library_files(names)[i],
            ),
        forall|i: int|
            0 <= i < library_files(names).len() ==> is_mp3(#[trigger] library_files(names)[i]) && texts(
                names,
            ).contains(library_files(names)[i]),
        forall|k: int| 0 <= k < names.len() && is_mp3((#[trigger] names[k])@) ==> library_files(names).contains(names[k]@),
        library_files(names).len() == names.filter(|n: String| is_mp3(n@)).len(),
{
    broadcast use vstd::seq_lib::group_filter_ensures;
    broadcast use vstd::seq_lib::group_to_multiset_ensures;

    let kept = names.filter(|n: String| is_mp3(n@));
    let sorted = sort_by(kept, name_text_before());
    let fs = library_files(names);
    assert(strict_weak_order(name_text_before())) by {
        assert forall|a: String| !#[trigger] name_text_before()(a, a) by {
            lemma_lex_irreflexive(a@);
        }
        assert forall|a: String, b: String, c: String|
            #[trigger] name_text_before()(a, b) && #[trigger] name_text_before()(b, c) implies name_text_before()(
            a,
            c,
        ) by {
            lemma_lex_transitive(a@, b@, c@);
        }
        assert forall|a: String, b: String, c: String|
            !#[trigger] name_text_before()(a, b) && !#[trigger] name_text_before()(b, c) implies !name_text_before()(
            a,
            c,
        ) by {
            lemma_lex_not_lt(a@, b@, c@);
        }
    }
    lemma_sort_by_sorted(kept, name_text_before());
    lemma_sort_by_permutes(kept, name_text_before());
    assert forall|i: int, j: int| 0 <= i < j < fs.len() implies !lex_lt(#[trigger] fs[j], #[trigger] fs[i]) by {
        assert(!name_text_before()(sorted[j], sorted[i]));
    }
    assert forall|i: int| 0 <= i < fs.len() implies is_mp3(#[trigger] fs[i]) && texts(names).contains(fs[i]) by {
        assert(sorted.to_multiset().count(sorted[i]) > 0);
        assert(kept.contains(sorted[i]));
        names.lemma_filter_contains_rev(|n: String| is_mp3(n@), sorted[i]);
        let k = choose|k: int| 0 <= k < names.len() && names[k] == sorted[i];
        assert(texts(names)[k] == fs[i]);
    }
    assert forall|k: int| 0 <= k < names.len() && is_mp3((#[trigger] names[k])@) implies fs.contains(names[k]@) by {
        names.filter_lemma(|n: String| is_mp3(n@));
        assert(kept.contains(names[k]));
        lemma_sort_by_contains(kept, name_text_before(), names[k]);
        let j = choose|j: int| 0 <= j < sorted.len() && sorted[j] == names[k];
        assert(fs[j] == names[k]@);
    }
}

/// Some song's file path is `path`, compared in lowercase.
pub open spec fn has_file(songs: Seq<Song>, path: Seq<char>) -> bool {
    exists|i: int| 0 <= i < songs.len() && lowercase(#[trigger] songs[i].file_path@) == lowercase(path)
}

/// Some song has this name and artist, compared in lowercase.
pub open spec fn has_song(songs: Seq<Song>, name: Seq<char>, artist: Seq<char>) -> bool {
    exists|i: int|
        0 <= i < songs.len() && lowercase(#[trigger] songs[i].name@) == lowercase(name) && lowercase(
            songs[i].artist@,
        ) == lowercase(artist)
}

/// Why importing a song is refused: its file or its name and artist are
/// taken already; `None` when it is not refused.
pub open spec fn library_refusal(songs: Seq<Song>, destination: Seq<char>, name: Seq<char>, artist: Seq<char>) -> Option<
    ResponseView,
> {
    if has_file(songs, destination) {
        Some(error_reply("La canción ya está registrada en canciones.json"@))
    } else if has_song(songs, name, artist) {
        Some(error_reply("Ya existe una canción con el mismo nombre y artista"@))
    } else {
        None
    }
}

/// What an optional answer holds.
pub open spec fn refusal_view(r: Option<Response>) -> Option<ResponseView> {
    match r {
        Some(resp) => Some(resp@),
        None => None,
    }
}

/// Whether the lowercase forms of `a` and `b` are the same text.
fn same_lower(a: &str, b: &str) -> (r: bool)
    ensures
        r == (lowercase(a@) == lowercase(b@)),
{
    let la = to_lower(a);
    let lb = to_lower(b);
    str_equal(la.as_str(), lb.as_str())
}

/// The song to import may not repeat a song of the library: not its file
/// (`destination`), nor its name together with its artist. `None` when it
/// may be registered, else the answer that refuses it.
pub fn check_library_song(songs: &[Song], destination: &str, name: &str, artist: &str) -> (r: Option<Response>)
    ensures
        refusal_view(r) == library_refusal(songs@, destination@, name@, artist@),
{
    let mut i: usize = 0;
    while i < songs.len()
        invariant
            0 <= i <= songs@.len(),
            forall|k: int| 0 <= k < i ==> lowercase(#[trigger] songs@[k].file_path@) != lowercase(destination@),
        decreases songs@.len() - i,
    {
        if same_lower(songs[i].file_path.as_str(), destination) {
            return Some(
                Response::Error { message: string_from("La canción ya está registrada en canciones.json") },
            );
        }
        i = i + 1;
    }
    let mut j: usize = 0;
    while j < songs.len()
        invariant
            0 <= j <= songs@.len(),
            !has_file(songs@, destination@),
            forall|k: int|
                0 <= k < j ==> !(lowercase(#[trigger] songs@[k].name@) == lowercase(name@) && lowercase(
                    songs@[k].artist@,
                ) == lowercase(artist@)),
        decreases songs@.len() - j,
    {
        if same_lower(songs[j].name.as_str(), name) && same_lower(songs[j].artist.as_str(), artist) {
            return Some(
                Response::Error { message: string_from("Ya existe una canción con el mismo nombre y artista") },
            );
        }
        j = j + 1;
    }
    None
}

/// The greatest id of the songs, or 0 when there are none.
pub open spec fn max_id(songs: Seq<Song>) -> u32
    decreases songs.len(),
{
    if songs.len() == 0 {
        0
    } else {
        let m = max_id(songs.drop_last());
        if songs.last().id > m {
            songs.last().id
        } else {
            m
        }
    }
}

/// `max_id` is an id of the songs (or 0) and no id exceeds it.
pub proof fn lemma_max_id(songs: Seq<Song>)
    ensures
        forall|i: int| 0 <= i < songs.len() ==> #[trigger] songs[i].id <= max_id(songs),
        songs.len() == 0 || exists|i: int| 0 <= i < songs.len() && #[trigger] songs[i].id == max_id(songs),
    decreases songs.len(),
{
    if songs.len() > 0 {
        let t = songs.drop_last();
        lemma_max_id(t);
        assert forall|i: int| 0 <= i < songs.len() implies #[trigger] songs[i].id <= max_id(songs) by {
            if i < t.len() {
                assert(songs[i] == t[i]);
            }
        }
        if songs.last().id > max_id(t) || t.len() == 0 {
            assert(songs[songs.len() - 1].id == songs.last().id);
        } else {
            let k = choose|k: int| 0 <= k < t.len() && #[trigger] t[k].id == max_id(t);
            assert(songs[k] == t[k]);
        }
    }
}

/// The song that importing registers.
pub open spec fn imported_song(
    songs: Seq<Song>,
    name: Seq<char>,
    artist: Seq<char>,
    genre: Seq<char>,
    year: u32,
    file_path: Seq<char>,
    s: Song,
) -> bool {
    &&& s.id == max_id(songs) + 1
    &&& s.name@ == name
    &&& s.artist@ == artist
    &&& s.genre@ == genre
    &&& s.year == year
    &&& s.file_path@ == file_path
    &&& !s.is_playing
}

/// Registers the imported file as a new song whose id is one more than the
/// greatest id, and answers it.
pub fn register_library_song(
    songs: &mut Vec<Song>,
    name: String,
    artist: String,
    genre: String,
    year: u32,
    file_path: String,
) -> (r: Response)
    requires
        max_id(old(songs)@) < u32::MAX,
    ensures
        exists|s: Song|
            {
                &&& imported_song(old(songs)@, name@, artist@, genre@, year, file_path@, s)
                &&& final(songs)@ == old(songs)@.push(s)
                &&& r@ == (ResponseView::SongList { songs: seq![s] })
            },
{
    let mut max: u32 = 0;
    for i in 0..songs.len()
        invariant
            max == max_id(songs@.take(i as int)),
    {
        assert(songs@.take(i + 1).drop_last() =~= songs@.take(i as int));
        if songs[i].id > max {
            max = songs[i].id;
        }
    }
    assert(songs@.take(songs@.len() as int) =~= songs@);
    let song = Song { id: max + 1, name, artist, genre, year, file_path, is_playing: false };
    songs.push(song.clone());
    let mut answer: Vec<Song> = Vec::new();
    answer.push(song);
    assert(answer@ =~= seq![song]);
    Response::SongList { songs: answer }
}

} // verus!
