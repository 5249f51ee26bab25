//! The messages of the streaming server: what a client asks and what the
//! server answers.

use vstd::prelude::*;
use crate::song::Song;
use crate::playlist::{Playlist, PlaylistView};
use crate::text::texts;

verus! {

/// A request of a client.
pub enum Request {
    ListSongs,
    SearchByName { query: String },
    SearchByYearRange { from: u32, to: u32 },
    SearchByGenre { query: String },
    Play { song_id: u32 },
    Stop { song_id: u32 },
    DeleteSong { song_id: u32 },
    ListLibrarySongs,
    AddSongFromLibrary { file_name: String, name: String, artist: String, genre: String, year: u32 },
    CreatePlaylist { name: String },
    ListPlaylists,
    AddToPlaylist { playlist_name: String, song_id: u32 },
    RemoveFromPlaylist { playlist_name: String, song_id: u32 },
    GetPlaylist { playlist_name: String },
    FilterPlaylist { playlist_name: String, field: String, query: String },
    SortPlaylist { playlist_name: String, by: String },
    SummarizePlaylist { playlist_name: String },
    DeletePlaylist { name: String },
}

/// What a request asks, its texts as character sequences.
pub enum RequestView {
    ListSongs,
    SearchByName { query: Seq<char> },
    SearchByYearRange { from: u32, to: u32 },
    SearchByGenre { query: Seq<char> },
    Play { song_id: u32 },
    Stop { song_id: u32 },
    DeleteSong { song_id: u32 },
    ListLibrarySongs,
    AddSongFromLibrary { file_name: Seq<char>, name: Seq<char>, artist: Seq<char>, genre: Seq<char>, year: u32 },
    CreatePlaylist { name: Seq<char> },
    ListPlaylists,
    AddToPlaylist { playlist_name: Seq<char>, song_id: u32 },
    RemoveFromPlaylist { playlist_name: Seq<char>, song_id: u32 },
    GetPlaylist { playlist_name: Seq<char> },
    FilterPlaylist { playlist_name: Seq<char>, field: Seq<char>, query: Seq<char> },
    SortPlaylist { playlist_name: Seq<char>, by: Seq<char> },
    SummarizePlaylist { playlist_name: Seq<char> },
    DeletePlaylist { name: Seq<char> },
}

impl View for Request {
    type V = RequestView;

    open spec fn view(&self) -> RequestView {
        match self {
            Request::ListSongs => RequestView::ListSongs,
            Request::SearchByName { query } => RequestView::SearchByName { query: query@ },
            Request::SearchByYearRange { from, to } => RequestView::SearchByYearRange { from: *from, to: *to },
            Request::SearchByGenre { query } => RequestView::SearchByGenre { query: query@ },
            Request::Play { song_id } => RequestView::Play { song_id: *song_id },
            Request::Stop { song_id } => RequestView::Stop { song_id: *song_id },
            Request::DeleteSong { song_id } => RequestView::DeleteSong { song_id: *song_id },
            Request::ListLibrarySongs => RequestView::ListLibrarySongs,
            Request::AddSongFromLibrary { file_name, name, artist, genre, year } => RequestView::AddSongFromLibrary {
                file_name: file_name@,
                name: name@,
                artist: artist@,
                genre: genre@,
                year: *year,
            },
            Request::CreatePlaylist { name } => RequestView::CreatePlaylist { name: name@ },
            Request::ListPlaylists => RequestView::ListPlaylists,
            Request::AddToPlaylist { playlist_name, song_id } => RequestView::AddToPlaylist {
                playlist_name: playlist_name@,
                song_id: *song_id,
            },
            Request::RemoveFromPlaylist { playlist_name, song_id } => RequestView::RemoveFromPlaylist {
                playlist_name: playlist_name@,
                song_id: *song_id,
            },
            Request::GetPlaylist { playlist_name } => RequestView::GetPlaylist { playlist_name: playlist_name@ },
            Request::FilterPlaylist { playlist_name, field, query } => RequestView::FilterPlaylist {
                playlist_name: playlist_name@,
                field: field@,
                query: query@,
            },
            Request::SortPlaylist { playlist_name, by } => RequestView::SortPlaylist {
                playlist_name: playlist_name@,
                by: by@,
            },
            Request::SummarizePlaylist { playlist_name } => RequestView::SummarizePlaylist {
                playlist_name: playlist_name@,
            },
            Request::DeletePlaylist { name } => RequestView::DeletePlaylist { name: name@ },
        }
    }
}

/// An answer of the server. `SongList` is the answer that carries songs
/// (its tag on the wire is "Ok").
pub enum Response {
    SongList { songs: Vec<Song> },
    Error { message: String },
    AudioStart { sample_rate: u32, channels: u32, bits: u32, total_bytes: usize },
    AudioEnd,
    PlaylistOk { playlist: Playlist },
    PlaylistList { playlists: Vec<String> },
    PlaylistInfo { info: String },
    LibraryList { files: Vec<String> },
}

/// What an answer holds, its texts as character sequences.
pub enum ResponseView {
    SongList { songs: Seq<Song> },
    Error { message: Seq<char> },
    AudioStart { sample_rate: u32, channels: u32, bits: u32, total_bytes: usize },
    AudioEnd,
    PlaylistOk { playlist: PlaylistView },
    PlaylistList { playlists: Seq<Seq<char>> },
    PlaylistInfo { info: Seq<char> },
    LibraryList { files: Seq<Seq<char>> },
}

impl View for Response {
    type V = ResponseView;

    open spec fn view(&self) -> ResponseView {
        match self {
            Response::SongList { songs } => ResponseView::SongList { songs: songs@ },
            Response::Error { message } => ResponseView::Error { message: message@ },
            Response::AudioStart { sample_rate, channels, bits, total_bytes } => ResponseView::AudioStart {
                sample_rate: *sample_rate,
                channels: *channels,
                bits: *bits,
                total_bytes: *total_bytes,
            },
            Response::AudioEnd => ResponseView::AudioEnd,
            Response::PlaylistOk { playlist } => ResponseView::PlaylistOk { playlist: playlist@ },
            Response::PlaylistList { playlists } => ResponseView::PlaylistList { playlists: texts(playlists@) },
            Response::PlaylistInfo { info } => ResponseView::PlaylistInfo { info: info@ },
            Response::LibraryList { files } => ResponseView::LibraryList { files: texts(files@) },
        }
    }
}

} // verus!
