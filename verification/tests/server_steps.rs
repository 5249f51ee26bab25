use spoticry::decoder::{AudioInfo, DecodedAudio};
use spoticry::playlist::Playlist;
use spoticry::playlist_service::create;
use spoticry::protocol::{Request, Response};
use spoticry::server::{
    audio_start, check_library_song, finish_song_deletion, handle_request, library_listing, playback_failed,
    position_of_id, register_library_song, try_handle_request, Action,
};
use spoticry::song::Song;

fn srv_song(id: u32, name: &str, artist: &str, playing: bool) -> Song {
    Song {
        id,
        name: name.to_string(),
        artist: artist.to_string(),
        genre: "Rock".to_string(),
        year: 2000 + id,
        file_path: format!("songs/{}.mp3", name),
        is_playing: playing,
    }
}

fn srv_library() -> Vec<Song> {
    vec![srv_song(1, "Uno", "Ana", false), srv_song(2, "Dos", "Beto", false), srv_song(3, "Tres", "Ana", true)]
}

fn reply_of(a: Action) -> Response {
    match a {
        Action::Reply(r) => r,
        _ => panic!("expected a reply"),
    }
}

fn saved_reply_of(a: Action) -> Response {
    match a {
        Action::SavePlaylistsAndReply(r) => r,
        _ => panic!("expected a save and a reply"),
    }
}

fn error_of(r: Response) -> String {
    match r {
        Response::Error { message } => message,
        _ => panic!("expected an error"),
    }
}

fn song_ids_of(r: Response) -> Vec<u32> {
    match r {
        Response::SongList { songs } => songs.iter().map(|s| s.id).collect(),
        _ => panic!("expected songs"),
    }
}

fn names_of(r: Response) -> Vec<String> {
    match r {
        Response::PlaylistList { playlists } => playlists,
        _ => panic!("expected playlist names"),
    }
}

fn playlist_of(r: Response) -> Playlist {
    match r {
        Response::PlaylistOk { playlist } => playlist,
        _ => panic!("expected a playlist"),
    }
}

#[test]
fn list_songs_request_answers_all_songs() {
    let mut songs = srv_library();
    let mut pls: Vec<Playlist> = Vec::new();
    let r = reply_of(handle_request(&mut songs, &mut pls, Request::ListSongs));
    assert_eq!(song_ids_of(r), vec![1, 2, 3]);
}

#[test]
fn search_requests_answer_songs() {
    let mut songs = srv_library();
    let mut pls: Vec<Playlist> = Vec::new();
    let r = reply_of(handle_request(&mut songs, &mut pls, Request::SearchByName { query: "dos".to_string() }));
    assert_eq!(song_ids_of(r), vec![2]);
    let r = reply_of(handle_request(&mut songs, &mut pls, Request::SearchByYearRange { from: 2003, to: 2001 }));
    assert_eq!(song_ids_of(r), vec![1, 2, 3]);
    let r = reply_of(handle_request(&mut songs, &mut pls, Request::SearchByGenre { query: "jazz".to_string() }));
    assert!(song_ids_of(r).is_empty());
}

#[test]
fn play_marks_the_song_and_streams_it() {
    let mut songs = srv_library();
    let mut pls: Vec<Playlist> = Vec::new();
    match handle_request(&mut songs, &mut pls, Request::Play { song_id: 2 }) {
        Action::Stream { song_id, file_path } => {
            assert_eq!(song_id, 2);
            assert_eq!(file_path, "songs/Dos.mp3");
        }
        _ => panic!("expected a stream"),
    }
    assert!(songs[1].is_playing);
}

#[test]
fn play_unknown_song_is_refused() {
    let mut songs = srv_library();
    let mut pls: Vec<Playlist> = Vec::new();
    let r = reply_of(handle_request(&mut songs, &mut pls, Request::Play { song_id: 40 }));
    assert_eq!(error_of(r), "Canción con ID 40 no encontrada");
}

#[test]
fn stop_answers_the_stopped_song() {
    let mut songs = srv_library();
    let mut pls: Vec<Playlist> = Vec::new();
    let r = reply_of(handle_request(&mut songs, &mut pls, Request::Stop { song_id: 3 }));
    assert_eq!(song_ids_of(r), vec![3]);
    assert!(!songs[2].is_playing);
    let r = reply_of(handle_request(&mut songs, &mut pls, Request::Stop { song_id: 8 }));
    assert_eq!(error_of(r), "Canción 8 no encontrada");
}

#[test]
fn play_then_stop_restores_the_songs() {
    let mut songs = srv_library();
    let mut pls: Vec<Playlist> = Vec::new();
    let _ = handle_request(&mut songs, &mut pls, Request::Play { song_id: 1 });
    let _ = handle_request(&mut songs, &mut pls, Request::Stop { song_id: 1 });
    let playing: Vec<bool> = songs.iter().map(|s| s.is_playing).collect();
    assert_eq!(playing, vec![false, false, true]);
}

#[test]
fn delete_song_request_checks_first() {
    let mut songs = srv_library();
    let mut pls: Vec<Playlist> = Vec::new();
    let r = reply_of(handle_request(&mut songs, &mut pls, Request::DeleteSong { song_id: 3 }));
    assert_eq!(error_of(r), "No se puede eliminar una canción que se está reproduciendo");
    let r = reply_of(handle_request(&mut songs, &mut pls, Request::DeleteSong { song_id: 30 }));
    assert_eq!(error_of(r), "Canción con ID 30 no encontrada");
    match handle_request(&mut songs, &mut pls, Request::DeleteSong { song_id: 1 }) {
        Action::RemoveSongFile { song_id, file_path } => {
            assert_eq!(song_id, 1);
            assert_eq!(file_path, "songs/Uno.mp3");
        }
        _ => panic!("expected a file removal"),
    }
    assert_eq!(songs.len(), 3);
}

#[test]
fn finish_deletion_purges_playlists() {
    let mut songs = srv_library();
    let mut pls: Vec<Playlist> = Vec::new();
    let _ = handle_request(&mut songs, &mut pls, Request::CreatePlaylist { name: "p".to_string() });
    let _ = handle_request(&mut songs, &mut pls, Request::AddToPlaylist { playlist_name: "p".to_string(), song_id: 1 });
    let _ = handle_request(&mut songs, &mut pls, Request::AddToPlaylist { playlist_name: "p".to_string(), song_id: 2 });
    let r = finish_song_deletion(&mut songs, &mut pls, 1);
    match r {
        Response::PlaylistInfo { info } => assert_eq!(info, "Canción eliminada correctamente: Uno"),
        _ => panic!("expected info"),
    }
    assert_eq!(songs.iter().map(|s| s.id).collect::<Vec<u32>>(), vec![2, 3]);
    assert_eq!(pls[0].songs.iter().map(|s| s.id).collect::<Vec<u32>>(), vec![2]);
}

#[test]
fn library_requests_ask_for_file_work() {
    let mut songs = srv_library();
    let mut pls: Vec<Playlist> = Vec::new();
    assert!(matches!(handle_request(&mut songs, &mut pls, Request::ListLibrarySongs), Action::ListLibrary));
    let req = Request::AddSongFromLibrary {
        file_name: "nuevo.mp3".to_string(),
        name: "Nuevo".to_string(),
        artist: "Cata".to_string(),
        genre: "Pop".to_string(),
        year: 2020,
    };
    match handle_request(&mut songs, &mut pls, req) {
        Action::ImportFromLibrary { file_name, destination, name, artist, genre, year } => {
            assert_eq!(file_name, "nuevo.mp3");
            assert_eq!(destination, "songs/nuevo.mp3");
            assert_eq!(name, "Nuevo");
            assert_eq!(artist, "Cata");
            assert_eq!(genre, "Pop");
            assert_eq!(year, 2020);
        }
        _ => panic!("expected an import"),
    }
}

#[test]
fn import_with_a_path_is_refused() {
    let mut songs = srv_library();
    let mut pls: Vec<Playlist> = Vec::new();
    for bad in ["a/b.mp3", "a\\b.mp3"] {
        let req = Request::AddSongFromLibrary {
            file_name: bad.to_string(),
            name: "n".to_string(),
            artist: "a".to_string(),
            genre: "g".to_string(),
            year: 1,
        };
        let r = reply_of(handle_request(&mut songs, &mut pls, req));
        assert_eq!(error_of(r), "Nombre de archivo inválido");
    }
}

#[test]
fn playlist_requests_change_and_answer() {
    let mut songs = srv_library();
    let mut pls: Vec<Playlist> = Vec::new();
    let r = saved_reply_of(handle_request(&mut songs, &mut pls, Request::CreatePlaylist { name: "a".to_string() }));
    assert_eq!(names_of(r), vec!["a"]);
    let r = reply_of(handle_request(&mut songs, &mut pls, Request::CreatePlaylist { name: "a".to_string() }));
    assert_eq!(error_of(r), "Ya existe una playlist llamada 'a'");
    let r = reply_of(handle_request(&mut songs, &mut pls, Request::ListPlaylists));
    assert_eq!(names_of(r), vec!["a"]);
    let req = Request::AddToPlaylist { playlist_name: "a".to_string(), song_id: 2 };
    let p = playlist_of(saved_reply_of(handle_request(&mut songs, &mut pls, req)));
    assert_eq!(p.songs.iter().map(|s| s.id).collect::<Vec<u32>>(), vec![2]);
    let req = Request::AddToPlaylist { playlist_name: "a".to_string(), song_id: 99 };
    assert_eq!(error_of(reply_of(handle_request(&mut songs, &mut pls, req))), "Canción 99 no encontrada");
    let req = Request::AddToPlaylist { playlist_name: "b".to_string(), song_id: 1 };
    assert_eq!(error_of(reply_of(handle_request(&mut songs, &mut pls, req))), "Playlist 'b' no encontrada");
    let req = Request::GetPlaylist { playlist_name: "a".to_string() };
    assert_eq!(playlist_of(reply_of(handle_request(&mut songs, &mut pls, req))).name, "a");
    let req = Request::SummarizePlaylist { playlist_name: "a".to_string() };
    match reply_of(handle_request(&mut songs, &mut pls, req)) {
        Response::PlaylistInfo { info } => assert_eq!(info, "Playlist 'a': 1 canciones, 1 artistas únicos"),
        _ => panic!("expected info"),
    }
    let req = Request::RemoveFromPlaylist { playlist_name: "a".to_string(), song_id: 2 };
    assert!(playlist_of(saved_reply_of(handle_request(&mut songs, &mut pls, req))).songs.is_empty());
    let r = saved_reply_of(handle_request(&mut songs, &mut pls, Request::DeletePlaylist { name: "a".to_string() }));
    assert!(names_of(r).is_empty());
    assert!(pls.is_empty());
}

#[test]
fn filter_and_sort_requests() {
    let mut songs = srv_library();
    let mut pls = create(&[], "m").unwrap();
    for id in [3, 1, 2] {
        let req = Request::AddToPlaylist { playlist_name: "m".to_string(), song_id: id };
        let _ = handle_request(&mut songs, &mut pls, req);
    }
    let req = Request::FilterPlaylist {
        playlist_name: "m".to_string(),
        field: "artist".to_string(),
        query: "ANA".to_string(),
    };
    let p = playlist_of(reply_of(handle_request(&mut songs, &mut pls, req)));
    assert_eq!(p.songs.iter().map(|s| s.id).collect::<Vec<u32>>(), vec![3, 1]);
    let req = Request::SortPlaylist { playlist_name: "m".to_string(), by: "year".to_string() };
    let p = playlist_of(saved_reply_of(handle_request(&mut songs, &mut pls, req)));
    assert_eq!(p.songs.iter().map(|s| s.id).collect::<Vec<u32>>(), vec![1, 2, 3]);
    let req = Request::FilterPlaylist {
        playlist_name: "m".to_string(),
        field: "x".to_string(),
        query: "y".to_string(),
    };
    let msg = error_of(reply_of(handle_request(&mut songs, &mut pls, req)));
    assert_eq!(msg, "Campo 'x' no válido. Usa: name, artist, genre, year");
}

#[test]
fn try_handle_request_handles_ordinary_requests() {
    let mut songs = srv_library();
    let mut pls: Vec<Playlist> = Vec::new();
    let a = try_handle_request(&mut songs, &mut pls, Request::SearchByName { query: "uno".to_string() });
    assert_eq!(song_ids_of(reply_of(a.unwrap())), vec![1]);
    let a = try_handle_request(&mut songs, &mut pls, Request::SummarizePlaylist { playlist_name: "z".to_string() });
    assert_eq!(error_of(reply_of(a.unwrap())), "Playlist 'z' no encontrada");
}

#[test]
fn playback_failure_stops_the_song() {
    let mut songs = srv_library();
    songs[0].is_playing = true;
    let r = playback_failed(&mut songs, 1, "Formato no reconocido".to_string());
    assert_eq!(error_of(r), "Formato no reconocido");
    assert!(!songs[0].is_playing);
}

#[test]
fn audio_start_announces_the_stream() {
    let audio = DecodedAudio { info: AudioInfo { sample_rate: 48000, channels: 1, bits: 16 }, samples: vec![0; 10] };
    match audio_start(&audio) {
        Response::AudioStart { sample_rate, channels, bits, total_bytes } => {
            assert_eq!((sample_rate, channels, bits, total_bytes), (48000, 1, 16, 10));
        }
        _ => panic!("expected a header"),
    }
}

#[test]
fn library_listing_keeps_sorted_mp3_names() {
    let names = vec![
        "b.mp3".to_string(),
        "A.MP3".to_string(),
        "notes.txt".to_string(),
        ".mp3".to_string(),
        "b.mp3.txt".to_string(),
        "a.Mp3".to_string(),
        "noext".to_string(),
        "x.tar.mp3".to_string(),
    ];
    match library_listing(names) {
        Response::LibraryList { files } => assert_eq!(files, vec!["A.MP3", "a.Mp3", "b.mp3", "x.tar.mp3"]),
        _ => panic!("expected a listing"),
    }
}

#[test]
fn check_library_song_refusals() {
    let songs = srv_library();
    let r = check_library_song(&songs, "SONGS/UNO.MP3", "x", "y").unwrap();
    assert_eq!(error_of(r), "La canción ya está registrada en canciones.json");
    let r = check_library_song(&songs, "songs/otro.mp3", "uno", "ANA").unwrap();
    assert_eq!(error_of(r), "Ya existe una canción con el mismo nombre y artista");
    assert!(check_library_song(&songs, "songs/otro.mp3", "uno", "Beto").is_none());
}

#[test]
fn register_library_song_takes_the_next_id() {
    let mut songs = vec![srv_song(4, "a", "b", false), srv_song(9, "c", "d", false), srv_song(2, "e", "f", false)];
    let r = register_library_song(
        &mut songs,
        "Nueva".to_string(),
        "Art".to_string(),
        "Pop".to_string(),
        1999,
        "songs/n.mp3".to_string(),
    );
    assert_eq!(song_ids_of(r), vec![10]);
    let last = &songs[3];
    assert_eq!((last.id, last.name.as_str(), last.year, last.is_playing), (10, "Nueva", 1999, false));
    assert_eq!(last.file_path, "songs/n.mp3");
    let mut empty: Vec<Song> = Vec::new();
    let r = register_library_song(&mut empty, "a".to_string(), "b".to_string(), "c".to_string(), 1, "p".to_string());
    assert_eq!(song_ids_of(r), vec![1]);
}

#[test]
fn position_of_id_finds_first() {
    let mut songs = srv_library();
    songs.push(srv_song(2, "Otra", "X", false));
    assert_eq!(position_of_id(&songs, 2), 1);
    assert_eq!(position_of_id(&songs, 50), 4);
}

#[test]
fn stopped_song_can_be_deleted() {
    let mut songs = srv_library();
    let mut pls: Vec<Playlist> = Vec::new();
    let _ = handle_request(&mut songs, &mut pls, Request::Stop { song_id: 3 });
    match handle_request(&mut songs, &mut pls, Request::DeleteSong { song_id: 3 }) {
        Action::RemoveSongFile { song_id, file_path } => {
            assert_eq!(song_id, 3);
            assert_eq!(file_path, "songs/Tres.mp3");
        }
        _ => panic!("expected a file removal"),
    }
}

#[test]
fn mp3_names_by_extension() {
    assert!(spoticry::server::mp3_name("a.MP3"));
    assert!(spoticry::server::mp3_name("x.tar.mp3"));
    assert!(!spoticry::server::mp3_name(".mp3"));
    assert!(!spoticry::server::mp3_name("a.mp3.txt"));
    assert!(!spoticry::server::mp3_name("mp3"));
}
