use spoticry::decoder::{append_pcm, audio_info, first_audio_track, next_packet_step, PacketRead, PacketStep};
use spoticry::id_generator::{new_id_generator, next_id, IdGenerator};
use spoticry::playlist::Playlist;
use spoticry::song::Song;
use spoticry::storage::{
    playlist_entries, playlists_from_entries, song_entries, songs_from_entries, with_forward_slashes, PlaylistEntry,
    SongEntry,
};
use spoticry::text::{
    decimal_string, has_char, is_alnum, lower_less, parse_u32, str_equal, str_less, to_lower, trim,
};

fn stored(name: &str, path: &str) -> SongEntry {
    SongEntry {
        name: name.to_string(),
        artist: "art".to_string(),
        genre: "gen".to_string(),
        year: 1990,
        file_path: path.to_string(),
    }
}

#[test]
fn ids_count_up_from_one() {
    let mut g = new_id_generator();
    assert_eq!(g.current, 0);
    assert_eq!(next_id(&mut g), 1);
    assert_eq!(next_id(&mut g), 2);
    assert_eq!(g.current, 2);
}

#[test]
fn loading_songs_hands_out_ids_and_fixes_paths() {
    let mut g = IdGenerator { current: 5 };
    let songs = songs_from_entries(vec![stored("a", "songs\\a.mp3"), stored("b", "songs/b.mp3")], &mut g);
    assert_eq!(g.current, 7);
    assert_eq!(songs.iter().map(|s| s.id).collect::<Vec<u32>>(), vec![6, 7]);
    assert_eq!(songs[0].file_path, "songs/a.mp3");
    assert_eq!(songs[1].name, "b");
    assert!(!songs[0].is_playing && !songs[1].is_playing);
}

#[test]
fn storing_songs_keeps_everything_but_id_and_state() {
    let s = Song {
        id: 9,
        name: "n".to_string(),
        artist: "a".to_string(),
        genre: "g".to_string(),
        year: 2011,
        file_path: "songs/n.mp3".to_string(),
        is_playing: true,
    };
    let es = song_entries(&[s]);
    assert_eq!(es.len(), 1);
    assert_eq!(
        (es[0].name.as_str(), es[0].artist.as_str(), es[0].genre.as_str(), es[0].year, es[0].file_path.as_str()),
        ("n", "a", "g", 2011, "songs/n.mp3")
    );
}

#[test]
fn songs_survive_a_save_and_load() {
    let mut g = new_id_generator();
    let songs = songs_from_entries(vec![stored("a", "x/a.mp3"), stored("b", "x\\b.mp3")], &mut g);
    let mut g2 = new_id_generator();
    let again = songs_from_entries(song_entries(&songs), &mut g2);
    assert_eq!(again.iter().map(|s| s.id).collect::<Vec<u32>>(), vec![1, 2]);
    assert_eq!(again[1].file_path, "x/b.mp3");
    assert_eq!(again[0].name, songs[0].name);
}

#[test]
fn playlists_are_stored_by_ids_and_rebuilt() {
    let mut g = new_id_generator();
    let songs = songs_from_entries(vec![stored("a", "a"), stored("b", "b"), stored("c", "c")], &mut g);
    let pl = Playlist { name: "p".to_string(), songs: vec![songs[2].clone(), songs[0].clone()] };
    let entries = playlist_entries(&[pl]);
    assert_eq!(entries[0].name, "p");
    assert_eq!(entries[0].song_ids, vec![3, 1]);
    let rebuilt = playlists_from_entries(entries, &songs);
    assert_eq!(rebuilt[0].name, "p");
    assert_eq!(rebuilt[0].songs.iter().map(|s| s.name.as_str()).collect::<Vec<&str>>(), vec!["c", "a"]);
}

#[test]
fn unknown_ids_are_dropped_when_rebuilding() {
    let mut g = new_id_generator();
    let songs = songs_from_entries(vec![stored("a", "a")], &mut g);
    let entries = vec![PlaylistEntry { name: "q".to_string(), song_ids: vec![4, 1, 1] }];
    let rebuilt = playlists_from_entries(entries, &songs);
    assert_eq!(rebuilt[0].songs.iter().map(|s| s.id).collect::<Vec<u32>>(), vec![1, 1]);
}

#[test]
fn forward_slashes_replace_backslashes() {
    assert_eq!(with_forward_slashes("a\\b\\c.mp3"), "a/b/c.mp3");
    assert_eq!(with_forward_slashes(""), "");
}

#[test]
fn decimal_strings() {
    assert_eq!(decimal_string(0), "0");
    assert_eq!(decimal_string(7), "7");
    assert_eq!(decimal_string(1204), "1204");
    assert_eq!(decimal_string(u64::MAX), "18446744073709551615");
}

#[test]
fn parse_u32_like_std() {
    assert_eq!(parse_u32("2001"), Some(2001));
    assert_eq!(parse_u32("+5"), Some(5));
    assert_eq!(parse_u32("007"), Some(7));
    assert_eq!(parse_u32("4294967295"), Some(4294967295));
    assert_eq!(parse_u32("4294967296"), None);
    assert_eq!(parse_u32("-1"), None);
    assert_eq!(parse_u32(""), None);
    assert_eq!(parse_u32("+"), None);
    assert_eq!(parse_u32(" 1"), None);
    assert_eq!(parse_u32("1a"), None);
}

#[test]
fn text_helpers() {
    assert_eq!(to_lower("ÁbC"), "ábc");
    assert_eq!(trim("  a b \n"), "a b");
    assert_eq!(trim("\u{3000}\u{a0}x\u{2028}\t"), "x");
    assert_eq!(trim("\u{200b}x"), "\u{200b}x");
    assert_eq!(trim(" \r\n "), "");
    assert_eq!(trim(""), "");
    assert_eq!(to_lower(""), "");
    assert!(is_alnum('ñ') && is_alnum('7') && !is_alnum('-'));
    assert!(has_char("a/b", '/') && !has_char("ab", '/'));
    assert!(str_equal("x", "x") && !str_equal("x", "X"));
    assert!(str_less("B", "a") && !str_less("a", "a") && str_less("ab", "abc"));
    assert!(lower_less("a", "B") && !lower_less("B", "a"));
}

#[test]
fn stream_parameters_default() {
    let i = audio_info(None, None);
    assert_eq!((i.sample_rate, i.channels, i.bits), (44100, 2, 16));
    let i = audio_info(Some(22050), Some(1));
    assert_eq!((i.sample_rate, i.channels, i.bits), (22050, 1, 16));
}

#[test]
fn first_track_with_a_codec() {
    assert_eq!(first_audio_track(&[true, false, false]), Some(1));
    assert_eq!(first_audio_track(&[true, true]), None);
    assert_eq!(first_audio_track(&[]), None);
}

#[test]
fn packet_steps() {
    assert!(matches!(next_packet_step(3, PacketRead::Packet { track_id: 3 }), PacketStep::Decode));
    assert!(matches!(next_packet_step(3, PacketRead::Packet { track_id: 4 }), PacketStep::Skip));
    assert!(matches!(next_packet_step(3, PacketRead::EndOfStream), PacketStep::Finish));
    assert!(matches!(next_packet_step(3, PacketRead::ResetRequired), PacketStep::Finish));
    match next_packet_step(3, PacketRead::Failed { message: "malo".to_string() }) {
        PacketStep::Fail(m) => assert_eq!(m, "Error leyendo paquete: malo"),
        _ => panic!("expected a failure"),
    }
}

#[test]
fn pcm_is_little_endian_sixteen_bit() {
    let mut out = vec![9u8];
    append_pcm(&mut out, &[1, -1, 0x1234, i16::MIN]);
    assert_eq!(out, vec![9, 1, 0, 0xff, 0xff, 0x34, 0x12, 0x00, 0x80]);
    for s in [0i16, 1, -1, 300, -300, i16::MAX, i16::MIN] {
        let mut b = Vec::new();
        append_pcm(&mut b, &[s]);
        assert_eq!(b, s.to_le_bytes().to_vec());
    }
}

#[test]
fn successive_ids_are_one_to_n() {
    let mut g = new_id_generator();
    let got: Vec<u32> = (0..6).map(|_| next_id(&mut g)).collect();
    assert_eq!(got, vec![1, 2, 3, 4, 5, 6]);
    assert_eq!(g.current, 6);
}
