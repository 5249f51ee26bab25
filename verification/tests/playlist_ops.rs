use spoticry::playlist::{
    add_song_to_playlist, create_playlist, filter_playlist, get_song_names, remove_song_from_playlist,
    sort_by_name, sort_by_year, summarize_playlist, Playlist,
};
use spoticry::song::Song;

fn track(id: u32, name: &str, artist: &str, genre: &str, year: u32) -> Song {
    Song {
        id,
        name: name.to_string(),
        artist: artist.to_string(),
        genre: genre.to_string(),
        year,
        file_path: format!("songs/{}.mp3", id),
        is_playing: false,
    }
}

fn ids_of(pl: &Playlist) -> Vec<u32> {
    pl.songs.iter().map(|s| s.id).collect()
}

fn sample_playlist() -> Playlist {
    let mut pl = create_playlist("mix");
    pl = add_song_to_playlist(&pl, track(1, "Zeta", "Ana", "rock", 2001));
    pl = add_song_to_playlist(&pl, track(2, "alfa", "Beto", "pop", 1999));
    pl = add_song_to_playlist(&pl, track(3, "Medio", "Ana", "jazz", 2001));
    pl
}

#[test]
fn create_playlist_is_empty_and_named() {
    let pl = create_playlist("favoritas");
    assert_eq!(pl.name, "favoritas");
    assert!(pl.songs.is_empty());
}

#[test]
fn add_song_appends_and_keeps_original() {
    let pl = create_playlist("a");
    let pl2 = add_song_to_playlist(&pl, track(7, "x", "y", "z", 2000));
    assert!(pl.songs.is_empty());
    assert_eq!(ids_of(&pl2), vec![7]);
    let pl3 = add_song_to_playlist(&pl2, track(7, "x", "y", "z", 2000));
    assert_eq!(ids_of(&pl3), vec![7, 7]);
    assert_eq!(pl3.name, "a");
}

#[test]
fn remove_song_drops_every_copy_of_the_id() {
    let pl = sample_playlist();
    let pl = add_song_to_playlist(&pl, track(2, "alfa", "Beto", "pop", 1999));
    let r = remove_song_from_playlist(&pl, 2);
    assert_eq!(ids_of(&r), vec![1, 3]);
    assert_eq!(ids_of(&pl), vec![1, 2, 3, 2]);
    let same = remove_song_from_playlist(&pl, 99);
    assert_eq!(ids_of(&same), vec![1, 2, 3, 2]);
}

#[test]
fn filter_playlist_keeps_matching_songs_in_order() {
    let pl = sample_playlist();
    let r = filter_playlist(&pl, |s: &Song| s.artist == "Ana");
    assert_eq!(ids_of(&r), vec![1, 3]);
    assert_eq!(r.name, "mix");
    let none = filter_playlist(&pl, |_s: &Song| false);
    assert!(none.songs.is_empty());
}

#[test]
fn sort_by_name_ignores_case() {
    let pl = sample_playlist();
    let r = sort_by_name(&pl);
    assert_eq!(ids_of(&r), vec![2, 3, 1]);
    assert_eq!(ids_of(&pl), vec![1, 2, 3]);
}

#[test]
fn sort_by_year_is_stable() {
    let pl = sample_playlist();
    let r = sort_by_year(&pl);
    assert_eq!(ids_of(&r), vec![2, 1, 3]);
}

#[test]
fn sort_by_name_keeps_ties_in_order() {
    let mut pl = create_playlist("t");
    pl = add_song_to_playlist(&pl, track(5, "Same", "a", "g", 1));
    pl = add_song_to_playlist(&pl, track(4, "same", "b", "g", 1));
    pl = add_song_to_playlist(&pl, track(6, "SAME", "c", "g", 1));
    let r = sort_by_name(&pl);
    assert_eq!(ids_of(&r), vec![5, 4, 6]);
}

#[test]
fn summarize_counts_songs_and_distinct_artists() {
    let pl = sample_playlist();
    assert_eq!(summarize_playlist(&pl), "Playlist 'mix': 3 canciones, 2 artistas únicos");
    let empty = create_playlist("vacía");
    assert_eq!(summarize_playlist(&empty), "Playlist 'vacía': 0 canciones, 0 artistas únicos");
}

#[test]
fn summarize_artists_are_case_sensitive() {
    let mut pl = create_playlist("c");
    pl = add_song_to_playlist(&pl, track(1, "a", "Ana", "g", 1));
    pl = add_song_to_playlist(&pl, track(2, "b", "ana", "g", 1));
    assert_eq!(summarize_playlist(&pl), "Playlist 'c': 2 canciones, 2 artistas únicos");
}

#[test]
fn song_names_are_name_dash_artist() {
    let pl = sample_playlist();
    assert_eq!(get_song_names(&pl), vec!["Zeta - Ana", "alfa - Beto", "Medio - Ana"]);
    assert!(get_song_names(&create_playlist("e")).is_empty());
}

#[test]
fn cloned_playlist_is_equal_and_independent() {
    let pl = sample_playlist();
    let mut c = pl.clone();
    assert_eq!(c.name, pl.name);
    assert_eq!(ids_of(&c), ids_of(&pl));
    c.songs.clear();
    assert_eq!(pl.songs.len(), 3);
}
