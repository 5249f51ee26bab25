use spoticry::playlist::Playlist;
use spoticry::playlist_service::{add_song, create, delete, filter, get, list_names, remove_song, sort, summarize};
use spoticry::song::Song;

fn entry(id: u32, name: &str, artist: &str, genre: &str, year: u32) -> Song {
    Song {
        id,
        name: name.to_string(),
        artist: artist.to_string(),
        genre: genre.to_string(),
        year,
        file_path: format!("songs/{}.mp3", id),
        is_playing: false,
    }
}

fn song_ids(pl: &Playlist) -> Vec<u32> {
    pl.songs.iter().map(|s| s.id).collect()
}

fn library_with_mix() -> Vec<Playlist> {
    let pls = create(&[], "mix").unwrap();
    let pls = add_song(&pls, "mix", entry(1, "Zeta", "Ana", "Rock", 2001)).unwrap();
    let pls = add_song(&pls, "mix", entry(2, "alfa", "Beto", "Pop", 1999)).unwrap();
    add_song(&pls, "mix", entry(3, "Medio", "Ana", "Jazz Rock", 2001)).unwrap()
}

#[test]
fn create_appends_an_empty_playlist() {
    let pls = create(&[], "a").unwrap();
    let pls = create(&pls, "b").unwrap();
    assert_eq!(list_names(&pls), vec!["a", "b"]);
    assert!(pls[1].songs.is_empty());
}

#[test]
fn create_refuses_a_taken_name() {
    let pls = create(&[], "a").unwrap();
    let r = create(&pls, "a");
    assert_eq!(r.err().unwrap(), "Ya existe una playlist llamada 'a'");
}

#[test]
fn create_then_get_gives_the_empty_playlist() {
    let pls = create(&[], "nueva").unwrap();
    let p = get(&pls, "nueva").unwrap();
    assert_eq!(p.name, "nueva");
    assert!(p.songs.is_empty());
}

#[test]
fn delete_removes_the_playlist() {
    let pls = create(&[], "a").unwrap();
    let pls = create(&pls, "b").unwrap();
    let pls = delete(&pls, "a").unwrap();
    assert_eq!(list_names(&pls), vec!["b"]);
}

#[test]
fn delete_refuses_an_unknown_name() {
    let pls = create(&[], "a").unwrap();
    assert_eq!(delete(&pls, "zz").err().unwrap(), "No existe una playlist llamada 'zz'");
}

#[test]
fn create_then_delete_restores_the_list() {
    let pls = create(&[], "a").unwrap();
    let more = create(&pls, "b").unwrap();
    let back = delete(&more, "b").unwrap();
    assert_eq!(list_names(&back), list_names(&pls));
}

#[test]
fn add_song_to_unknown_playlist_is_refused() {
    let pls = create(&[], "a").unwrap();
    let r = add_song(&pls, "x", entry(1, "n", "a", "g", 1));
    assert_eq!(r.err().unwrap(), "Playlist 'x' no encontrada");
}

#[test]
fn add_song_then_get_ends_with_the_song() {
    let pls = library_with_mix();
    let p = get(&pls, "mix").unwrap();
    assert_eq!(song_ids(&p), vec![1, 2, 3]);
}

#[test]
fn remove_song_from_playlist_by_id() {
    let pls = library_with_mix();
    let pls = remove_song(&pls, "mix", 2).unwrap();
    assert_eq!(song_ids(&get(&pls, "mix").unwrap()), vec![1, 3]);
    assert_eq!(remove_song(&pls, "nope", 1).err().unwrap(), "Playlist 'nope' no encontrada");
}

#[test]
fn sort_playlist_by_name_year_and_other() {
    let pls = library_with_mix();
    let by_name = sort(&pls, "mix", "name").unwrap();
    assert_eq!(song_ids(&get(&by_name, "mix").unwrap()), vec![2, 3, 1]);
    let by_year = sort(&pls, "mix", "year").unwrap();
    assert_eq!(song_ids(&get(&by_year, "mix").unwrap()), vec![2, 1, 3]);
    let other = sort(&pls, "mix", "genre").unwrap();
    assert_eq!(song_ids(&get(&other, "mix").unwrap()), vec![1, 2, 3]);
    assert_eq!(sort(&pls, "x", "name").err().unwrap(), "Playlist 'x' no encontrada");
}

#[test]
fn get_unknown_playlist_is_refused() {
    assert_eq!(get(&[], "x").err().unwrap(), "Playlist 'x' no encontrada");
}

#[test]
fn list_names_of_no_playlists_is_empty() {
    assert!(list_names(&[]).is_empty());
}

#[test]
fn summarize_known_and_unknown() {
    let pls = library_with_mix();
    assert_eq!(summarize(&pls, "mix").unwrap(), "Playlist 'mix': 3 canciones, 2 artistas únicos");
    assert_eq!(summarize(&pls, "q").err().unwrap(), "Playlist 'q' no encontrada");
}

#[test]
fn filter_by_text_fields_ignores_case() {
    let pls = library_with_mix();
    assert_eq!(song_ids(&filter(&pls, "mix", "name", "ZET").unwrap()), vec![1]);
    assert_eq!(song_ids(&filter(&pls, "mix", "artist", "ana").unwrap()), vec![1, 3]);
    assert_eq!(song_ids(&filter(&pls, "mix", "genre", "rock").unwrap()), vec![1, 3]);
    assert_eq!(song_ids(&filter(&pls, "mix", "name", "").unwrap()), vec![1, 2, 3]);
}

#[test]
fn filter_by_year_parses_the_query() {
    let pls = library_with_mix();
    assert_eq!(song_ids(&filter(&pls, "mix", "year", "2001").unwrap()), vec![1, 3]);
    assert_eq!(song_ids(&filter(&pls, "mix", "year", "+1999").unwrap()), vec![2]);
    assert!(filter(&pls, "mix", "year", "abc").unwrap().songs.is_empty());
}

#[test]
fn filter_with_zero_year_matches_unparsable_query() {
    let pls = create(&[], "z").unwrap();
    let pls = add_song(&pls, "z", entry(9, "s", "a", "g", 0)).unwrap();
    assert_eq!(song_ids(&filter(&pls, "z", "year", "no").unwrap()), vec![9]);
}

#[test]
fn filter_refusals() {
    let pls = library_with_mix();
    assert_eq!(
        filter(&pls, "mix", "color", "x").err().unwrap(),
        "Campo 'color' no válido. Usa: name, artist, genre, year"
    );
    assert_eq!(filter(&pls, "nada", "color", "x").err().unwrap(), "Playlist 'nada' no encontrada");
}

#[test]
fn filter_leaves_the_playlists_unchanged() {
    let pls = library_with_mix();
    let _ = filter(&pls, "mix", "artist", "beto").unwrap();
    assert_eq!(song_ids(&get(&pls, "mix").unwrap()), vec![1, 2, 3]);
}

#[test]
fn add_then_remove_song_restores_the_playlists() {
    let pls = library_with_mix();
    let added = add_song(&pls, "mix", entry(8, "Ocho", "Ana", "Pop", 2008)).unwrap();
    let back = remove_song(&added, "mix", 8).unwrap();
    assert_eq!(song_ids(&get(&back, "mix").unwrap()), song_ids(&get(&pls, "mix").unwrap()));
}
