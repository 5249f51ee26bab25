use spoticry::song::Song;
use spoticry::song_service::{
    add_song, format_song_line, list_songs, normalize_text, remove_song, search_by_genre_ranked, search_by_name,
    search_by_year_range, tokenize, try_search_by_name,
};

fn lib_song(id: u32, name: &str, genre: &str, year: u32) -> Song {
    Song {
        id,
        name: name.to_string(),
        artist: format!("artist{}", id),
        genre: genre.to_string(),
        year,
        file_path: format!("songs/{}.mp3", id),
        is_playing: false,
    }
}

fn ids(songs: &[Song]) -> Vec<u32> {
    songs.iter().map(|s| s.id).collect()
}

fn name_library() -> Vec<Song> {
    vec![
        lib_song(1, "Hello World", "Pop", 2001),
        lib_song(2, "World Cup Song", "Rock", 1998),
        lib_song(3, "Yellow", "Rockabilly", 2010),
        lib_song(4, "hello", "Jazz Rock", 1998),
        lib_song(5, "Canción Triste", "pop", 1975),
    ]
}

#[test]
fn list_songs_copies_in_order() {
    let lib = name_library();
    assert_eq!(ids(&list_songs(&lib)), vec![1, 2, 3, 4, 5]);
    assert!(list_songs(&[]).is_empty());
}

#[test]
fn add_song_appends() {
    let mut lib = name_library();
    add_song(&mut lib, lib_song(9, "n", "g", 1));
    assert_eq!(ids(&lib), vec![1, 2, 3, 4, 5, 9]);
}

#[test]
fn remove_song_keeps_playing_songs() {
    let mut lib = name_library();
    lib[1].is_playing = true;
    let r = remove_song(lib.clone(), 2);
    assert_eq!(ids(&r), vec![1, 2, 3, 4, 5]);
    let r = remove_song(lib, 3);
    assert_eq!(ids(&r), vec![1, 2, 4, 5]);
}

#[test]
fn remove_song_of_unknown_id_changes_nothing() {
    let lib = name_library();
    assert_eq!(ids(&remove_song(lib, 77)), vec![1, 2, 3, 4, 5]);
}

#[test]
fn normalize_trims_lowers_and_folds_accents() {
    assert_eq!(normalize_text("  Rock "), "rock");
    assert_eq!(normalize_text("ÁRBOL Ñandú"), "arbol nandu");
    assert_eq!(normalize_text("Canción"), "cancion");
    assert_eq!(normalize_text("   "), "");
}

#[test]
fn tokenize_splits_and_dedups() {
    assert_eq!(tokenize("Hola, MUNDO hola!"), vec!["hola", "mundo"]);
    assert_eq!(tokenize("a-b  c"), vec!["a", "b", "c"]);
    assert!(tokenize("!!! ??").is_empty());
    assert_eq!(tokenize("Canción 2"), vec!["cancion", "2"]);
}

#[test]
fn name_search_ranks_by_score_then_name() {
    let lib = name_library();
    assert_eq!(ids(&search_by_name(&lib, "hello world")), vec![1, 4, 2]);
}

#[test]
fn name_search_matches_parts_of_words() {
    let lib = name_library();
    assert_eq!(ids(&search_by_name(&lib, "ell")), vec![4, 1, 3]);
    assert_eq!(ids(&search_by_name(&lib, "worldwide")), vec![1, 2]);
}

#[test]
fn name_search_folds_accents_and_case() {
    let lib = name_library();
    assert_eq!(ids(&search_by_name(&lib, "CANCION")), vec![5]);
    assert_eq!(ids(&search_by_name(&lib, "triste canción")), vec![5]);
}

#[test]
fn name_search_empty_query_gives_every_song() {
    let lib = name_library();
    assert_eq!(ids(&search_by_name(&lib, "   ")), vec![1, 2, 3, 4, 5]);
    assert_eq!(ids(&search_by_name(&lib, "")), vec![1, 2, 3, 4, 5]);
}

#[test]
fn name_search_without_words_gives_nothing() {
    let lib = name_library();
    assert!(search_by_name(&lib, "!!!").is_empty());
    assert!(search_by_name(&lib, "zzz").is_empty());
}

#[test]
fn name_search_repeated_query_words_count_once() {
    let lib = name_library();
    assert_eq!(ids(&search_by_name(&lib, "song song")), vec![2]);
}

#[test]
fn try_name_search_agrees() {
    let lib = name_library();
    let r = try_search_by_name(&lib, "hello world").unwrap();
    assert_eq!(ids(&r), vec![1, 4, 2]);
}

#[test]
fn year_range_filters_and_sorts() {
    let lib = name_library();
    assert_eq!(ids(&search_by_year_range(&lib, 1990, 2005)), vec![2, 4, 1]);
}

#[test]
fn year_range_swapped_bounds_are_corrected() {
    let lib = name_library();
    assert_eq!(ids(&search_by_year_range(&lib, 2005, 1990)), vec![2, 4, 1]);
    assert_eq!(ids(&search_by_year_range(&lib, 1998, 1998)), vec![2, 4]);
    assert!(search_by_year_range(&lib, 1800, 1900).is_empty());
}

#[test]
fn genre_search_scores_exact_prefix_and_contains() {
    let lib = name_library();
    assert_eq!(ids(&search_by_genre_ranked(&lib, "rock")), vec![2, 3, 4]);
}

#[test]
fn genre_search_ties_by_genre_then_name() {
    let lib = vec![
        lib_song(1, "b", "Rock", 1),
        lib_song(2, "A", "rock", 1),
        lib_song(3, "c", "  ROCK ", 1),
    ];
    assert_eq!(ids(&search_by_genre_ranked(&lib, "Rock")), vec![3, 2, 1]);
}

#[test]
fn genre_search_empty_query_gives_every_song() {
    let lib = name_library();
    assert_eq!(ids(&search_by_genre_ranked(&lib, "  ")), vec![1, 2, 3, 4, 5]);
    assert!(search_by_genre_ranked(&lib, "metal").is_empty());
}

#[test]
fn genre_search_folds_accents() {
    let lib = vec![lib_song(1, "x", "Música Clásica", 1)];
    assert_eq!(ids(&search_by_genre_ranked(&lib, "musica clasica")), vec![1]);
}

#[test]
fn song_line_shows_every_field() {
    let mut s = lib_song(12, "Zeta", "Rock", 2001);
    assert_eq!(format_song_line(&s), "[12] Zeta - artist12 (Rock) [2001] ");
    s.is_playing = true;
    assert_eq!(format_song_line(&s), "[12] Zeta - artist12 (Rock) [2001] [REPRODUCIENDO]");
}

#[test]
fn blank_queries_give_every_song() {
    let lib = name_library();
    assert_eq!(ids(&search_by_name(&lib, "\t\u{3000} ")), vec![1, 2, 3, 4, 5]);
    assert_eq!(ids(&search_by_genre_ranked(&lib, "\n")), vec![1, 2, 3, 4, 5]);
    assert_eq!(normalize_text("\u{2003}Ñ\u{85}"), "n");
}
