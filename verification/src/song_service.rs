//! The song library: listing, adding and removing songs, and the three
//! searches (by name with an inverted index and a ranking, by a range of
//! years, and by genre with a relevance score).

use vstd::prelude::*;
use crate::song::{Song, copy_songs};
use crate::playlist::{name_before, year_before};
use crate::sorting::{sort_by, sort_stable, strict_weak_order, is_sorted_by, lemma_sort_by_sorted, lemma_sort_by_permutes,
    lemma_sort_by_contains};
use crate::text::{lemma_lex_irreflexive, lemma_lex_transitive, lemma_lex_not_lt, lemma_lex_equal, lemma_lex_total};
use crate::text::{alphanumeric, chars_equal, chars_of, concat, contains_chars, contains_text, decimal,
    decimal_string, is_alnum, lex_lt, lower_less, lowercase, seq_contains, seq_starts_with, starts_with_chars,
    string_of, texts, to_lower, trim, trimmed, str_equal};

verus! {

// ---------------------------------------------------------------------
// The library as a list
// ---------------------------------------------------------------------

/// A copy of the songs, in order.
pub fn list_songs(songs: &[Song]) -> (r: Vec<Song>)
    ensures
        r@ == songs@,
{
    copy_songs(songs)
}

/// Adds `song` at the end of the library.
pub fn add_song(songs: &mut Vec<Song>, song: Song)
    ensures
        final(songs)@ == old(songs)@.push(song),
{
    songs.push(song);
}

/// A song stays when its id is not `id` or while it is playing.
pub open spec fn stays(id: u32) -> spec_fn(Song) -> bool {
    |s: Song| s.id != id || s.is_playing
}

/// The library without the songs whose id is `id`, except those playing.
pub fn remove_song(songs: Vec<Song>, id: u32) -> (r: Vec<Song>)
    ensures
        r@ == songs@.filter(stays(id)),
{
    let ghost s = songs@;
    let mut r: Vec<Song> = Vec::new();
    let mut rest = songs;
    let n = rest.len();
    let mut i: usize = 0;
    while i < n
        invariant
            n == s.len(),
            0 <= i <= n,
            rest@ == s.skip(i as int),
            r@ == s.take(i as int).filter(stays(id)),
        decreases n - i,
    {
        proof {
            reveal_with_fuel(Seq::filter, 1);
        }
        let song = rest.remove(0);
        assert(song == s[i as int]);
        assert(rest@ =~= s.skip(i + 1));
        assert(s.take(i + 1).drop_last() =~= s.take(i as int));
        if song.id != id || song.is_playing {
            r.push(song);
        }
        i = i + 1;
    }
    assert(s.take(n as int) =~= s);
    r
}

/// The text that marks a song being played.
pub open spec fn playing_mark(s: Song) -> Seq<char> {
    if s.is_playing {
        "[REPRODUCIENDO]"@
    } else {
        ""@
    }
}

/// The line that shows a song: "[id] name - artist (genre) [year] mark".
pub open spec fn song_line(s: Song) -> Seq<char> {
    "["@ + decimal(s.id as nat) + "] "@ + s.name@ + " - "@ + s.artist@ + " ("@ + s.genre@ + ") ["@ + decimal(
        s.year as nat,
    ) + "] "@ + playing_mark(s)
}

/// The line that shows `s` in a listing of the library.
pub fn format_song_line(s: &Song) -> (r: String)
    ensures
        r@ == song_line(*s),
{
    let id = decimal_string(s.id as u64);
    let year = decimal_string(s.year as u64);
    let a = concat("[", id.as_str());
    let b = concat(a.as_str(), "] ");
    let c = concat(b.as_str(), s.name.as_str());
    let d = concat(c.as_str(), " - ");
    let e = concat(d.as_str(), s.artist.as_str());
    let f = concat(e.as_str(), " (");
    let g = concat(f.as_str(), s.genre.as_str());
    let h = concat(g.as_str(), ") [");
    let i = concat(h.as_str(), year.as_str());
    let j = concat(i.as_str(), "] ");
    let mark = if s.is_playing { "[REPRODUCIENDO]" } else { "" };
    concat(j.as_str(), mark)
}

// ---------------------------------------------------------------------
// Normalised text and words
// ---------------------------------------------------------------------

/// The accented lowercase vowels and the eñe become plain letters.
pub open spec fn fold_accent(c: char) -> char {
    if c == 'á' {
        'a'
    } else if c == 'é' {
        'e'
    } else if c == 'í' {
        'i'
    } else if c == 'ó' {
        'o'
    } else if c == 'ú' {
        'u'
    } else if c == 'ñ' {
        'n'
    } else {
        c
    }
}

fn fold_accent_char(c: char) -> (r: char)
    ensures
        r == fold_accent(c),
{
    if c == 'á' {
        'a'
    } else if c == 'é' {
        'e'
    } else if c == 'í' {
        'i'
    } else if c == 'ó' {
        'o'
    } else if c == 'ú' {
        'u'
    } else if c == 'ñ' {
        'n'
    } else {
        c
    }
}

/// `text` trimmed, in lowercase, with accents folded.
pub open spec fn normalized(text: Seq<char>) -> Seq<char> {
    lowercase(trimmed(text)).map_values(|c: char| fold_accent(c))
}

/// `text` trimmed, in lowercase, with accents folded.
pub fn normalize_text(text: &str) -> (r: String)
    ensures
        r@ == normalized(text@),
        r@.len() == 0 <==> trimmed(text@).len() == 0,
{
    let t = trim(text);
    let l = to_lower(t.as_str());
    let cs = chars_of(l.as_str());
    let mut out: Vec<char> = Vec::new();
    for i in 0..cs.len()
        invariant
            out@.len() == i,
            forall|k: int| 0 <= k < i ==> out@[k] == fold_accent(#[trigger] cs@[k]),
    {
        out.push(fold_accent_char(cs[i]));
    }
    assert(out@ =~= normalized(text@));
    string_of(out.as_slice())
}

/// The pieces of `s` between characters that are not alphanumeric, as
/// `str::split` gives them (empty pieces included).
pub open spec fn pieces(s: Seq<char>) -> Seq<Seq<char>>
    decreases s.len(),
{
    if s.len() == 0 {
        seq![Seq::empty()]
    } else {
        let p = pieces(s.drop_last());
        if alphanumeric(s.last()) {
            p.update(p.len() - 1, p.last().push(s.last()))
        } else {
            p.push(Seq::empty())
        }
    }
}

proof fn lemma_pieces_nonempty(s: Seq<char>)
    ensures
        pieces(s).len() >= 1,
    decreases s.len(),
{
    if s.len() > 0 {
        lemma_pieces_nonempty(s.drop_last());
    }
}

/// The trimmed non-empty pieces, each where it first occurs.
pub open spec fn distinct_words(ps: Seq<Seq<char>>) -> Seq<Seq<char>>
    decreases ps.len(),
{
    if ps.len() == 0 {
        Seq::empty()
    } else {
        let r = distinct_words(ps.drop_last());
        let w = trimmed(ps.last());
        if w.len() > 0 && !r.contains(w) {
            r.push(w)
        } else {
            r
        }
    }
}

/// The words of `text`: its normalised form split at the characters that
/// are not alphanumeric, without empty words and without repetitions.
pub open spec fn tokens(text: Seq<char>) -> Seq<Seq<char>> {
    distinct_words(pieces(normalized(text)))
}

/// Adds the trimmed `piece` to `words` unless it is empty or there already.
fn add_word(words: &mut Vec<String>, piece: &[char])
    ensures
        texts(final(words)@) == ({
            let w = trimmed(piece@);
            if w.len() > 0 && !texts(old(words)@).contains(w) {
                texts(old(words)@).push(w)
            } else {
                texts(old(words)@)
            }
        }),
{
    let s = string_of(piece);
    let w = trim(s.as_str());
    if !w.as_str().is_empty() && !contains_text(words.as_slice(), w.as_str()) {
        let ghost before = words@;
        words.push(w);
        assert(texts(words@) =~= texts(before).push(trimmed(piece@)));
    }
}

/// The words of `text`: its normalised form split at the characters that
/// are not alphanumeric, without empty words and without repetitions.
pub fn tokenize(text: &str) -> (r: Vec<String>)
    ensures
        texts(r@) == tokens(text@),
{
    let n = normalize_text(text);
    let cs = chars_of(n.as_str());
    let mut words: Vec<String> = Vec::new();
    let mut cur: Vec<char> = Vec::new();
    for i in 0..cs.len()
        invariant
            pieces(cs@.take(i as int)).len() >= 1,
            texts(words@) == distinct_words(pieces(cs@.take(i as int)).drop_last()),
            cur@ == pieces(cs@.take(i as int)).last(),
    {
        let c = cs[i];
        let ghost p = pieces(cs@.take(i as int));
        assert(cs@.take(i + 1).drop_last() =~= cs@.take(i as int));
        assert(cs@.take(i + 1).last() == c);
        if is_alnum(c) {
            cur.push(c);
            assert(pieces(cs@.take(i + 1)).drop_last() =~= p.drop_last());
        } else {
            add_word(&mut words, cur.as_slice());
            assert(pieces(cs@.take(i + 1)).drop_last() =~= p);
            assert(p.drop_last().push(p.last()) =~= p);
            cur = Vec::new();
        }
    }
    let ghost p = pieces(cs@.take(cs@.len() as int));
    add_word(&mut words, cur.as_slice());
    assert(cs@.take(cs@.len() as int) =~= cs@);
    assert(p.drop_last().push(p.last()) =~= p);
    words
}

// ---------------------------------------------------------------------
// Search by a range of years
// ---------------------------------------------------------------------

/// The song's year lies between `start` and `end`, both included.
pub open spec fn in_years(start: u32, end: u32) -> spec_fn(Song) -> bool {
    |s: Song| start <= s.year && s.year <= end
}

/// The songs of `songs` from `from` to `to` (in either order), sorted by
/// year; songs of the same year keep their order.
pub open spec fn year_range_result(songs: Seq<Song>, from: u32, to: u32) -> Seq<Song> {
    let start = if from <= to { from } else { to };
    let end = if from <= to { to } else { from };
    sort_by(songs.filter(in_years(start, end)), year_before())
}

/// The songs whose year lies between `from` and `to` (a range given the
/// wrong way round is turned round), sorted by year.
pub fn search_by_year_range(songs: &[Song], from: u32, to: u32) -> (r: Vec<Song>)
    ensures
        r@ == year_range_result(songs@, from, to),
{
    let start = if from <= to { from } else { to };
    let end = if from <= to { to } else { from };
    let ghost keep = in_years(start, end);
    let mut found: Vec<Song> = Vec::new();
    for i in 0..songs.len()
        invariant
            keep == in_years(start, end),
            found@ == songs@.take(i as int).filter(keep),
    {
        proof {
            reveal_with_fuel(Seq::filter, 1);
        }
        assert(songs@.take(i + 1).drop_last() =~= songs@.take(i as int));
        if songs[i].year >= start && songs[i].year <= end {
            found.push(songs[i].clone());
        }
    }
    assert(songs@.take(songs@.len() as int) =~= songs@);
    sort_stable(found, &crate::playlist::song_year_before, Ghost(year_before()))
}

// ---------------------------------------------------------------------
// Search by genre, ranked
// ---------------------------------------------------------------------

/// How well a genre matches a normalised query: 3 when equal, 2 when it
/// starts with the query, 1 when it contains it, else 0.
pub open spec fn genre_score(genre: Seq<char>, query: Seq<char>) -> u32 {
    let g = normalized(genre);
    if g == query {
        3
    } else if seq_starts_with(g, query) {
        2
    } else if seq_contains(g, query) {
        1
    } else {
        0
    }
}

/// The songs that match, each with its score, in library order.
pub open spec fn genre_candidates(songs: Seq<Song>, query: Seq<char>) -> Seq<(u32, Song)> {
    songs.filter_map(
        |s: Song|
            if genre_score(s.genre@, query) > 0 {
                Some((genre_score(s.genre@, query), s))
            } else {
                None
            },
    )
}

/// Ranking order: higher score first, then the lowercase genre, then the
/// lowercase name.
pub open spec fn genre_rank_before() -> spec_fn((u32, Song), (u32, Song)) -> bool {
    |a: (u32, Song), b: (u32, Song)|
        a.0 > b.0 || (a.0 == b.0 && (lex_lt(lowercase(a.1.genre@), lowercase(b.1.genre@)) || (lowercase(
            a.1.genre@,
        ) == lowercase(b.1.genre@) && lex_lt(lowercase(a.1.name@), lowercase(b.1.name@)))))
}

/// The result of the genre search: every song when the normalised query is
/// empty; else the matching songs ranked.
pub open spec fn genre_result(songs: Seq<Song>, query: Seq<char>) -> Seq<Song> {
    let q = normalized(query);
    if q.len() == 0 {
        songs
    } else {
        sort_by(genre_candidates(songs, q), genre_rank_before()).map_values(|p: (u32, Song)| p.1)
    }
}

fn genre_before(a: &(u32, Song), b: &(u32, Song)) -> (r: bool)
    ensures
        r == genre_rank_before()(*a, *b),
{
    if a.0 != b.0 {
        return a.0 > b.0;
    }
    let ga = to_lower(a.1.genre.as_str());
    let gb = to_lower(b.1.genre.as_str());
    let ca = chars_of(ga.as_str());
    let cb = chars_of(gb.as_str());
    if crate::text::lex_less(ca.as_slice(), cb.as_slice()) {
        return true;
    }
    if !chars_equal(ca.as_slice(), cb.as_slice()) {
        return false;
    }
    lower_less(a.1.name.as_str(), b.1.name.as_str())
}

fn score_genre(genre: &str, query: &[char]) -> (r: u32)
    ensures
        r == genre_score(genre@, query@),
{
    let g = normalize_text(genre);
    let cs = chars_of(g.as_str());
    if chars_equal(cs.as_slice(), query) {
        3
    } else if starts_with_chars(cs.as_slice(), query) {
        2
    } else if contains_chars(cs.as_slice(), query) {
        1
    } else {
        0
    }
}

/// The songs whose normalised genre matches the normalised query, best
/// first: equal genres, then genres that start with the query, then genres
/// that contain it; ties go by genre and then by name, in lowercase. An
/// empty query gives every song.
pub fn search_by_genre_ranked(songs: &[Song], query: &str) -> (r: Vec<Song>)
    ensures
        r@ == genre_result(songs@, query@),
        trimmed(query@).len() == 0 ==> r@ == songs@,
{
    let qn = normalize_text(query);
    if qn.as_str().is_empty() {
        return copy_songs(songs);
    }
    let q = chars_of(qn.as_str());
    let mut ranked: Vec<(u32, Song)> = Vec::new();
    for i in 0..songs.len()
        invariant
            q@ == normalized(query@),
            ranked@ == genre_candidates(songs@.take(i as int), q@),
    {
        assert(songs@.take(i + 1).drop_last() =~= songs@.take(i as int));
        let score = score_genre(songs[i].genre.as_str(), q.as_slice());
        if score > 0 {
            ranked.push((score, songs[i].clone()));
        }
        assert(ranked@ =~= genre_candidates(songs@.take(i + 1), q@));
    }
    assert(songs@.take(songs@.len() as int) =~= songs@);
    let sorted = sort_stable(ranked, &genre_before, Ghost(genre_rank_before()));
    let mut r: Vec<Song> = Vec::new();
    let mut rest = sorted;
    let ghost all = rest@;
    let n = rest.len();
    let mut i: usize = 0;
    while i < n
        invariant
            n == all.len(),
            0 <= i <= n,
            rest@ == all.skip(i as int),
            r@ == all.take(i as int).map_values(|p: (u32, Song)| p.1),
        decreases n - i,
    {
        let (_, song) = rest.remove(0);
        assert(rest@ =~= all.skip(i + 1));
        r.push(song);
        assert(r@ =~= all.take(i + 1).map_values(|p: (u32, Song)| p.1));
        i = i + 1;
    }
    assert(all.take(n as int) =~= all);
    r
}

// ---------------------------------------------------------------------
// Search by name: an inverted index and a ranking
// ---------------------------------------------------------------------

/// A word of a song and a word of the query match when one contains the
/// other.
pub open spec fn word_matches(w: Seq<char>, q: Seq<char>) -> bool {
    seq_contains(w, q) || seq_contains(q, w)
}

/// How many words of `ws` match the query word `q`.
pub open spec fn match_count(ws: Seq<Seq<char>>, q: Seq<char>) -> nat
    decreases ws.len(),
{
    if ws.len() == 0 {
        0
    } else {
        match_count(ws.drop_last(), q) + if word_matches(ws.last(), q) {
            1nat
        } else {
            0nat
        }
    }
}

/// The score of a song whose name has the words `ws` against the query
/// words `qs`: for each query word, the number of the song's words that
/// match it.
pub open spec fn name_score(ws: Seq<Seq<char>>, qs: Seq<Seq<char>>) -> nat
    decreases qs.len(),
{
    if qs.len() == 0 {
        0
    } else {
        name_score(ws, qs.drop_last()) + match_count(ws, qs.last())
    }
}

/// Every song's score against the query words `qs` fits in a `u32`.
pub open spec fn scores_fit(songs: Seq<Song>, qs: Seq<Seq<char>>) -> bool {
    forall|i: int| 0 <= i < songs.len() ==> #[trigger] name_score(tokens(songs[i].name@), qs) <= u32::MAX
}

/// The songs among the first `k` that score above 0, as (index, score), in
/// library order.
pub open spec fn name_candidates(songs: Seq<Song>, qs: Seq<Seq<char>>, k: int) -> Seq<(usize, u32)>
    decreases k,
{
    if k <= 0 {
        Seq::empty()
    } else {
        let r = name_candidates(songs, qs, k - 1);
        let sc = name_score(tokens(songs[k - 1].name@), qs);
        if sc > 0 {
            r.push(((k - 1) as usize, sc as u32))
        } else {
            r
        }
    }
}

/// Ranking order of candidates: higher score first, then the lowercase
/// name.
pub open spec fn name_rank_before(songs: Seq<Song>) -> spec_fn((usize, u32), (usize, u32)) -> bool {
    |a: (usize, u32), b: (usize, u32)|
        a.1 > b.1 || (a.1 == b.1 && lex_lt(rank_name(songs, a.0), rank_name(songs, b.0)))
}

/// The lowercase name of song `i` (empty past the last song).
pub open spec fn rank_name(songs: Seq<Song>, i: usize) -> Seq<char> {
    if i < songs.len() {
        lowercase(songs[i as int].name@)
    } else {
        Seq::empty()
    }
}

/// The result of the name search: every song when the normalised query is
/// empty; no song when the query has no words; else the songs that score
/// above 0, best first.
pub open spec fn name_result(songs: Seq<Song>, query: Seq<char>) -> Seq<Song> {
    let qn = normalized(query);
    let qs = tokens(qn);
    if qn.len() == 0 {
        songs
    } else if qs.len() == 0 {
        Seq::empty()
    } else {
        sort_by(name_candidates(songs, qs, songs.len() as int), name_rank_before(songs)).map_values(
            |p: (usize, u32)| songs[p.0 as int],
        )
    }
}

/// The name search can rank the songs: no score exceeds a `u32`.
pub open spec fn name_search_fits(songs: Seq<Song>, query: Seq<char>) -> bool {
    let qn = normalized(query);
    let qs = tokens(qn);
    qn.len() == 0 || qs.len() == 0 || scores_fit(songs, qs)
}

// Counting facts behind the index.

/// The number of index entries (words `ws`, song lists `ls`) whose word
/// matches `q` and whose list holds song `i`.
pub open spec fn hits(ws: Seq<Seq<char>>, ls: Seq<Seq<usize>>, q: Seq<char>, i: usize) -> nat
    decreases ws.len(),
{
    if ws.len() == 0 || ls.len() != ws.len() {
        0
    } else {
        hits(ws.drop_last(), ls.drop_last(), q, i) + if word_matches(ws.last(), q) && ls.last().contains(i) {
            1nat
        } else {
            0nat
        }
    }
}

proof fn lemma_match_count_remove(ws: Seq<Seq<char>>, q: Seq<char>, k: int)
    requires
        0 <= k < ws.len(),
    ensures
        match_count(ws, q) == match_count(ws.remove(k), q) + if word_matches(ws[k], q) {
            1nat
        } else {
            0nat
        },
    decreases ws.len(),
{
    if k < ws.len() - 1 {
        let t = ws.drop_last();
        lemma_match_count_remove(t, q, k);
        assert(ws.remove(k).drop_last() =~= t.remove(k));
        assert(ws.remove(k).last() == ws.last());
        assert(t[k] == ws[k]);
    } else {
        assert(ws.remove(k) =~= ws.drop_last());
    }
}

/// The hits of song `i` over an index without repeated words, whose lists
/// hold `i` exactly for the words of `a`, are the matches among `a`.
proof fn lemma_hits_count(
    ws: Seq<Seq<char>>,
    ls: Seq<Seq<usize>>,
    a: Seq<Seq<char>>,
    q: Seq<char>,
    i: usize,
)
    requires
        ws.len() == ls.len(),
        ws.no_duplicates(),
        a.no_duplicates(),
        forall|w: Seq<char>| a.contains(w) ==> ws.contains(w),
        forall|e: int| 0 <= e < ws.len() ==> (#[trigger] ls[e].contains(i) <==> a.contains(ws[e])),
    ensures
        hits(ws, ls, q, i) == match_count(a, q),
    decreases ws.len(),
{
    if ws.len() == 0 {
        if a.len() > 0 {
            assert(a.contains(a[0]));
        }
    } else {
        let x = ws.last();
        let w2 = ws.drop_last();
        let l2 = ls.drop_last();
        assert(!w2.contains(x)) by {
            if w2.contains(x) {
                let k = choose|k: int| 0 <= k < w2.len() && w2[k] == x;
                assert(ws[k] == ws[ws.len() - 1]);
            }
        }
        assert(w2.no_duplicates()) by {
            assert forall|p: int, r: int| 0 <= p < w2.len() && 0 <= r < w2.len() && p != r implies w2[p] != w2[r] by {
                assert(ws[p] == w2[p] && ws[r] == w2[r]);
            }
        }
        assert(ls.last() == ls[ls.len() - 1]);
        if !a.contains(x) {
            assert forall|w: Seq<char>| a.contains(w) implies w2.contains(w) by {
                let k = choose|k: int| 0 <= k < ws.len() && ws[k] == w;
                assert(k != ws.len() - 1);
                assert(w2[k] == w);
            }
            assert forall|e: int| 0 <= e < w2.len() implies (#[trigger] l2[e].contains(i) <==> a.contains(w2[e])) by {
                assert(ls[e] == l2[e] && ws[e] == w2[e]);
            }
            lemma_hits_count(w2, l2, a, q, i);
        } else {
            let k = choose|k: int| 0 <= k < a.len() && a[k] == x;
            let a2 = a.remove(k);
            assert forall|w: Seq<char>| a2.contains(w) implies w2.contains(w) by {
                let j = choose|j: int| 0 <= j < a2.len() && a2[j] == w;
                if j < k {
                    assert(a[j] == w);
                } else {
                    assert(a[j + 1] == w);
                }
                assert(a.contains(w));
                assert(w != x);
                let m = choose|m: int| 0 <= m < ws.len() && ws[m] == w;
                assert(w2[m] == w);
            }
            assert(a2.no_duplicates()) by {
                assert forall|p: int, r: int| 0 <= p < a2.len() && 0 <= r < a2.len() && p != r implies a2[p] != a2[r] by {
                    let pp = if p < k { p } else { p + 1 };
                    let rr = if r < k { r } else { r + 1 };
                    assert(a2[p] == a[pp] && a2[r] == a[rr]);
                }
            }
            assert forall|e: int| 0 <= e < w2.len() implies (#[trigger] l2[e].contains(i) <==> a2.contains(w2[e])) by {
                assert(ls[e] == l2[e] && ws[e] == w2[e]);
                assert(w2[e] != x);
                if a.contains(w2[e]) {
                    let j = choose|j: int| 0 <= j < a.len() && a[j] == w2[e];
                    assert(j != k);
                    if j < k {
                        assert(a2[j] == a[j]);
                    } else {
                        assert(a2[j - 1] == a[j]);
                    }
                }
                if a2.contains(w2[e]) {
                    let j = choose|j: int| 0 <= j < a2.len() && a2[j] == w2[e];
                    if j < k {
                        assert(a[j] == a2[j]);
                    } else {
                        assert(a[j + 1] == a2[j]);
                    }
                }
            }
            lemma_hits_count(w2, l2, a2, q, i);
            lemma_match_count_remove(a, q, k);
        }
    }
}

proof fn lemma_hits_prefix(ws: Seq<Seq<char>>, ls: Seq<Seq<usize>>, q: Seq<char>, i: usize, e: int)
    requires
        ws.len() == ls.len(),
        0 <= e <= ws.len(),
    ensures
        hits(ws.take(e), ls.take(e), q, i) <= hits(ws, ls, q, i),
    decreases ws.len() - e,
{
    if e < ws.len() {
        lemma_hits_prefix(ws.drop_last(), ls.drop_last(), q, i, e);
        assert(ws.drop_last().take(e) =~= ws.take(e));
        assert(ls.drop_last().take(e) =~= ls.take(e));
    } else {
        assert(ws.take(e) =~= ws);
        assert(ls.take(e) =~= ls);
    }
}

proof fn lemma_name_score_prefix(ws: Seq<Seq<char>>, qs: Seq<Seq<char>>, j: int)
    requires
        0 <= j <= qs.len(),
    ensures
        name_score(ws, qs.take(j)) <= name_score(ws, qs),
    decreases qs.len() - j,
{
    if j < qs.len() {
        lemma_name_score_prefix(ws, qs.drop_last(), j);
        assert(qs.drop_last().take(j) =~= qs.take(j));
    } else {
        assert(qs.take(j) =~= qs);
    }
}

/// The words of a text never repeat.
pub proof fn lemma_distinct_words_unique(ps: Seq<Seq<char>>)
    ensures
        distinct_words(ps).no_duplicates(),
    decreases ps.len(),
{
    if ps.len() > 0 {
        lemma_distinct_words_unique(ps.drop_last());
    }
}

// The inverted index.

/// The song lists of the index, as sequences.
pub open spec fn lists_view(v: Seq<Vec<usize>>) -> Seq<Seq<usize>> {
    v.map_values(|l: Vec<usize>| l@)
}

/// The index (words `ws`, song lists `ls`) covers the first `k` songs and,
/// of song `k`, the first `j` words: no word twice, each list without
/// repetitions, a list holds song `i` exactly when that song's name has the
/// entry's word, and every word of those songs has an entry.
pub open spec fn index_covers(
    ws: Seq<Seq<char>>,
    ls: Seq<Seq<usize>>,
    songs: Seq<Song>,
    k: int,
    j: int,
) -> bool {
    &&& ws.len() == ls.len()
    &&& ws.no_duplicates()
    &&& forall|e: int| 0 <= e < ls.len() ==> (#[trigger] ls[e]).no_duplicates()
    &&& forall|e: int, i: usize|
        0 <= e < ls.len() ==> (#[trigger] ls[e].contains(i) <==> ((i < k && tokens(
            songs[i as int].name@,
        ).contains(ws[e])) || (i == k && tokens(songs[k].name@).take(j).contains(ws[e]))))
    &&& forall|i: int, w: Seq<char>|
        0 <= i < k && #[trigger] tokens(songs[i].name@).contains(w) ==> ws.contains(w)
    &&& forall|w: Seq<char>| k < songs.len() && tokens(songs[k].name@).take(j).contains(w) ==> ws.contains(w)
}

/// Where a string with the text of `s` stands in `v`, or the length of `v`.
fn position_of_text(v: &[String], s: &str) -> (r: usize)
    ensures
        r <= v@.len(),
        r < v@.len() ==> texts(v@)[r as int] == s@,
        r == v@.len() ==> !texts(v@).contains(s@),
{
    let mut i: usize = 0;
    while i < v.len()
        invariant
            0 <= i <= v@.len(),
            forall|k: int| 0 <= k < i ==> v@[k]@ != s@,
        decreases v@.len() - i,
    {
        if str_equal(v[i].as_str(), s) {
            return i;
        }
        i = i + 1;
    }
    assert forall|k: int| 0 <= k < texts(v@).len() implies texts(v@)[k] != s@ by {
        assert(texts(v@)[k] == v@[k]@);
    }
    i
}

/// Records in the index that song `k` has the word `w`, the `j`-th word of
/// its name.
fn index_word(
    words: &mut Vec<String>,
    lists: &mut Vec<Vec<usize>>,
    w: &String,
    k: usize,
    Ghost(songs): Ghost<Seq<Song>>,
    Ghost(j): Ghost<int>,
)
    requires
        k < songs.len(),
        0 <= j < tokens(songs[k as int].name@).len(),
        tokens(songs[k as int].name@)[j] == w@,
        index_covers(texts(old(words)@), lists_view(old(lists)@), songs, k as int, j),
    ensures
        index_covers(texts(final(words)@), lists_view(final(lists)@), songs, k as int, j + 1),
{
    let ghost t = tokens(songs[k as int].name@);
    proof {
        lemma_distinct_words_unique(pieces(normalized(songs[k as int].name@)));
        assert(!t.take(j).contains(w@)) by {
            if t.take(j).contains(w@) {
                let m = choose|m: int| 0 <= m < j && #[trigger] t.take(j)[m] == w@;
                assert(t[m] == t[j]);
            }
        }
        assert forall|x: Seq<char>| t.take(j + 1).contains(x) <==> (t.take(j).contains(x) || x == w@) by {
            if t.take(j + 1).contains(x) {
                let m = choose|m: int| 0 <= m < j + 1 && #[trigger] t.take(j + 1)[m] == x;
                if m < j {
                    assert(t.take(j)[m] == x);
                }
            }
            if t.take(j).contains(x) {
                let m = choose|m: int| 0 <= m < j && #[trigger] t.take(j)[m] == x;
                assert(t.take(j + 1)[m] == x);
            }
            if x == w@ {
                assert(t.take(j + 1)[j] == x);
            }
        }
    }
    let ghost ws0 = texts(words@);
    let ghost ls0 = lists_view(lists@);
    let e = position_of_text(words.as_slice(), w.as_str());
    if e < words.len() {
        let mut l = lists[e].clone();
        assert(l@ =~= ls0[e as int]);
        assert(!l@.contains(k)) by {
            if l@.contains(k) {
                assert(ls0[e as int].contains(k));
            }
        }
        l.push(k);
        lists.set(e, l);
        proof {
            let ls1 = lists_view(lists@);
            assert(ls1 =~= ls0.update(e as int, ls0[e as int].push(k)));
            assert forall|e2: int| 0 <= e2 < ls1.len() implies (#[trigger] ls1[e2]).no_duplicates() by {
                if e2 == e {
                    assert forall|p: int, r: int| 0 <= p < ls1[e2].len() && 0 <= r < ls1[e2].len() && p != r
                        implies ls1[e2][p] != ls1[e2][r] by {
                        if p < ls0[e2].len() && r < ls0[e2].len() {
                        } else if p < ls0[e2].len() {
                            assert(ls0[e2].contains(ls1[e2][p]));
                        } else {
                            assert(ls0[e2].contains(ls1[e2][r]));
                        }
                    }
                }
            }
            assert forall|e2: int, i: usize| 0 <= e2 < ls1.len() implies (#[trigger] ls1[e2].contains(i) <==> ((i
                < k && tokens(songs[i as int].name@).contains(ws0[e2])) || (i == k && t.take(j + 1).contains(
                ws0[e2],
            )))) by {
                if e2 == e {
                    if ls1[e2].contains(i) && i != k {
                        let m = choose|m: int| 0 <= m < ls1[e2].len() && ls1[e2][m] == i;
                        assert(ls0[e2][m] == i);
                    }
                    if ls0[e2].contains(i) {
                        let m = choose|m: int| 0 <= m < ls0[e2].len() && ls0[e2][m] == i;
                        assert(ls1[e2][m] == i);
                    }
                    if i == k {
                        assert(ls1[e2][ls1[e2].len() - 1] == k);
                    }
                } else {
                    assert(ls1[e2] == ls0[e2]);
                    assert(ws0[e2] != w@) by {
                        assert(ws0[e2] != ws0[e as int]);
                    }
                }
            }
        }
    } else {
        words.push(w.clone());
        let mut fresh: Vec<usize> = Vec::new();
        fresh.push(k);
        lists.push(fresh);
        proof {
            let ws1 = texts(words@);
            let ls1 = lists_view(lists@);
            assert(ws1 =~= ws0.push(w@));
            assert(ls1 =~= ls0.push(seq![k]));
            assert(ws1.no_duplicates()) by {
                assert forall|p: int, r: int| 0 <= p < ws1.len() && 0 <= r < ws1.len() && p != r implies ws1[p]
                    != ws1[r] by {
                    if p < ws0.len() && r < ws0.len() {
                    } else if p < ws0.len() {
                        assert(ws0.contains(ws1[p]));
                    } else {
                        assert(ws0.contains(ws1[r]));
                    }
                }
            }
            assert forall|e2: int| 0 <= e2 < ls1.len() implies (#[trigger] ls1[e2]).no_duplicates() by {
                if e2 < ls0.len() {
                    assert(ls1[e2] == ls0[e2]);
                }
            }
            assert forall|e2: int, i: usize| 0 <= e2 < ls1.len() implies (#[trigger] ls1[e2].contains(i) <==> ((i
                < k && tokens(songs[i as int].name@).contains(ws1[e2])) || (i == k && t.take(j + 1).contains(
                ws1[e2],
            )))) by {
                if e2 < ls0.len() {
                    assert(ls1[e2] == ls0[e2]);
                    assert(ws1[e2] == ws0[e2]);
                    assert(ws0[e2] != w@) by {
                        assert(ws0.contains(ws0[e2]));
                    }
                } else {
                    assert(ws1[e2] == w@);
                    if i < k && tokens(songs[i as int].name@).contains(w@) {
                        assert(ws0.contains(w@));
                    }
                    if ls1[e2].contains(i) {
                        assert(ls1[e2][0] == i);
                    }
                    if i == k {
                        assert(ls1[e2][0] == k);
                    }
                }
            }
            assert forall|i: int, x: Seq<char>|
                0 <= i < k && #[trigger] tokens(songs[i].name@).contains(x) implies ws1.contains(x) by {
                let m = choose|m: int| 0 <= m < ws0.len() && ws0[m] == x;
                assert(ws1[m] == x);
            }
            assert forall|x: Seq<char>| k < songs.len() && t.take(j + 1).contains(x) implies ws1.contains(x) by {
                if x == w@ {
                    assert(ws1[ws0.len() as int] == x);
                } else {
                    assert(t.take(j).contains(x));
                    assert(ws0.contains(x));
                    let m = choose|m: int| 0 <= m < ws0.len() && ws0[m] == x;
                    assert(ws1[m] == x);
                }
            }
        }
    }
}

/// Builds the inverted index of the songs' names: each word, once, with
/// the songs whose names hold it.
fn build_index(songs: &[Song]) -> (r: (Vec<String>, Vec<Vec<usize>>))
    ensures
        index_covers(texts(r.0@), lists_view(r.1@), songs@, songs@.len() as int, 0),
{
    let mut words: Vec<String> = Vec::new();
    let mut lists: Vec<Vec<usize>> = Vec::new();
    assert(texts(words@) =~= Seq::<Seq<char>>::empty());
    assert(lists_view(lists@) =~= Seq::<Seq<usize>>::empty());
    for k in 0..songs.len()
        invariant
            index_covers(texts(words@), lists_view(lists@), songs@, k as int, 0),
    {
        let toks = tokenize(songs[k].name.as_str());
        let ghost t = tokens(songs@[k as int].name@);
        for j in 0..toks.len()
            invariant
                k < songs@.len(),
                t == tokens(songs@[k as int].name@),
                texts(toks@) == t,
                index_covers(texts(words@), lists_view(lists@), songs@, k as int, j as int),
        {
            assert(texts(toks@)[j as int] == toks@[j as int]@);
            index_word(&mut words, &mut lists, &toks[j], k, Ghost(songs@), Ghost(j as int));
        }
        proof {
            let ws = texts(words@);
            let ls = lists_view(lists@);
            assert(t.take(t.len() as int) =~= t);
            assert forall|e: int, i: usize| 0 <= e < ls.len() implies (#[trigger] ls[e].contains(i) <==> ((i < k
                + 1 && tokens(songs@[i as int].name@).contains(ws[e])) || (i == k + 1 && tokens(
                songs@[k + 1].name@,
            ).take(0).contains(ws[e])))) by {
                assert(!tokens(songs@[k + 1].name@).take(0).contains(ws[e]));
            }
            assert forall|i: int, w: Seq<char>|
                0 <= i < k + 1 && #[trigger] tokens(songs@[i].name@).contains(w) implies ws.contains(w) by {
                if i == k {
                    assert(t.take(t.len() as int).contains(w));
                }
            }
            assert forall|w: Seq<char>|
                k + 1 < songs@.len() && tokens(songs@[k + 1].name@).take(0).contains(w) implies ws.contains(w) by {
            }
        }
    }
    (words, lists)
}

/// Whether the index word `w` and the query word `q` match.
fn words_match(w: &str, q: &str) -> (r: bool)
    ensures
        r == word_matches(w@, q@),
{
    let wc = chars_of(w);
    let qc = chars_of(q);
    contains_chars(wc.as_slice(), qc.as_slice()) || contains_chars(qc.as_slice(), wc.as_slice())
}

/// The score of every song against the query words `qs`, counted through
/// the index; `None` when a score does not fit in a `u32`.
fn score_songs(songs: &[Song], words: &Vec<String>, lists: &Vec<Vec<usize>>, qs: &Vec<String>) -> (r: Option<
    Vec<u32>,
>)
    requires
        index_covers(texts(words@), lists_view(lists@), songs@, songs@.len() as int, 0),
    ensures
        r is Some <==> scores_fit(songs@, texts(qs@)),
        r matches Some(v) ==> v@.len() == songs@.len() && forall|i: int|
            0 <= i < songs@.len() ==> #[trigger] v@[i] == name_score(tokens(songs@[i].name@), texts(qs@)),
{
    let n = songs.len();
    let ghost ws = texts(words@);
    let ghost ls = lists_view(lists@);
    let ghost qv = texts(qs@);
    let mut scores: Vec<u32> = Vec::new();
    for i in 0..n
        invariant
            scores@.len() == i,
            forall|s: int| 0 <= s < i ==> #[trigger] scores@[s] == 0,
    {
        scores.push(0);
    }
    for qi in 0..qs.len()
        invariant
            n == songs@.len(),
            ws == texts(words@),
            ls == lists_view(lists@),
            qv == texts(qs@),
            index_covers(ws, ls, songs@, n as int, 0),
            scores@.len() == n,
            forall|s: int| 0 <= s < n ==> #[trigger] scores@[s] == name_score(tokens(songs@[s].name@), qv.take(qi as int)),
    {
        let ghost q = qv[qi as int];
        let ghost base = scores@;
        assert(qs@[qi as int]@ == q);
        for e in 0..words.len()
            invariant
                n == songs@.len(),
                ws == texts(words@),
                ls == lists_view(lists@),
                qv == texts(qs@),
                q == qv[qi as int],
                0 <= qi < qv.len(),
                index_covers(ws, ls, songs@, n as int, 0),
                scores@.len() == n,
                base.len() == n,
                forall|s: int| 0 <= s < n ==> #[trigger] base[s] == name_score(tokens(songs@[s].name@), qv.take(qi as int)),
                forall|s: int| 0 <= s < n ==> #[trigger] scores@[s] == base[s] + hits(ws.take(e as int), ls.take(e as int), q, s as usize),
        {
            assert(words@[e as int]@ == ws[e as int]);
            assert(lists@[e as int]@ == ls[e as int]);
            let hit = words_match(words[e].as_str(), qs[qi].as_str());
            proof {
                assert(ws.take(e + 1).drop_last() =~= ws.take(e as int));
                assert(ls.take(e + 1).drop_last() =~= ls.take(e as int));
                assert(ws.take(e + 1).last() == ws[e as int]);
                assert(ls.take(e + 1).last() == ls[e as int]);
            }
            if hit {
                let list = &lists[e];
                let ghost l = ls[e as int];
                for m in 0..list.len()
                    invariant
                        n == songs@.len(),
                        ws == texts(words@),
                        ls == lists_view(lists@),
                        qv == texts(qs@),
                        q == qv[qi as int],
                        0 <= qi < qv.len(),
                        0 <= e < ws.len(),
                        l == ls[e as int],
                        list@ == l,
                        word_matches(ws[e as int], q),
                        index_covers(ws, ls, songs@, n as int, 0),
                        scores@.len() == n,
                        base.len() == n,
                        forall|s: int| 0 <= s < n ==> #[trigger] base[s] == name_score(tokens(songs@[s].name@), qv.take(qi as int)),
                        forall|s: int| 0 <= s < n ==> #[trigger] scores@[s] == base[s] + hits(ws.take(e as int), ls.take(e as int), q, s as usize)
                            + if l.take(m as int).contains(s as usize) { 1nat } else { 0nat },
                {
                    let s0 = list[m];
                    assert(l.contains(s0));
                    assert(s0 < n);
                    assert(!l.take(m as int).contains(s0)) by {
                        if l.take(m as int).contains(s0) {
                            let p = choose|p: int| 0 <= p < m && #[trigger] l.take(m as int)[p] == s0;
                            assert(l[p] == l[m as int]);
                        }
                    }
                    assert forall|x: usize| #[trigger] l.take(m + 1).contains(x) <==> (l.take(m as int).contains(x) || x == s0) by {
                        if l.take(m + 1).contains(x) {
                            let p = choose|p: int| 0 <= p < m + 1 && #[trigger] l.take(m + 1)[p] == x;
                            if p < m {
                                assert(l.take(m as int)[p] == x);
                            }
                        }
                        if l.take(m as int).contains(x) {
                            let p = choose|p: int| 0 <= p < m && #[trigger] l.take(m as int)[p] == x;
                            assert(l.take(m + 1)[p] == x);
                        }
                        if x == s0 {
                            assert(l.take(m + 1)[m as int] == x);
                        }
                    }
                    if scores[s0] == 4294967295 {
                        proof {
                            let a = tokens(songs@[s0 as int].name@);
                            lemma_distinct_words_unique(pieces(normalized(songs@[s0 as int].name@)));
                            assert forall|w: Seq<char>| a.contains(w) implies ws.contains(w) by {
                            }
                            assert forall|e2: int| 0 <= e2 < ws.len() implies (#[trigger] ls[e2].contains(s0)
                                <==> a.contains(ws[e2])) by {
                            }
                            lemma_hits_count(ws, ls, a, q, s0);
                            lemma_hits_prefix(ws, ls, q, s0, e + 1);
                            lemma_name_score_prefix(a, qv, qi + 1);
                            assert(qv.take(qi + 1).drop_last() =~= qv.take(qi as int));
                            assert(qv.take(qi + 1).last() == q);
                            assert(name_score(a, qv.take(qi + 1)) == base[s0 as int] + match_count(a, q));
                            assert(ws.take(e + 1).drop_last() =~= ws.take(e as int));
                            assert(ls.take(e + 1).drop_last() =~= ls.take(e as int));
                            assert(ws.take(e + 1).last() == ws[e as int]);
                            assert(ls.take(e + 1).last() == ls[e as int]);
                            assert(hits(ws.take(e + 1), ls.take(e + 1), q, s0) == hits(
                                ws.take(e as int),
                                ls.take(e as int),
                                q,
                                s0,
                            ) + 1);
                            assert(scores@[s0 as int] == base[s0 as int] + hits(ws.take(e as int), ls.take(e as int), q, s0));
                            assert(name_score(a, qv) > u32::MAX);
                        }
                        return None;
                    }
                    scores.set(s0, scores[s0] + 1);
                }
                assert(l.take(l.len() as int) =~= l);
            }
        }
        proof {
            assert(ws.take(ws.len() as int) =~= ws);
            assert(ls.take(ls.len() as int) =~= ls);
            assert forall|s: int| 0 <= s < n implies #[trigger] scores@[s] == name_score(
                tokens(songs@[s].name@),
                qv.take(qi + 1),
            ) by {
                let a = tokens(songs@[s].name@);
                lemma_distinct_words_unique(pieces(normalized(songs@[s].name@)));
                assert forall|w: Seq<char>| a.contains(w) implies ws.contains(w) by {
                }
                assert forall|e2: int| 0 <= e2 < ws.len() implies (#[trigger] ls[e2].contains(s as usize)
                    <==> a.contains(ws[e2])) by {
                }
                lemma_hits_count(ws, ls, a, q, s as usize);
                assert(qv.take(qi + 1).drop_last() =~= qv.take(qi as int));
                assert(qv.take(qi + 1).last() == q);
            }
        }
    }
    assert(qv.take(qv.len() as int) =~= qv);
    assert forall|i: int| 0 <= i < songs@.len() implies #[trigger] name_score(tokens(songs@[i].name@), qv) <= u32::MAX by {
        assert(scores@[i] == name_score(tokens(songs@[i].name@), qv));
    }
    Some(scores)
}

/// The songs that the name search finds, ranked; `None` when a score does
/// not fit in a `u32`.
pub fn try_search_by_name(songs: &[Song], query: &str) -> (r: Option<Vec<Song>>)
    ensures
        r is Some <==> name_search_fits(songs@, query@),
        r matches Some(v) ==> v@ == name_result(songs@, query@),
        trimmed(query@).len() == 0 ==> (r matches Some(v) && v@ == songs@),
{
    let query_normalized = normalize_text(query);
    if query_normalized.as_str().is_empty() {
        return Some(copy_songs(songs));
    }
    let (words, lists) = build_index(songs);
    let query_words = tokenize(query_normalized.as_str());
    if query_words.len() == 0 {
        assert(texts(query_words@).len() == 0);
        return Some(Vec::new());
    }
    let ghost qs = texts(query_words@);
    let scores = match score_songs(songs, &words, &lists, &query_words) {
        Some(v) => v,
        None => {
            return None;
        },
    };
    let n = songs.len();
    let mut candidates: Vec<(usize, u32)> = Vec::new();
    for k in 0..n
        invariant
            n == songs@.len(),
            qs == texts(query_words@),
            scores@.len() == n,
            forall|i: int| 0 <= i < n ==> #[trigger] scores@[i] == name_score(tokens(songs@[i].name@), qs),
            candidates@ == name_candidates(songs@, qs, k as int),
            forall|c: int| 0 <= c < candidates@.len() ==> (#[trigger] candidates@[c]).0 < k,
    {
        assert(scores@[k as int] == name_score(tokens(songs@[k as int].name@), qs));
        if scores[k] > 0 {
            candidates.push((k, scores[k]));
        }
    }
    let ghost cands = candidates@;
    let rank = |a: &(usize, u32), b: &(usize, u32)| -> (r: bool)
        ensures
            r == name_rank_before(songs@)(*a, *b),
        {
            if a.1 != b.1 {
                a.1 > b.1
            } else {
                let na = if a.0 < songs.len() {
                    to_lower(songs[a.0].name.as_str())
                } else {
                    String::new()
                };
                let nb = if b.0 < songs.len() {
                    to_lower(songs[b.0].name.as_str())
                } else {
                    String::new()
                };
                crate::text::str_less(na.as_str(), nb.as_str())
            }
        };
    let sorted = sort_stable(candidates, &rank, Ghost(name_rank_before(songs@)));
    proof {
        crate::sorting::lemma_sort_by_permutes(cands, name_rank_before(songs@));
        assert forall|c: int| 0 <= c < sorted@.len() implies (#[trigger] sorted@[c]).0 < n by {
            assert(sorted@.to_multiset().count(sorted@[c]) > 0) by {
                vstd::seq_lib::to_multiset_contains(sorted@, sorted@[c]);
            }
            vstd::seq_lib::to_multiset_contains(cands, sorted@[c]);
            let j = choose|j: int| 0 <= j < cands.len() && cands[j] == sorted@[c];
        }
    }
    let mut result: Vec<Song> = Vec::new();
    for i in 0..sorted.len()
        invariant
            n == songs@.len(),
            forall|c: int| 0 <= c < sorted@.len() ==> (#[trigger] sorted@[c]).0 < n,
            result@ == sorted@.take(i as int).map_values(|p: (usize, u32)| songs@[p.0 as int]),
    {
        let idx = sorted[i].0;
        assert(sorted@[i as int].0 < n);
        result.push(songs[idx].clone());
        assert(result@ =~= sorted@.take(i + 1).map_values(|p: (usize, u32)| songs@[p.0 as int]));
    }
    assert(sorted@.take(sorted@.len() as int) =~= sorted@);
    Some(result)
}

/// The songs whose names share words with the query, best first.
///
/// The library's names and the query are normalised (trimmed, lowercase,
/// accents folded) and split into words. A song scores, for each word of
/// the query, the number of its own words that contain that word or are
/// contained in it, counted through an inverted index from words to songs.
/// The songs that score are ranked by score, then by lowercase name; songs
/// that tie in both keep library order. An empty query gives every song;
/// a query without words gives none.
pub fn search_by_name(songs: &[Song], query: &str) -> (r: Vec<Song>)
    requires
        name_search_fits(songs@, query@),
    ensures
        r@ == name_result(songs@, query@),
        trimmed(query@).len() == 0 ==> r@ == songs@,
{
    match try_search_by_name(songs, query) {
        Some(v) => v,
        None => vstd::pervasive::unreached(),
    }
}

// ---------------------------------------------------------------------
// Laws of the library and its searches
// ---------------------------------------------------------------------

/// Removing a song never removes a song that is playing, and leaves no
/// song of that id that is not playing.
pub proof fn lemma_remove_song_keeps_playing(songs: Seq<Song>, id: u32)
    ensures
        forall|i: int| 0 <= i < songs.len() && songs[i].is_playing ==> songs.filter(stays(id)).contains(
            #[trigger] songs[i],
        ),
        forall|k: int|
            0 <= k < songs.filter(stays(id)).len() ==> (#[trigger] songs.filter(stays(id))[k]).id != id
                || songs.filter(stays(id))[k].is_playing,
{
    broadcast use vstd::seq_lib::group_filter_ensures;

}

/// The ranking of the name search is a strict weak order.
pub proof fn lemma_name_rank_order(songs: Seq<Song>)
    ensures
        strict_weak_order(name_rank_before(songs)),
{
    let b = name_rank_before(songs);
    assert forall|a: (usize, u32)| !#[trigger] b(a, a) by {
        lemma_lex_irreflexive(rank_name(songs, a.0));
    }
    assert forall|x: (usize, u32), y: (usize, u32), z: (usize, u32)| #[trigger] b(x, y) && #[trigger] b(y, z) implies b(
        x,
        z,
    ) by {
        if x.1 == y.1 && y.1 == z.1 {
            lemma_lex_transitive(rank_name(songs, x.0), rank_name(songs, y.0), rank_name(songs, z.0));
        }
    }
    assert forall|x: (usize, u32), y: (usize, u32), z: (usize, u32)|
        !#[trigger] b(x, y) && !#[trigger] b(y, z) implies !b(x, z) by {
        if x.1 == y.1 && y.1 == z.1 {
            lemma_lex_not_lt(rank_name(songs, x.0), rank_name(songs, y.0), rank_name(songs, z.0));
        }
    }
}

/// The ranking of the genre search is a strict weak order.
pub proof fn lemma_genre_rank_order()
    ensures
        strict_weak_order(genre_rank_before()),
{
    let b = genre_rank_before();
    assert forall|a: (u32, Song)| !#[trigger] b(a, a) by {
        lemma_lex_irreflexive(lowercase(a.1.genre@));
        lemma_lex_irreflexive(lowercase(a.1.name@));
    }
    assert forall|x: (u32, Song), y: (u32, Song), z: (u32, Song)| #[trigger] b(x, y) && #[trigger] b(y, z) implies b(
        x,
        z,
    ) by {
        let (gx, gy, gz) = (lowercase(x.1.genre@), lowercase(y.1.genre@), lowercase(z.1.genre@));
        let (nx, ny, nz) = (lowercase(x.1.name@), lowercase(y.1.name@), lowercase(z.1.name@));
        if x.0 == y.0 && y.0 == z.0 {
            if lex_lt(gx, gy) && lex_lt(gy, gz) {
                lemma_lex_transitive(gx, gy, gz);
            } else if gx == gy && gy == gz {
                lemma_lex_transitive(nx, ny, nz);
            }
        }
    }
    assert forall|x: (u32, Song), y: (u32, Song), z: (u32, Song)|
        !#[trigger] b(x, y) && !#[trigger] b(y, z) implies !b(x, z) by {
        let (gx, gy, gz) = (lowercase(x.1.genre@), lowercase(y.1.genre@), lowercase(z.1.genre@));
        let (nx, ny, nz) = (lowercase(x.1.name@), lowercase(y.1.name@), lowercase(z.1.name@));
        if x.0 == y.0 && y.0 == z.0 {
            lemma_lex_not_lt(gx, gy, gz);
            if !lex_lt(gy, gx) {
                lemma_lex_equal(gx, gy);
            }
            if !lex_lt(gz, gy) {
                lemma_lex_equal(gy, gz);
            }
            if gx == gy && gy == gz {
                lemma_lex_not_lt(nx, ny, nz);
            } else if lex_lt(gx, gz) {
                if gx == gy {
                } else if gy == gz {
                } else {
                    lemma_lex_total(gx, gy);
                    lemma_lex_total(gy, gz);
                    lemma_lex_transitive(gz, gy, gx);
                    lemma_lex_transitive(gx, gz, gx);
                    lemma_lex_irreflexive(gx);
                }
            }
        }
    }
}

/// The year search turns a range given the wrong way round: swapping the
/// bounds gives the same songs. Every song it gives lies in the range, the
/// songs come in the order of their years, and every song of the library
/// in the range is there.
pub proof fn lemma_year_range_law(songs: Seq<Song>, from: u32, to: u32)
    ensures
        year_range_result(songs, from, to) == year_range_result(songs, to, from),
        forall|i: int|
            0 <= i < year_range_result(songs, from, to).len() ==> {
                let y = (#[trigger] year_range_result(songs, from, to)[i]).year;
                (from <= y <= to) || (to <= y <= from)
            },
        forall|i: int, j: int|
            0 <= i < j < year_range_result(songs, from, to).len() ==> #[trigger] year_range_result(
                songs,
                from,
                to,
            )[i].year <= #[trigger] year_range_result(songs, from, to)[j].year,
        forall|i: int|
            0 <= i < songs.len() && ((from <= songs[i].year <= to) || (to <= songs[i].year <= from))
                ==> year_range_result(songs, from, to).contains(#[trigger] songs[i]),
{
    broadcast use vstd::seq_lib::group_filter_ensures;
    broadcast use vstd::seq_lib::group_to_multiset_ensures;

    let start = if from <= to { from } else { to };
    let end = if from <= to { to } else { from };
    let f = songs.filter(in_years(start, end));
    let r = year_range_result(songs, from, to);
    crate::playlist::lemma_sort_by_year_orders(f);
    assert forall|i: int| 0 <= i < r.len() implies {
        let y = (#[trigger] r[i]).year;
        (from <= y <= to) || (to <= y <= from)
    } by {
        assert(r.to_multiset().count(r[i]) > 0);
        assert(f.contains(r[i]));
        let k = choose|k: int| 0 <= k < f.len() && f[k] == r[i];
        assert(in_years(start, end)(f[k]));
    }
    assert forall|i: int|
        0 <= i < songs.len() && ((from <= songs[i].year <= to) || (to <= songs[i].year <= from)) implies r.contains(
        #[trigger] songs[i],
    ) by {
        assert(in_years(start, end)(songs[i]));
        assert(f.contains(songs[i]));
        assert(f.to_multiset().count(songs[i]) > 0);
    }
}

/// Every candidate of the genre search is a song of the library with its
/// score, and that score is above 0.
proof fn lemma_genre_candidates(songs: Seq<Song>, query: Seq<char>)
    ensures
        forall|i: int|
            0 <= i < genre_candidates(songs, query).len() ==> {
                let p = #[trigger] genre_candidates(songs, query)[i];
                &&& p.0 == genre_score(p.1.genre@, query)
                &&& p.0 > 0
                &&& songs.contains(p.1)
            },
    decreases songs.len(),
{
    if songs.len() > 0 {
        let t = songs.drop_last();
        lemma_genre_candidates(t, query);
        let c = genre_candidates(songs, query);
        let ct = genre_candidates(t, query);
        assert forall|i: int| 0 <= i < c.len() implies {
            let p = #[trigger] c[i];
            &&& p.0 == genre_score(p.1.genre@, query)
            &&& p.0 > 0
            &&& songs.contains(p.1)
        } by {
            if i < ct.len() {
                assert(c[i] == ct[i]);
                let k = choose|k: int| 0 <= k < t.len() && t[k] == ct[i].1;
                assert(songs[k] == t[k]);
            } else {
                assert(songs[songs.len() - 1] == songs.last());
            }
        }
    }
}

/// The genre search ranks: each song it gives is a song of the library
/// whose normalised genre contains the normalised query, and a song's score
/// (3 equal, 2 starts with, 1 contains) is never below the score of a song
/// after it.
pub proof fn lemma_genre_ranked(songs: Seq<Song>, query: Seq<char>)
    requires
        normalized(query).len() > 0,
    ensures
        forall|i: int|
            0 <= i < genre_result(songs, query).len() ==> songs.contains(#[trigger] genre_result(songs, query)[i])
                && seq_contains(normalized(genre_result(songs, query)[i].genre@), normalized(query)),
        forall|i: int, j: int|
            0 <= i < j < genre_result(songs, query).len() ==> genre_score(
                (#[trigger] genre_result(songs, query)[i]).genre@,
                normalized(query),
            ) >= genre_score((#[trigger] genre_result(songs, query)[j]).genre@, normalized(query)),
        forall|i: int, j: int|
            0 <= i < j < genre_result(songs, query).len() && genre_score(
                (#[trigger] genre_result(songs, query)[i]).genre@,
                normalized(query),
            ) == genre_score((#[trigger] genre_result(songs, query)[j]).genre@, normalized(query)) ==> !lex_lt(
                lowercase(genre_result(songs, query)[j].genre@),
                lowercase(genre_result(songs, query)[i].genre@),
            ) && (lowercase(genre_result(songs, query)[j].genre@) == lowercase(genre_result(songs, query)[i].genre@)
                ==> !lex_lt(lowercase(genre_result(songs, query)[j].name@), lowercase(genre_result(songs, query)[i].name@))),
{
    broadcast use vstd::seq_lib::group_to_multiset_ensures;

    let q = normalized(query);
    let c = genre_candidates(songs, q);
    let sorted = sort_by(c, genre_rank_before());
    let r = genre_result(songs, query);
    lemma_genre_candidates(songs, q);
    lemma_genre_rank_order();
    lemma_sort_by_sorted(c, genre_rank_before());
    lemma_sort_by_permutes(c, genre_rank_before());
    assert forall|i: int| 0 <= i < sorted.len() implies {
        let p = #[trigger] sorted[i];
        p.0 == genre_score(p.1.genre@, q) && p.0 > 0 && songs.contains(p.1)
    } by {
        assert(sorted.to_multiset().count(sorted[i]) > 0);
        assert(c.contains(sorted[i]));
        let k = choose|k: int| 0 <= k < c.len() && c[k] == sorted[i];
        assert(c[k] == sorted[i]);
    }
    assert forall|i: int| 0 <= i < r.len() implies songs.contains(#[trigger] r[i]) && seq_contains(
        normalized(r[i].genre@),
        q,
    ) by {
        assert(r[i] == sorted[i].1);
        let p = sorted[i];
        assert(songs.contains(p.1));
        let g = normalized(p.1.genre@);
        assert(p.0 == genre_score(p.1.genre@, q) && p.0 > 0);
        if g == q {
            assert(g.subrange(0, 0int + q.len()) =~= q);
        } else if seq_starts_with(g, q) {
            assert(g.subrange(0, 0int + q.len()) == q);
        } else {
            assert(seq_contains(g, q));
        }
    }
    assert forall|i: int, j: int| 0 <= i < j < r.len() implies genre_score((#[trigger] r[i]).genre@, q) >= genre_score(
        (#[trigger] r[j]).genre@,
        q,
    ) by {
        assert(r[i] == sorted[i].1 && r[j] == sorted[j].1);
        assert(!genre_rank_before()(sorted[j], sorted[i]));
        let (pi, pj) = (sorted[i], sorted[j]);
        assert(pi.0 == genre_score(pi.1.genre@, q));
        assert(pj.0 == genre_score(pj.1.genre@, q));
    }
    assert forall|i: int, j: int|
        0 <= i < j < r.len() && genre_score((#[trigger] r[i]).genre@, q) == genre_score((#[trigger] r[j]).genre@, q)
            implies !lex_lt(lowercase(r[j].genre@), lowercase(r[i].genre@)) && (lowercase(r[j].genre@) == lowercase(
        r[i].genre@,
    ) ==> !lex_lt(lowercase(r[j].name@), lowercase(r[i].name@))) by {
        assert(r[i] == sorted[i].1 && r[j] == sorted[j].1);
        assert(!genre_rank_before()(sorted[j], sorted[i]));
        let (pi, pj) = (sorted[i], sorted[j]);
        assert(pi.0 == genre_score(pi.1.genre@, q));
        assert(pj.0 == genre_score(pj.1.genre@, q));
    }
}

/// Every candidate of the name search is a song index with its score,
/// above 0.
proof fn lemma_name_candidates(songs: Seq<Song>, qs: Seq<Seq<char>>, k: int)
    requires
        0 <= k <= songs.len(),
        songs.len() <= usize::MAX,
        scores_fit(songs, qs),
    ensures
        forall|c: int|
            0 <= c < name_candidates(songs, qs, k).len() ==> {
                let p = #[trigger] name_candidates(songs, qs, k)[c];
                &&& p.0 < k
                &&& p.1 == name_score(tokens(songs[p.0 as int].name@), qs)
                &&& p.1 > 0
            },
    decreases k,
{
    if k > 0 {
        lemma_name_candidates(songs, qs, k - 1);
        let r = name_candidates(songs, qs, k - 1);
        let all = name_candidates(songs, qs, k);
        assert(name_score(tokens(songs[k - 1].name@), qs) <= u32::MAX);
        assert forall|c: int| 0 <= c < all.len() implies {
            let p = #[trigger] all[c];
            &&& p.0 < k
            &&& p.1 == name_score(tokens(songs[p.0 as int].name@), qs)
            &&& p.1 > 0
        } by {
            if c < r.len() {
                assert(all[c] == r[c]);
            }
        }
    }
}

/// The name search ranks by score: each song it gives scores above 0, and a
/// song's score is never below the score of a song after it.
pub proof fn lemma_name_ranked(songs: Seq<Song>, query: Seq<char>)
    requires
        songs.len() <= usize::MAX,
        normalized(query).len() > 0,
        name_search_fits(songs, query),
    ensures
        forall|i: int|
            0 <= i < name_result(songs, query).len() ==> name_score(
                tokens((#[trigger] name_result(songs, query)[i]).name@),
                tokens(normalized(query)),
            ) > 0,
        forall|i: int, j: int|
            0 <= i < j < name_result(songs, query).len() ==> name_score(
                tokens((#[trigger] name_result(songs, query)[i]).name@),
                tokens(normalized(query)),
            ) >= name_score(tokens((#[trigger] name_result(songs, query)[j]).name@), tokens(normalized(query))),
        forall|i: int, j: int|
            0 <= i < j < name_result(songs, query).len() && name_score(
                tokens((#[trigger] name_result(songs, query)[i]).name@),
                tokens(normalized(query)),
            ) == name_score(tokens((#[trigger] name_result(songs, query)[j]).name@), tokens(normalized(query)))
                ==> !lex_lt(lowercase(name_result(songs, query)[j].name@), lowercase(name_result(songs, query)[i].name@)),
{
    broadcast use vstd::seq_lib::group_to_multiset_ensures;

    let qs = tokens(normalized(query));
    if qs.len() > 0 {
        let c = name_candidates(songs, qs, songs.len() as int);
        let sorted = sort_by(c, name_rank_before(songs));
        let r = name_result(songs, query);
        lemma_name_candidates(songs, qs, songs.len() as int);
        lemma_name_rank_order(songs);
        lemma_sort_by_sorted(c, name_rank_before(songs));
        lemma_sort_by_permutes(c, name_rank_before(songs));
        assert forall|i: int| 0 <= i < sorted.len() implies {
            let p = #[trigger] sorted[i];
            p.0 < songs.len() && p.1 == name_score(tokens(songs[p.0 as int].name@), qs) && p.1 > 0
        } by {
            assert(sorted.to_multiset().count(sorted[i]) > 0);
            assert(c.contains(sorted[i]));
            let k = choose|k: int| 0 <= k < c.len() && c[k] == sorted[i];
            assert(c[k] == sorted[i]);
        }
        assert forall|i: int| 0 <= i < r.len() implies name_score(tokens((#[trigger] r[i]).name@), qs) > 0 by {
            assert(r[i] == songs[sorted[i].0 as int]);
        }
        assert forall|i: int, j: int| 0 <= i < j < r.len() implies name_score(tokens((#[trigger] r[i]).name@), qs)
            >= name_score(tokens((#[trigger] r[j]).name@), qs) by {
            assert(r[i] == songs[sorted[i].0 as int] && r[j] == songs[sorted[j].0 as int]);
            assert(!name_rank_before(songs)(sorted[j], sorted[i]));
        }
        assert forall|i: int, j: int|
            0 <= i < j < r.len() && name_score(tokens((#[trigger] r[i]).name@), qs) == name_score(
                tokens((#[trigger] r[j]).name@),
                qs,
            ) implies !lex_lt(lowercase(r[j].name@), lowercase(r[i].name@)) by {
            assert(r[i] == songs[sorted[i].0 as int] && r[j] == songs[sorted[j].0 as int]);
            assert(!name_rank_before(songs)(sorted[j], sorted[i]));
        }
    }
}

/// The words of a text are never empty and never repeat.
pub proof fn lemma_tokens_words(text: Seq<char>)
    ensures
        tokens(text).no_duplicates(),
        forall|i: int| 0 <= i < tokens(text).len() ==> (#[trigger] tokens(text)[i]).len() > 0,
{
    lemma_distinct_words_unique(pieces(normalized(text)));
    lemma_distinct_words_nonempty(pieces(normalized(text)));
}

proof fn lemma_distinct_words_nonempty(ps: Seq<Seq<char>>)
    ensures
        forall|i: int| 0 <= i < distinct_words(ps).len() ==> (#[trigger] distinct_words(ps)[i]).len() > 0,
    decreases ps.len(),
{
    if ps.len() > 0 {
        lemma_distinct_words_nonempty(ps.drop_last());
        let r = distinct_words(ps.drop_last());
        assert forall|i: int| 0 <= i < distinct_words(ps).len() implies (#[trigger] distinct_words(ps)[i]).len() > 0 by {
            if i < r.len() {
                assert(distinct_words(ps)[i] == r[i]);
            }
        }
    }
}

/// A sequence that `filter_map` maps: every element that maps to a value
/// gives that value in the result.
proof fn lemma_filter_map_has<A, B>(s: Seq<A>, f: spec_fn(A) -> Option<B>, i: int)
    requires
        0 <= i < s.len(),
        f(s[i]) is Some,
    ensures
        s.filter_map(f).contains(f(s[i])->0),
    decreases s.len(),
{
    reveal_with_fuel(Seq::filter_map, 1);
    let t = s.drop_last();
    let r = t.filter_map(f);
    if i == s.len() - 1 {
        assert(s.filter_map(f) == r + seq![f(s[i])->0]);
        assert(s.filter_map(f)[r.len() as int] == f(s[i])->0);
    } else {
        assert(t[i] == s[i]);
        lemma_filter_map_has(t, f, i);
        let k = choose|k: int| 0 <= k < r.len() && r[k] == f(s[i])->0;
        match f(s.last()) {
            Some(v) => {
                assert(s.filter_map(f) == r + seq![v]);
                assert(s.filter_map(f)[k] == r[k]);
            },
            None => {},
        }
    }
}

/// Whatever a sequence holds, its image under a map holds the image.
proof fn lemma_map_has<A, B>(s: Seq<A>, f: spec_fn(A) -> B, x: A)
    requires
        s.contains(x),
    ensures
        s.map_values(f).contains(f(x)),
{
    let k = choose|k: int| 0 <= k < s.len() && s[k] == x;
    assert(s.map_values(f)[k] == f(x));
}

/// The genre search leaves no matching song out: every song of the library
/// whose normalised genre contains the normalised query is in the result
/// (with an empty query, every song is).
pub proof fn lemma_genre_search_complete(songs: Seq<Song>, query: Seq<char>)
    ensures
        forall|i: int|
            0 <= i < songs.len() && seq_contains(normalized((#[trigger] songs[i]).genre@), normalized(query))
                ==> genre_result(songs, query).contains(songs[i]),
{
    let q = normalized(query);
    assert forall|i: int|
        0 <= i < songs.len() && seq_contains(normalized((#[trigger] songs[i]).genre@), q) implies genre_result(
        songs,
        query,
    ).contains(songs[i]) by {
        if q.len() == 0 {
            assert(genre_result(songs, query)[i] == songs[i]);
        } else {
            let s = songs[i];
            let f = |s: Song|
                if genre_score(s.genre@, q) > 0 {
                    Some((genre_score(s.genre@, q), s))
                } else {
                    None
                };
            assert(genre_score(s.genre@, q) > 0);
            let c = genre_candidates(songs, q);
            assert(c == songs.filter_map(f));
            lemma_filter_map_has(songs, f, i);
            let p = (genre_score(s.genre@, q), s);
            assert(c.contains(p));
            lemma_sort_by_contains(c, genre_rank_before(), p);
            lemma_map_has(sort_by(c, genre_rank_before()), |p: (u32, Song)| p.1, p);
        }
    }
}

proof fn lemma_match_count_positive(ws: Seq<Seq<char>>, q: Seq<char>)
    ensures
        match_count(ws, q) > 0 <==> exists|k: int| 0 <= k < ws.len() && word_matches(#[trigger] ws[k], q),
    decreases ws.len(),
{
    if ws.len() > 0 {
        let t = ws.drop_last();
        lemma_match_count_positive(t, q);
        if exists|k: int| 0 <= k < t.len() && word_matches(#[trigger] t[k], q) {
            let k = choose|k: int| 0 <= k < t.len() && word_matches(#[trigger] t[k], q);
            assert(ws[k] == t[k]);
        }
        if exists|k: int| 0 <= k < ws.len() && word_matches(#[trigger] ws[k], q) {
            let k = choose|k: int| 0 <= k < ws.len() && word_matches(#[trigger] ws[k], q);
            if k < t.len() {
                assert(ws[k] == t[k]);
            } else {
                assert(ws[k] == ws.last());
            }
        }
        if word_matches(ws.last(), q) {
            assert(word_matches(ws[ws.len() - 1], q));
        }
    }
}

proof fn lemma_name_score_positive(ws: Seq<Seq<char>>, qs: Seq<Seq<char>>)
    ensures
        name_score(ws, qs) > 0 <==> exists|a: int, b: int|
            0 <= a < ws.len() && 0 <= b < qs.len() && (seq_contains(#[trigger] ws[a], #[trigger] qs[b])
                || seq_contains(qs[b], ws[a])),
    decreases qs.len(),
{
    if qs.len() > 0 {
        let t = qs.drop_last();
        lemma_name_score_positive(ws, t);
        lemma_match_count_positive(ws, qs.last());
        if exists|a: int, b: int|
            0 <= a < ws.len() && 0 <= b < qs.len() && (seq_contains(#[trigger] ws[a], #[trigger] qs[b])
                || seq_contains(qs[b], ws[a])) {
            let (a, b) = choose|a: int, b: int|
                0 <= a < ws.len() && 0 <= b < qs.len() && (seq_contains(#[trigger] ws[a], #[trigger] qs[b])
                    || seq_contains(qs[b], ws[a]));
            if b < t.len() {
                assert(qs[b] == t[b]);
            } else {
                assert(word_matches(ws[a], qs.last()));
            }
        }
        if exists|a: int, b: int|
            0 <= a < ws.len() && 0 <= b < t.len() && (seq_contains(#[trigger] ws[a], #[trigger] t[b])
                || seq_contains(t[b], ws[a])) {
            let (a, b) = choose|a: int, b: int|
                0 <= a < ws.len() && 0 <= b < t.len() && (seq_contains(#[trigger] ws[a], #[trigger] t[b])
                    || seq_contains(t[b], ws[a]));
            assert(qs[b] == t[b]);
        }
        if match_count(ws, qs.last()) > 0 {
            let k = choose|k: int| 0 <= k < ws.len() && word_matches(#[trigger] ws[k], qs.last());
            assert(qs[qs.len() - 1] == qs.last());
            assert(seq_contains(ws[k], qs[qs.len() - 1]) || seq_contains(qs[qs.len() - 1], ws[k]));
        }
    }
}

proof fn lemma_name_candidates_has(songs: Seq<Song>, qs: Seq<Seq<char>>, k: int, i: int)
    requires
        0 <= i < k <= songs.len(),
        songs.len() <= usize::MAX,
        name_score(tokens(songs[i].name@), qs) > 0,
    ensures
        name_candidates(songs, qs, k).contains((i as usize, name_score(tokens(songs[i].name@), qs) as u32)),
    decreases k,
{
    let r = name_candidates(songs, qs, k - 1);
    let p = (i as usize, name_score(tokens(songs[i].name@), qs) as u32);
    if i == k - 1 {
        assert(name_candidates(songs, qs, k) == r.push(p));
        assert(name_candidates(songs, qs, k)[r.len() as int] == p);
    } else {
        lemma_name_candidates_has(songs, qs, k - 1, i);
        let j = choose|j: int| 0 <= j < r.len() && r[j] == p;
        let sc = name_score(tokens(songs[k - 1].name@), qs);
        if sc > 0 {
            assert(name_candidates(songs, qs, k)[j] == r[j]);
        }
    }
}

/// The name search leaves no matching song out, and gives no other: a song
/// of the library is in the result exactly when a word of its name and a
/// word of the query contain one another (with an empty query, every song
/// is in the result).
pub proof fn lemma_name_search_complete(songs: Seq<Song>, query: Seq<char>)
    requires
        songs.len() <= usize::MAX,
        name_search_fits(songs, query),
    ensures
        normalized(query).len() == 0 ==> name_result(songs, query) == songs,
        normalized(query).len() > 0 ==> forall|i: int|
            0 <= i < songs.len() ==> (name_result(songs, query).contains(#[trigger] songs[i]) <==> exists|
                a: int,
                b: int,
            |
                0 <= a < tokens(songs[i].name@).len() && 0 <= b < tokens(normalized(query)).len() && (seq_contains(
                    #[trigger] tokens(songs[i].name@)[a],
                    #[trigger] tokens(normalized(query))[b],
                ) || seq_contains(tokens(normalized(query))[b], tokens(songs[i].name@)[a]))),
{
    let qn = normalized(query);
    let qs = tokens(qn);
    if qn.len() > 0 {
        lemma_name_ranked(songs, query);
        let r = name_result(songs, query);
        assert forall|i: int| 0 <= i < songs.len() implies (r.contains(#[trigger] songs[i]) <==> exists|a: int, b: int|
            0 <= a < tokens(songs[i].name@).len() && 0 <= b < qs.len() && (seq_contains(
                #[trigger] tokens(songs[i].name@)[a],
                #[trigger] qs[b],
            ) || seq_contains(qs[b], tokens(songs[i].name@)[a]))) by {
            let ws = tokens(songs[i].name@);
            lemma_name_score_positive(ws, qs);
            if name_score(ws, qs) > 0 {
                assert(qs.len() > 0);
                let c = name_candidates(songs, qs, songs.len() as int);
                let p = (i as usize, name_score(ws, qs) as u32);
                lemma_name_candidates_has(songs, qs, songs.len() as int, i);
                lemma_sort_by_contains(c, name_rank_before(songs), p);
                lemma_map_has(sort_by(c, name_rank_before(songs)), |p: (usize, u32)| songs[p.0 as int], p);
            }
            if r.contains(songs[i]) {
                let k = choose|k: int| 0 <= k < r.len() && r[k] == songs[i];
                assert(name_score(tokens(r[k].name@), qs) > 0);
            }
        }
    }
}

/// The genre search puts exact matches first and then genres that start
/// with the query: a song whose normalised genre equals the normalised
/// query never comes after one whose genre does not, and a song whose genre
/// starts with the query never comes after one whose genre does not.
pub proof fn lemma_genre_search_tiers(songs: Seq<Song>, query: Seq<char>)
    requires
        normalized(query).len() > 0,
    ensures
        forall|i: int, j: int|
            0 <= i < j < genre_result(songs, query).len() && normalized(
                (#[trigger] genre_result(songs, query)[j]).genre@,
            ) == normalized(query) ==> normalized((#[trigger] genre_result(songs, query)[i]).genre@)
                == normalized(query),
        forall|i: int, j: int|
            0 <= i < j < genre_result(songs, query).len() && seq_starts_with(
                normalized((#[trigger] genre_result(songs, query)[j]).genre@),
                normalized(query),
            ) ==> seq_starts_with(
                normalized((#[trigger] genre_result(songs, query)[i]).genre@),
                normalized(query),
            ),
{
    let q = normalized(query);
    let r = genre_result(songs, query);
    lemma_genre_ranked(songs, query);
    assert(q.subrange(0, q.len() as int) =~= q);
    assert forall|i: int, j: int| 0 <= i < j < r.len() && normalized((#[trigger] r[j]).genre@) == q implies normalized(
        (#[trigger] r[i]).genre@,
    ) == q by {
        assert(genre_score(r[j].genre@, q) == 3);
        assert(genre_score(r[i].genre@, q) >= genre_score(r[j].genre@, q));
    }
    assert forall|i: int, j: int|
        0 <= i < j < r.len() && seq_starts_with(normalized((#[trigger] r[j]).genre@), q) implies seq_starts_with(
        normalized((#[trigger] r[i]).genre@),
        q,
    ) by {
        assert(genre_score(r[j].genre@, q) >= 2);
        assert(genre_score(r[i].genre@, q) >= genre_score(r[j].genre@, q));
        if normalized(r[i].genre@) == q {
            assert(normalized(r[i].genre@).subrange(0, q.len() as int) =~= q);
        }
    }
}

/// Removing a song keeps exactly, in order, the songs of other ids and the
/// songs that are playing.
pub proof fn lemma_remove_song_law(songs: Seq<Song>, id: u32)
    ensures
        songs.filter(stays(id)) == songs.filter(|s: Song| s.id != id || s.is_playing),
        forall|i: int| 0 <= i < songs.len() && songs[i].id != id ==> songs.filter(stays(id)).contains(
            #[trigger] songs[i],
        ),
{
    broadcast use vstd::seq_lib::group_filter_ensures;

    assert(stays(id) =~= (|s: Song| s.id != id || s.is_playing));
}

} // verus!
