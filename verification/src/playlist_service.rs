//! The collection of playlists: creating, deleting, finding and changing
//! playlists by name. Every operation returns a new collection (or an error
//! message) and leaves its argument as it was.

use vstd::prelude::*;
use crate::song::Song;
use crate::playlist::{Playlist, PlaylistView, create_playlist, views, copy_playlists, name_before, year_before, without_id,
    summary_text, artists_of, add_song_to_playlist, remove_song_from_playlist, sort_by_name, sort_by_year,
    summarize_playlist, filter_playlist, select, lemma_select_filter, lemma_sort_by_name_orders,
    lemma_sort_by_year_orders};
use crate::sorting::sort_by;
use crate::text::{concat, str_equal, string_from, seq_contains, lowercase, parsed_u32, distinct, texts, lex_lt,
    to_lower, chars_of, contains_chars, parse_u32};

verus! {

// ---------------------------------------------------------------------
// Finding playlists by name
// ---------------------------------------------------------------------

/// Some playlist of `pls` is called `name`.
pub open spec fn has_named(pls: Seq<PlaylistView>, name: Seq<char>) -> bool {
    exists|i: int| 0 <= i < pls.len() && #[trigger] pls[i].name == name
}

/// The index of the first playlist of `pls` called `name`, or the length of
/// `pls` when there is none.
pub open spec fn first_named(pls: Seq<PlaylistView>, name: Seq<char>) -> int
    decreases pls.len(),
{
    if pls.len() == 0 {
        0
    } else if pls[0].name == name {
        0
    } else {
        1 + first_named(pls.drop_first(), name)
    }
}

/// `i` is where the first playlist called `name` stands (or the end).
pub proof fn lemma_first_named(pls: Seq<PlaylistView>, name: Seq<char>, i: int)
    requires
        0 <= i <= pls.len(),
        forall|k: int| 0 <= k < i ==> #[trigger] pls[k].name != name,
        i < pls.len() ==> pls[i].name == name,
    ensures
        first_named(pls, name) == i,
        has_named(pls, name) <==> i < pls.len(),
    decreases i,
{
    if i > 0 {
        let t = pls.drop_first();
        assert forall|k: int| 0 <= k < i - 1 implies #[trigger] t[k].name != name by {
            assert(t[k] == pls[k + 1]);
        }
        if i < pls.len() {
            assert(t[i - 1] == pls[i]);
        }
        assert(pls[0].name != name);
        lemma_first_named(t, name, i - 1);
        if has_named(t, name) {
            let k = choose|k: int| 0 <= k < t.len() && #[trigger] t[k].name == name;
            assert(pls[k + 1] == t[k]);
        }
        if has_named(pls, name) {
            let k = choose|k: int| 0 <= k < pls.len() && #[trigger] pls[k].name == name;
            assert(k >= i);
            if k > 0 {
                assert(t[k - 1] == pls[k]);
            }
        }
    } else {
        if i < pls.len() {
            assert(pls[0].name == name);
        }
    }
}

/// The index in `playlists` of the first playlist called `name`, or the
/// number of playlists when there is none.
pub fn find_named(playlists: &[Playlist], name: &str) -> (r: usize)
    ensures
        r == first_named(views(playlists@), name@),
        r <= playlists@.len(),
        has_named(views(playlists@), name@) <==> r < playlists@.len(),
{
    let ghost vs = views(playlists@);
    let mut i: usize = 0;
    while i < playlists.len()
        invariant
            vs == views(playlists@),
            0 <= i <= playlists@.len(),
            forall|k: int| 0 <= k < i ==> #[trigger] vs[k].name != name@,
        decreases playlists@.len() - i,
    {
        if str_equal(playlists[i].name.as_str(), name) {
            assert(vs[i as int].name == name@);
            proof {
                lemma_first_named(vs, name@, i as int);
            }
            return i;
        }
        assert(vs[i as int].name != name@);
        i = i + 1;
    }
    proof {
        lemma_first_named(vs, name@, i as int);
    }
    i
}

// ---------------------------------------------------------------------
// Messages
// ---------------------------------------------------------------------

/// The message for a name that is already taken.
pub open spec fn taken_message(name: Seq<char>) -> Seq<char> {
    "Ya existe una playlist llamada '"@ + name + "'"@
}

/// The message for deleting a playlist that does not exist.
pub open spec fn absent_message(name: Seq<char>) -> Seq<char> {
    "No existe una playlist llamada '"@ + name + "'"@
}

/// The message for a playlist that was not found.
pub open spec fn not_found_message(name: Seq<char>) -> Seq<char> {
    "Playlist '"@ + name + "' no encontrada"@
}

/// The message for a field that cannot be filtered by.
pub open spec fn bad_field_message(field: Seq<char>) -> Seq<char> {
    "Campo '"@ + field + "' no válido. Usa: name, artist, genre, year"@
}

fn quoted(before: &str, name: &str, after: &str) -> (r: String)
    ensures
        r@ == before@ + name@ + after@,
{
    let a = concat(before, name);
    concat(a.as_str(), after)
}

// ---------------------------------------------------------------------
// What each operation gives
// ---------------------------------------------------------------------

/// What a result holds: the views of the playlists, or the message.
pub open spec fn list_result(r: Result<Vec<Playlist>, String>) -> Result<Seq<PlaylistView>, Seq<char>> {
    match r {
        Ok(v) => Ok(views(v@)),
        Err(m) => Err(m@),
    }
}

/// What a result holds: the view of the playlist, or the message.
pub open spec fn playlist_result(r: Result<Playlist, String>) -> Result<PlaylistView, Seq<char>> {
    match r {
        Ok(p) => Ok(p@),
        Err(m) => Err(m@),
    }
}

/// What a result holds: the text, or the message.
pub open spec fn text_result(r: Result<String, String>) -> Result<Seq<char>, Seq<char>> {
    match r {
        Ok(s) => Ok(s@),
        Err(m) => Err(m@),
    }
}

/// Creating a playlist: refused when the name is taken, else the new empty
/// playlist comes last.
pub open spec fn created(pls: Seq<PlaylistView>, name: Seq<char>) -> Result<Seq<PlaylistView>, Seq<char>> {
    if has_named(pls, name) {
        Err(taken_message(name))
    } else {
        Ok(pls.push(PlaylistView { name, songs: Seq::empty() }))
    }
}

/// Deleting a playlist: refused when none has the name, else every
/// playlist with the name goes.
pub open spec fn deleted(pls: Seq<PlaylistView>, name: Seq<char>) -> Result<Seq<PlaylistView>, Seq<char>> {
    if !has_named(pls, name) {
        Err(absent_message(name))
    } else {
        Ok(pls.filter(|p: PlaylistView| p.name != name))
    }
}

/// Changes every playlist called `name` by `change`; refused when none has
/// the name.
pub open spec fn changed(
    pls: Seq<PlaylistView>,
    name: Seq<char>,
    change: spec_fn(PlaylistView) -> PlaylistView,
) -> Result<Seq<PlaylistView>, Seq<char>> {
    if !has_named(pls, name) {
        Err(not_found_message(name))
    } else {
        Ok(pls.map_values(|p: PlaylistView| if p.name == name { change(p) } else { p }))
    }
}

/// A playlist with `song` added at the end.
pub open spec fn with_song(song: Song) -> spec_fn(PlaylistView) -> PlaylistView {
    |p: PlaylistView| PlaylistView { name: p.name, songs: p.songs.push(song) }
}

/// A playlist without the songs whose id is `song_id`.
pub open spec fn without_song(song_id: u32) -> spec_fn(PlaylistView) -> PlaylistView {
    |p: PlaylistView| PlaylistView { name: p.name, songs: without_id(p.songs, song_id) }
}

/// A playlist sorted by `by`: "name" or "year"; any other criterion leaves
/// it as it is.
pub open spec fn sorted_by_criterion(by: Seq<char>) -> spec_fn(PlaylistView) -> PlaylistView {
    |p: PlaylistView|
        if by == "name"@ {
            PlaylistView { name: p.name, songs: sort_by(p.songs, name_before()) }
        } else if by == "year"@ {
            PlaylistView { name: p.name, songs: sort_by(p.songs, year_before()) }
        } else {
            p
        }
}

/// The first playlist called `name`, or the not-found message.
pub open spec fn found(pls: Seq<PlaylistView>, name: Seq<char>) -> Result<PlaylistView, Seq<char>> {
    if has_named(pls, name) {
        Ok(pls[first_named(pls, name)])
    } else {
        Err(not_found_message(name))
    }
}

/// The song filter for a field and a query: the field's text contains the
/// query, both in lowercase; for "year", the year equals the query read as a
/// number (0 when it is not one).
pub open spec fn field_filter(field: Seq<char>, query: Seq<char>) -> spec_fn(Song) -> bool {
    |s: Song|
        if field == "name"@ {
            seq_contains(lowercase(s.name@), lowercase(query))
        } else if field == "artist"@ {
            seq_contains(lowercase(s.artist@), lowercase(query))
        } else if field == "genre"@ {
            seq_contains(lowercase(s.genre@), lowercase(query))
        } else {
            s.year == year_query(query)
        }
}

/// The year that a query names: its value as a `u32`, or 0.
pub open spec fn year_query(query: Seq<char>) -> u32 {
    match parsed_u32(query) {
        Some(v) => v,
        None => 0,
    }
}

/// A field that songs can be filtered by.
pub open spec fn is_filter_field(field: Seq<char>) -> bool {
    field == "name"@ || field == "artist"@ || field == "genre"@ || field == "year"@
}

/// Filtering the first playlist called `name` by a field.
pub open spec fn filtered(
    pls: Seq<PlaylistView>,
    name: Seq<char>,
    field: Seq<char>,
    query: Seq<char>,
) -> Result<PlaylistView, Seq<char>> {
    if !has_named(pls, name) {
        Err(not_found_message(name))
    } else if !is_filter_field(field) {
        Err(bad_field_message(field))
    } else {
        let p = pls[first_named(pls, name)];
        Ok(PlaylistView { name: p.name, songs: p.songs.filter(field_filter(field, query)) })
    }
}

/// The summary of the first playlist called `name`.
pub open spec fn summarized(pls: Seq<PlaylistView>, name: Seq<char>) -> Result<Seq<char>, Seq<char>> {
    if !has_named(pls, name) {
        Err(not_found_message(name))
    } else {
        let p = pls[first_named(pls, name)];
        Ok(summary_text(p.name, p.songs.len(), distinct(artists_of(p.songs)).len()))
    }
}

/// The names of the playlists, in order.
pub open spec fn names_of(pls: Seq<PlaylistView>) -> Seq<Seq<char>> {
    pls.map_values(|p: PlaylistView| p.name)
}

// ---------------------------------------------------------------------
// The operations
// ---------------------------------------------------------------------

/// A new collection with an empty playlist called `name` at the end,
/// unless a playlist of that name exists already.
pub fn create(playlists: &[Playlist], name: &str) -> (r: Result<Vec<Playlist>, String>)
    ensures
        list_result(r) == created(views(playlists@), name@),
{
    let k = find_named(playlists, name);
    if k < playlists.len() {
        return Err(quoted("Ya existe una playlist llamada '", name, "'"));
    }
    let mut v = copy_playlists(playlists);
    v.push(create_playlist(name));
    assert(views(v@) =~= views(playlists@).push(PlaylistView { name: name@, songs: Seq::empty() }));
    Ok(v)
}

/// A new collection without the playlists called `name`, unless there is
/// none of that name.
pub fn delete(playlists: &[Playlist], name: &str) -> (r: Result<Vec<Playlist>, String>)
    ensures
        list_result(r) == deleted(views(playlists@), name@),
{
    let k = find_named(playlists, name);
    if k == playlists.len() {
        return Err(quoted("No existe una playlist llamada '", name, "'"));
    }
    let ghost vs = views(playlists@);
    let ghost keep = |p: PlaylistView| p.name != name@;
    let mut v: Vec<Playlist> = Vec::new();
    for i in 0..playlists.len()
        invariant
            vs == views(playlists@),
            keep == (|p: PlaylistView| p.name != name@),
            views(v@) == vs.take(i as int).filter(keep),
    {
        proof {
            reveal_with_fuel(Seq::filter, 1);
        }
        assert(vs.take(i + 1).drop_last() =~= vs.take(i as int));
        assert(vs.take(i + 1).last() == playlists@[i as int]@);
        if !str_equal(playlists[i].name.as_str(), name) {
            let ghost before = v@;
            v.push(playlists[i].clone());
            assert(views(v@) =~= views(before).push(playlists@[i as int]@));
        }
    }
    assert(vs.take(vs.len() as int) =~= vs);
    assert(views(v@) == vs.filter(|p: PlaylistView| p.name != name@));
    Ok(v)
}

/// Applies `change` to every playlist called `name`; the others are copied.
fn change_named<F: Fn(&Playlist) -> Playlist>(
    playlists: &[Playlist],
    name: &str,
    change: &F,
    Ghost(spec_change): Ghost<spec_fn(PlaylistView) -> PlaylistView>,
) -> (r: Vec<Playlist>)
    requires
        forall|p: &Playlist| #[trigger] change.requires((p,)),
        forall|p: &Playlist, q: Playlist| #[trigger] change.ensures((p,), q) ==> q@ == spec_change(p@),
    ensures
        views(r@) == views(playlists@).map_values(
            |p: PlaylistView| if p.name == name@ { spec_change(p) } else { p },
        ),
{
    let ghost target = views(playlists@).map_values(
        |p: PlaylistView| if p.name == name@ { spec_change(p) } else { p },
    );
    let mut v: Vec<Playlist> = Vec::new();
    for i in 0..playlists.len()
        invariant
            target == views(playlists@).map_values(
                |p: PlaylistView| if p.name == name@ { spec_change(p) } else { p },
            ),
            v@.len() == i,
            forall|k: int| 0 <= k < i ==> (#[trigger] v@[k])@ == target[k],
            forall|p: &Playlist| #[trigger] change.requires((p,)),
            forall|p: &Playlist, q: Playlist| #[trigger] change.ensures((p,), q) ==> q@ == spec_change(p@),
    {
        if str_equal(playlists[i].name.as_str(), name) {
            v.push(change(&playlists[i]));
        } else {
            v.push(playlists[i].clone());
        }
    }
    assert(views(v@) =~= target);
    v
}

/// A new collection in which every playlist called `playlist_name` has
/// `song` added at the end, unless there is none of that name.
pub fn add_song(playlists: &[Playlist], playlist_name: &str, song: Song) -> (r: Result<
    Vec<Playlist>,
    String,
>)
    ensures
        list_result(r) == changed(views(playlists@), playlist_name@, with_song(song)),
{
    let k = find_named(playlists, playlist_name);
    if k == playlists.len() {
        return Err(quoted("Playlist '", playlist_name, "' no encontrada"));
    }
    let s = &song;
    let add = |p: &Playlist| -> (q: Playlist)
        ensures
            q@ == with_song(*s)(p@),
        { add_song_to_playlist(p, s.clone()) };
    let v = change_named(playlists, playlist_name, &add, Ghost(with_song(song)));
    assert(views(v@) =~= views(playlists@).map_values(
        |p: PlaylistView| if p.name == playlist_name@ { with_song(song)(p) } else { p },
    ));
    Ok(v)
}

/// A new collection in which every playlist called `playlist_name` loses
/// the songs whose id is `song_id`, unless there is none of that name.
pub fn remove_song(playlists: &[Playlist], playlist_name: &str, song_id: u32) -> (r: Result<
    Vec<Playlist>,
    String,
>)
    ensures
        list_result(r) == changed(views(playlists@), playlist_name@, without_song(song_id)),
{
    let k = find_named(playlists, playlist_name);
    if k == playlists.len() {
        return Err(quoted("Playlist '", playlist_name, "' no encontrada"));
    }
    let remove = |p: &Playlist| -> (q: Playlist)
        ensures
            q@ == without_song(song_id)(p@),
        { remove_song_from_playlist(p, song_id) };
    let v = change_named(playlists, playlist_name, &remove, Ghost(without_song(song_id)));
    assert(views(v@) =~= views(playlists@).map_values(
        |p: PlaylistView| if p.name == playlist_name@ { without_song(song_id)(p) } else { p },
    ));
    Ok(v)
}

/// A new collection in which every playlist called `playlist_name` is
/// sorted by `by` ("name" or "year"; other criteria change nothing),
/// unless there is none of that name.
pub fn sort(playlists: &[Playlist], playlist_name: &str, by: &str) -> (r: Result<Vec<Playlist>, String>)
    ensures
        list_result(r) == changed(views(playlists@), playlist_name@, sorted_by_criterion(by@)),
{
    let k = find_named(playlists, playlist_name);
    if k == playlists.len() {
        return Err(quoted("Playlist '", playlist_name, "' no encontrada"));
    }
    let by_name = str_equal(by, "name");
    let by_year = str_equal(by, "year");
    let order = |p: &Playlist| -> (q: Playlist)
        requires
            by_name == (by@ == "name"@),
            by_year == (by@ == "year"@),
        ensures
            q@ == sorted_by_criterion(by@)(p@),
        {
            if by_name {
                sort_by_name(p)
            } else if by_year {
                sort_by_year(p)
            } else {
                p.clone()
            }
        };
    let v = change_named(playlists, playlist_name, &order, Ghost(sorted_by_criterion(by@)));
    assert(views(v@) =~= views(playlists@).map_values(
        |p: PlaylistView| if p.name == playlist_name@ { sorted_by_criterion(by@)(p) } else { p },
    ));
    Ok(v)
}

/// A copy of the first playlist called `name`.
pub fn get(playlists: &[Playlist], name: &str) -> (r: Result<Playlist, String>)
    ensures
        playlist_result(r) == found(views(playlists@), name@),
{
    let k = find_named(playlists, name);
    if k == playlists.len() {
        return Err(quoted("Playlist '", name, "' no encontrada"));
    }
    Ok(playlists[k].clone())
}

/// The names of the playlists, in order.
pub fn list_names(playlists: &[Playlist]) -> (r: Vec<String>)
    ensures
        texts(r@) == names_of(views(playlists@)),
{
    let mut r: Vec<String> = Vec::new();
    for i in 0..playlists.len()
        invariant
            r@.len() == i,
            forall|k: int| 0 <= k < i ==> (#[trigger] r@[k])@ == playlists@[k].name@,
    {
        r.push(playlists[i].name.clone());
    }
    assert(texts(r@) =~= names_of(views(playlists@)));
    r
}

/// The summary line of the first playlist called `name`.
pub fn summarize(playlists: &[Playlist], name: &str) -> (r: Result<String, String>)
    requires
        has_named(views(playlists@), name@) ==> playlists@[first_named(views(playlists@), name@)].songs@.len()
            <= u32::MAX,
    ensures
        text_result(r) == summarized(views(playlists@), name@),
{
    let k = find_named(playlists, name);
    if k == playlists.len() {
        return Err(quoted("Playlist '", name, "' no encontrada"));
    }
    assert(views(playlists@)[k as int] == playlists@[k as int]@);
    Ok(summarize_playlist(&playlists[k]))
}

/// The text field number `which` of `s`: 0 name, 1 artist, otherwise genre.
spec fn text_field(which: u8, s: Song) -> Seq<char> {
    if which == 0 {
        s.name@
    } else if which == 1 {
        s.artist@
    } else {
        s.genre@
    }
}

/// Keeps the songs of `pl` whose text field `which` (0 name, 1 artist,
/// 2 genre) contains `query`, both in lowercase.
fn filter_text_field(pl: &Playlist, which: u8, field: Ghost<Seq<char>>, query: &str) -> (r: Playlist)
    requires
        which < 3,
        which == 0 ==> field@ == "name"@,
        which == 1 ==> field@ == "artist"@,
        which == 2 ==> field@ == "genre"@,
    ensures
        r@ == (PlaylistView { name: pl.name@, songs: pl.songs@.filter(field_filter(field@, query@)) }),
{
    proof {
        reveal_strlit("name");
        reveal_strlit("artist");
        reveal_strlit("genre");
        assert forall|t: Song|
            #[trigger] field_filter(field@, query@)(t) == seq_contains(
                lowercase(text_field(which, t)),
                lowercase(query@),
            ) by {
            if which == 1 {
                assert(field@.len() == 6);
            } else if which == 2 {
                assert(field@.len() == 5 && field@[0] == 'g');
            }
        }
    }
    let lq = to_lower(query);
    let q = chars_of(lq.as_str());
    let test = |s: &Song| -> (b: bool)
        requires
            q@ == lowercase(query@),
            which < 3,
            forall|t: Song|
                #[trigger] field_filter(field@, query@)(t) == seq_contains(
                    lowercase(text_field(which, t)),
                    lowercase(query@),
                ),
        ensures
            b == field_filter(field@, query@)(*s),
        {
            let text = if which == 0 {
                to_lower(s.name.as_str())
            } else if which == 1 {
                to_lower(s.artist.as_str())
            } else {
                to_lower(s.genre.as_str())
            };
            let cs = chars_of(text.as_str());
            let b = contains_chars(cs.as_slice(), q.as_slice());
            assert(b == field_filter(field@, query@)(*s));
            b
        };
    let r = filter_playlist(pl, test);
    proof {
        let keep = choose|keep: Seq<bool>|
            {
                &&& keep.len() == pl.songs@.len()
                &&& forall|i: int| 0 <= i < keep.len() ==> #[trigger] test.ensures((&pl.songs@[i],), keep[i])
                &&& r.songs@ == select(pl.songs@, keep)
            };
        assert forall|i: int| 0 <= i < pl.songs@.len() implies keep[i] == field_filter(field@, query@)(
            #[trigger] pl.songs@[i],
        ) by {
            assert(test.ensures((&pl.songs@[i],), keep[i]));
        }
        lemma_select_filter(pl.songs@, keep, field_filter(field@, query@));
    }
    r
}

/// The first playlist called `playlist_name`, keeping only the songs that
/// match `query` in `field` ("name", "artist", "genre": the lowercase text
/// contains the lowercase query; "year": the year equals the query read as
/// a number, or 0 when it is not one).
pub fn filter(playlists: &[Playlist], playlist_name: &str, field: &str, query: &str) -> (r: Result<
    Playlist,
    String,
>)
    ensures
        playlist_result(r) == filtered(views(playlists@), playlist_name@, field@, query@),
{
    let k = find_named(playlists, playlist_name);
    if k == playlists.len() {
        return Err(quoted("Playlist '", playlist_name, "' no encontrada"));
    }
    let pl = &playlists[k];
    assert(views(playlists@)[k as int] == pl@);
    if str_equal(field, "name") {
        Ok(filter_text_field(pl, 0, Ghost(field@), query))
    } else if str_equal(field, "artist") {
        Ok(filter_text_field(pl, 1, Ghost(field@), query))
    } else if str_equal(field, "genre") {
        Ok(filter_text_field(pl, 2, Ghost(field@), query))
    } else if str_equal(field, "year") {
        let year = match parse_u32(query) {
            Some(v) => v,
            None => 0,
        };
        proof {
            reveal_strlit("name");
            reveal_strlit("artist");
            reveal_strlit("genre");
            reveal_strlit("year");
            assert forall|t: Song| #[trigger] field_filter(field@, query@)(t) == (t.year == year_query(query@)) by {
                assert(field@.len() == 4 && field@[0] == 'y');
            }
        }
        let test = |s: &Song| -> (b: bool)
            requires
                year == year_query(query@),
                forall|t: Song| #[trigger] field_filter(field@, query@)(t) == (t.year == year_query(query@)),
            ensures
                b == field_filter(field@, query@)(*s),
            { s.year == year };
        let r = filter_playlist(pl, test);
        proof {
            let keep = choose|keep: Seq<bool>|
                {
                    &&& keep.len() == pl.songs@.len()
                    &&& forall|i: int| 0 <= i < keep.len() ==> #[trigger] test.ensures((&pl.songs@[i],), keep[i])
                    &&& r.songs@ == select(pl.songs@, keep)
                };
            assert forall|i: int| 0 <= i < pl.songs@.len() implies keep[i] == field_filter(field@, query@)(
                #[trigger] pl.songs@[i],
            ) by {
                assert(test.ensures((&pl.songs@[i],), keep[i]));
            }
            lemma_select_filter(pl.songs@, keep, field_filter(field@, query@));
        }
        Ok(r)
    } else {
        Err(quoted("Campo '", field, "' no válido. Usa: name, artist, genre, year"))
    }
}

// ---------------------------------------------------------------------
// Laws of the collection
// ---------------------------------------------------------------------

/// Creating a playlist: refused exactly when a playlist has the name;
/// otherwise the playlists stay as they were, in order, and one more, empty
/// and with the name, comes last.
pub proof fn lemma_create_law(pls: Seq<PlaylistView>, name: Seq<char>)
    ensures
        (exists|k: int| 0 <= k < pls.len() && #[trigger] pls[k].name == name) <==> created(pls, name) is Err,
        created(pls, name) matches Ok(v) ==> {
            &&& v.len() == pls.len() + 1
            &&& forall|i: int| 0 <= i < pls.len() ==> #[trigger] v[i] == pls[i]
            &&& v[pls.len() as int].name == name
            &&& v[pls.len() as int].songs.len() == 0
        },
{
}

/// Deleting a playlist: refused exactly when no playlist has the name;
/// otherwise exactly the playlists of other names stay, in order.
pub proof fn lemma_delete_law(pls: Seq<PlaylistView>, name: Seq<char>)
    ensures
        !(exists|k: int| 0 <= k < pls.len() && #[trigger] pls[k].name == name) <==> deleted(pls, name) is Err,
        deleted(pls, name) matches Ok(v) ==> v == pls.filter(|p: PlaylistView| p.name != name),
        deleted(pls, name) matches Ok(v) ==> forall|i: int| 0 <= i < v.len() ==> (#[trigger] v[i]).name != name,
{
    broadcast use vstd::seq_lib::group_filter_ensures;

    let keep = |p: PlaylistView| p.name != name;
    if has_named(pls, name) {
        let v = pls.filter(keep);
        assert forall|i: int| 0 <= i < v.len() implies (#[trigger] v[i]).name != name by {
            assert(keep(v[i]));
        }
    }
}

/// Changing the playlists of a name: refused exactly when no playlist has
/// the name; otherwise there are as many playlists, with the same names,
/// those of other names untouched.
proof fn lemma_changed_shape(
    pls: Seq<PlaylistView>,
    name: Seq<char>,
    change: spec_fn(PlaylistView) -> PlaylistView,
)
    requires
        forall|p: PlaylistView| (#[trigger] change(p)).name == p.name,
    ensures
        !(exists|k: int| 0 <= k < pls.len() && #[trigger] pls[k].name == name) <==> changed(pls, name, change) is Err,
        changed(pls, name, change) matches Ok(v) ==> {
            &&& v.len() == pls.len()
            &&& forall|i: int| 0 <= i < pls.len() ==> (#[trigger] v[i]).name == pls[i].name
            &&& forall|i: int| 0 <= i < pls.len() && pls[i].name != name ==> #[trigger] v[i] == pls[i]
            &&& forall|i: int| 0 <= i < pls.len() && pls[i].name == name ==> #[trigger] v[i] == change(pls[i])
        },
{
}

/// Adding a song to a playlist: refused exactly when no playlist has the
/// name; otherwise every playlist of that name gets the song at its end,
/// after all its songs, and the other playlists stay as they were.
pub proof fn lemma_add_song_law(pls: Seq<PlaylistView>, name: Seq<char>, song: Song)
    ensures
        !(exists|k: int| 0 <= k < pls.len() && #[trigger] pls[k].name == name) <==> changed(
            pls,
            name,
            with_song(song),
        ) is Err,
        changed(pls, name, with_song(song)) matches Ok(v) ==> {
            &&& v.len() == pls.len()
            &&& forall|i: int| 0 <= i < pls.len() ==> (#[trigger] v[i]).name == pls[i].name
            &&& forall|i: int| 0 <= i < pls.len() && pls[i].name != name ==> #[trigger] v[i] == pls[i]
            &&& forall|i: int|
                0 <= i < pls.len() && pls[i].name == name ==> (#[trigger] v[i]).songs.len() == pls[i].songs.len() + 1
                    && v[i].songs.last() == song && v[i].songs.drop_last() == pls[i].songs
        },
{
    lemma_changed_shape(pls, name, with_song(song));
    if has_named(pls, name) {
        let v = changed(pls, name, with_song(song))->Ok_0;
        assert forall|i: int| 0 <= i < pls.len() && pls[i].name == name implies (#[trigger] v[i]).songs.len()
            == pls[i].songs.len() + 1 && v[i].songs.last() == song && v[i].songs.drop_last() == pls[i].songs by {
            assert(v[i] == with_song(song)(pls[i]));
            assert(v[i].songs.drop_last() =~= pls[i].songs);
        }
    }
}

/// Removing a song from a playlist: refused exactly when no playlist has
/// the name; otherwise every playlist of that name keeps exactly its songs
/// of other ids, in order, and the other playlists stay as they were.
pub proof fn lemma_remove_song_law(pls: Seq<PlaylistView>, name: Seq<char>, song_id: u32)
    ensures
        !(exists|k: int| 0 <= k < pls.len() && #[trigger] pls[k].name == name) <==> changed(
            pls,
            name,
            without_song(song_id),
        ) is Err,
        changed(pls, name, without_song(song_id)) matches Ok(v) ==> {
            &&& v.len() == pls.len()
            &&& forall|i: int| 0 <= i < pls.len() ==> (#[trigger] v[i]).name == pls[i].name
            &&& forall|i: int| 0 <= i < pls.len() && pls[i].name != name ==> #[trigger] v[i] == pls[i]
            &&& forall|i: int|
                0 <= i < pls.len() && pls[i].name == name ==> (#[trigger] v[i]).songs == pls[i].songs.filter(
                    |s: Song| s.id != song_id,
                )
        },
{
    lemma_changed_shape(pls, name, without_song(song_id));
    if has_named(pls, name) {
        let v = changed(pls, name, without_song(song_id))->Ok_0;
        assert forall|i: int| 0 <= i < pls.len() && pls[i].name == name implies (#[trigger] v[i]).songs
            == pls[i].songs.filter(|s: Song| s.id != song_id) by {
            assert(v[i] == without_song(song_id)(pls[i]));
            assert((|s: Song| s.id != song_id) =~= (|s: Song| s.id != song_id));
        }
    }
}

/// Sorting a playlist: refused exactly when no playlist has the name.
/// Otherwise every playlist of that name keeps the same songs, as many
/// times each: by "name" in the order of their lowercase names, by "year" in
/// the order of their years, and by anything else as they were. The other
/// playlists stay as they were.
pub proof fn lemma_sort_law(pls: Seq<PlaylistView>, name: Seq<char>, by: Seq<char>)
    ensures
        !(exists|k: int| 0 <= k < pls.len() && #[trigger] pls[k].name == name) <==> changed(
            pls,
            name,
            sorted_by_criterion(by),
        ) is Err,
        changed(pls, name, sorted_by_criterion(by)) matches Ok(v) ==> {
            &&& v.len() == pls.len()
            &&& forall|i: int| 0 <= i < pls.len() ==> (#[trigger] v[i]).name == pls[i].name
            &&& forall|i: int| 0 <= i < pls.len() && pls[i].name != name ==> #[trigger] v[i] == pls[i]
            &&& forall|i: int|
                0 <= i < pls.len() && pls[i].name == name ==> (#[trigger] v[i]).songs.to_multiset()
                    == pls[i].songs.to_multiset()
            &&& by == "name"@ ==> forall|i: int, a: int, b: int|
                0 <= i < pls.len() && pls[i].name == name && 0 <= a < b < v[i].songs.len() ==> !lex_lt(
                    lowercase((#[trigger] v[i].songs[b]).name@),
                    lowercase((#[trigger] v[i].songs[a]).name@),
                )
            &&& by == "year"@ ==> forall|i: int, a: int, b: int|
                0 <= i < pls.len() && pls[i].name == name && 0 <= a < b < v[i].songs.len() ==> (
                #[trigger] v[i].songs[a]).year <= (#[trigger] v[i].songs[b]).year
            &&& by != "name"@ && by != "year"@ ==> v == pls
        },
{
    lemma_changed_shape(pls, name, sorted_by_criterion(by));
    if has_named(pls, name) {
        let v = changed(pls, name, sorted_by_criterion(by))->Ok_0;
        assert forall|i: int| 0 <= i < pls.len() && pls[i].name == name implies (#[trigger] v[i]).songs.to_multiset()
            == pls[i].songs.to_multiset() by {
            assert(v[i] == sorted_by_criterion(by)(pls[i]));
            lemma_sort_by_name_orders(pls[i].songs);
            lemma_sort_by_year_orders(pls[i].songs);
        }
        if by == "name"@ {
            assert forall|i: int, a: int, b: int|
                0 <= i < pls.len() && pls[i].name == name && 0 <= a < b < v[i].songs.len() implies !lex_lt(
                lowercase((#[trigger] v[i].songs[b]).name@),
                lowercase((#[trigger] v[i].songs[a]).name@),
            ) by {
                assert(v[i] == sorted_by_criterion(by)(pls[i]));
                lemma_sort_by_name_orders(pls[i].songs);
            }
        }
        if by == "year"@ {
            assert("year"@ != "name"@) by {
                reveal_strlit("year");
                reveal_strlit("name");
                assert("year"@[0] != "name"@[0]);
            }
            assert forall|i: int, a: int, b: int|
                0 <= i < pls.len() && pls[i].name == name && 0 <= a < b < v[i].songs.len() implies (
                #[trigger] v[i].songs[a]).year <= (#[trigger] v[i].songs[b]).year by {
                assert(v[i] == sorted_by_criterion(by)(pls[i]));
                lemma_sort_by_year_orders(pls[i].songs);
            }
        }
        if by != "name"@ && by != "year"@ {
            assert forall|i: int| 0 <= i < pls.len() implies #[trigger] v[i] == pls[i] by {
                if pls[i].name == name {
                    assert(v[i] == sorted_by_criterion(by)(pls[i]));
                }
            }
            assert(v =~= pls);
        }
    }
}

/// After a playlist is created, finding it by name gives the new, empty
/// playlist.
pub proof fn lemma_create_then_get(pls: Seq<PlaylistView>, name: Seq<char>)
    requires
        !has_named(pls, name),
    ensures
        created(pls, name) matches Ok(v) && found(v, name) == Ok::<PlaylistView, Seq<char>>(
            PlaylistView { name, songs: Seq::empty() },
        ),
{
    let v = pls.push(PlaylistView { name, songs: Seq::empty() });
    assert forall|k: int| 0 <= k < pls.len() implies #[trigger] v[k].name != name by {
        assert(v[k] == pls[k]);
        if pls[k].name == name {
            assert(has_named(pls, name));
        }
    }
    lemma_first_named(v, name, pls.len() as int);
}

/// Deleting the playlist just created gives back the playlists as they
/// were.
pub proof fn lemma_create_then_delete(pls: Seq<PlaylistView>, name: Seq<char>)
    requires
        !has_named(pls, name),
    ensures
        created(pls, name) matches Ok(v) && deleted(v, name) == Ok::<Seq<PlaylistView>, Seq<char>>(pls),
{
    let fresh = PlaylistView { name, songs: Seq::empty() };
    let v = pls.push(fresh);
    assert(v[pls.len() as int].name == name);
    assert(has_named(v, name));
    reveal_with_fuel(Seq::filter, 1);
    assert(v.drop_last() =~= pls);
    lemma_filter_keeps_all(pls, name);
}

/// Filtering out a name that no playlist has keeps every playlist.
proof fn lemma_filter_keeps_all(pls: Seq<PlaylistView>, name: Seq<char>)
    requires
        !has_named(pls, name),
    ensures
        pls.filter(|p: PlaylistView| p.name != name) == pls,
    decreases pls.len(),
{
    reveal_with_fuel(Seq::filter, 1);
    if pls.len() > 0 {
        let t = pls.drop_last();
        assert(!has_named(t, name)) by {
            if has_named(t, name) {
                let k = choose|k: int| 0 <= k < t.len() && #[trigger] t[k].name == name;
                assert(pls[k] == t[k]);
            }
        }
        lemma_filter_keeps_all(t, name);
        assert(pls[pls.len() - 1].name != name);
        assert(t.push(pls.last()) =~= pls);
    }
}

/// Creating playlists keeps names unique: if no two playlists share a name
/// before, none do after.
pub proof fn lemma_create_keeps_names_unique(pls: Seq<PlaylistView>, name: Seq<char>)
    requires
        names_of(pls).no_duplicates(),
    ensures
        created(pls, name) matches Ok(v) ==> names_of(v).no_duplicates(),
{
    if !has_named(pls, name) {
        let v = pls.push(PlaylistView { name, songs: Seq::empty() });
        let nv = names_of(v);
        let np = names_of(pls);
        assert forall|i: int, j: int| 0 <= i < nv.len() && 0 <= j < nv.len() && i != j implies nv[i] != nv[j] by {
            if i < np.len() && j < np.len() {
                assert(nv[i] == np[i] && nv[j] == np[j]);
            } else if i < np.len() {
                assert(nv[i] == pls[i].name);
                if pls[i].name == name {
                    assert(has_named(pls, name));
                }
            } else {
                assert(nv[j] == pls[j].name);
                if pls[j].name == name {
                    assert(has_named(pls, name));
                }
            }
        }
    }
}

/// After a song is added to a playlist, that playlist ends with the song.
pub proof fn lemma_add_song_then_get(pls: Seq<PlaylistView>, name: Seq<char>, song: Song)
    requires
        has_named(pls, name),
    ensures
        changed(pls, name, with_song(song)) matches Ok(v) && found(v, name) matches Ok(p) && p.songs.len() > 0
            && p.songs.last() == song,
{
    let v = pls.map_values(|p: PlaylistView| if p.name == name { with_song(song)(p) } else { p });
    let k = choose|k: int| 0 <= k < pls.len() && #[trigger] pls[k].name == name;
    assert(v[k].name == name);
    assert(has_named(v, name));
    let f = first_named(v, name);
    // The first playlist of that name in `v` is where it stands in `pls`.
    lemma_first_named_in(v, name);
    assert(v[f] == with_song(song)(pls[f]));
}

/// `first_named` finds the first playlist of the name: there is one with
/// the name exactly when it stands before the end, and no playlist before
/// it has the name.
pub proof fn lemma_first_named_is_first(pls: Seq<PlaylistView>, name: Seq<char>)
    ensures
        0 <= first_named(pls, name) <= pls.len(),
        (exists|k: int| 0 <= k < pls.len() && #[trigger] pls[k].name == name) <==> first_named(pls, name)
            < pls.len(),
        first_named(pls, name) < pls.len() ==> pls[first_named(pls, name)].name == name,
        forall|j: int| 0 <= j < first_named(pls, name) ==> #[trigger] pls[j].name != name,
    decreases pls.len(),
{
    if pls.len() > 0 && pls[0].name != name {
        let t = pls.drop_first();
        lemma_first_named_is_first(t, name);
        assert forall|j: int| 0 <= j < first_named(pls, name) implies #[trigger] pls[j].name != name by {
            if j > 0 {
                assert(pls[j] == t[j - 1]);
            }
        }
        if exists|k: int| 0 <= k < pls.len() && #[trigger] pls[k].name == name {
            let k = choose|k: int| 0 <= k < pls.len() && #[trigger] pls[k].name == name;
            assert(t[k - 1] == pls[k]);
        }
        if first_named(pls, name) < pls.len() {
            let f = first_named(t, name);
            assert(pls[f + 1] == t[f]);
        }
    }
}

/// Filtering by a field keeps exactly the songs of the first playlist of
/// that name, in order, whose field matches: for "name", "artist" and
/// "genre", those whose text in lowercase contains the query in lowercase;
/// for "year", those of the year the query names as a `u32` (0 when it
/// names none). The result keeps the playlist's name.
pub proof fn lemma_filter_fields(pls: Seq<PlaylistView>, name: Seq<char>, query: Seq<char>)
    requires
        exists|k: int| 0 <= k < pls.len() && #[trigger] pls[k].name == name,
    ensures
        ({
            let p = pls[first_named(pls, name)];
            &&& filtered(pls, name, "name"@, query) == Ok::<PlaylistView, Seq<char>>(
                PlaylistView {
                    name: p.name,
                    songs: p.songs.filter(|s: Song| seq_contains(lowercase(s.name@), lowercase(query))),
                },
            )
            &&& filtered(pls, name, "artist"@, query) == Ok::<PlaylistView, Seq<char>>(
                PlaylistView {
                    name: p.name,
                    songs: p.songs.filter(|s: Song| seq_contains(lowercase(s.artist@), lowercase(query))),
                },
            )
            &&& filtered(pls, name, "genre"@, query) == Ok::<PlaylistView, Seq<char>>(
                PlaylistView {
                    name: p.name,
                    songs: p.songs.filter(|s: Song| seq_contains(lowercase(s.genre@), lowercase(query))),
                },
            )
            &&& filtered(pls, name, "year"@, query) == Ok::<PlaylistView, Seq<char>>(
                PlaylistView {
                    name: p.name,
                    songs: p.songs.filter(
                        |s: Song|
                            s.year == (match parsed_u32(query) {
                                Some(v) => v,
                                None => 0,
                            }),
                    ),
                },
            )
        }),
{
    lemma_first_named_is_first(pls, name);
    let fname = |s: Song| seq_contains(lowercase(s.name@), lowercase(query));
    let fartist = |s: Song| seq_contains(lowercase(s.artist@), lowercase(query));
    let fgenre = |s: Song| seq_contains(lowercase(s.genre@), lowercase(query));
    let fyear = |s: Song|
        s.year == (match parsed_u32(query) {
            Some(v) => v,
            None => 0,
        });
    assert("artist"@ != "name"@ && "genre"@ != "name"@ && "genre"@ != "artist"@ && "year"@ != "name"@
        && "year"@ != "artist"@ && "year"@ != "genre"@) by {
        reveal_strlit("artist");
        reveal_strlit("name");
        reveal_strlit("genre");
        reveal_strlit("year");
        assert("artist"@.len() != "name"@.len());
        assert("genre"@.len() != "name"@.len());
        assert("genre"@.len() != "artist"@.len());
        assert("year"@[0] != "name"@[0]);
        assert("year"@.len() != "artist"@.len());
        assert("year"@.len() != "genre"@.len());
    }
    assert(field_filter("name"@, query) =~= fname);
    assert(field_filter("artist"@, query) =~= fartist);
    assert(field_filter("genre"@, query) =~= fgenre);
    assert(field_filter("year"@, query) =~= fyear);
}

/// Where the first playlist of a name stands when there is one.
pub proof fn lemma_first_named_in(pls: Seq<PlaylistView>, name: Seq<char>)
    requires
        has_named(pls, name),
    ensures
        0 <= first_named(pls, name) < pls.len(),
        pls[first_named(pls, name)].name == name,
    decreases pls.len(),
{
    if pls[0].name != name {
        let t = pls.drop_first();
        assert(has_named(t, name)) by {
            let k = choose|k: int| 0 <= k < pls.len() && #[trigger] pls[k].name == name;
            assert(k > 0);
            assert(t[k - 1] == pls[k]);
        }
        lemma_first_named_in(t, name);
        assert(pls[first_named(pls, name)] == t[first_named(t, name)]);
    }
}

/// After a song is removed from a playlist, no playlist of that name holds
/// a song of that id.
pub proof fn lemma_remove_song_clears(pls: Seq<PlaylistView>, name: Seq<char>, song_id: u32)
    ensures
        changed(pls, name, without_song(song_id)) matches Ok(v) ==> forall|i: int, j: int|
            0 <= i < v.len() && v[i].name == name && 0 <= j < v[i].songs.len() ==> (#[trigger] v[i].songs[j]).id
                != song_id,
{
    broadcast use vstd::seq_lib::group_filter_ensures;

    if has_named(pls, name) {
        let v = pls.map_values(|p: PlaylistView| if p.name == name { without_song(song_id)(p) } else { p });
        assert forall|i: int, j: int|
            0 <= i < v.len() && v[i].name == name && 0 <= j < v[i].songs.len() implies (#[trigger] v[i].songs[j]).id
            != song_id by {
            assert(v[i].songs == without_id(pls[i].songs, song_id));
        }
    }
}

/// Taking out the songs of an id that no song has changes nothing, and a
/// song of that id added at the end goes again.
proof fn lemma_without_added(songs: Seq<Song>, song: Song)
    requires
        forall|j: int| 0 <= j < songs.len() ==> (#[trigger] songs[j]).id != song.id,
    ensures
        without_id(songs.push(song), song.id) == songs,
{
    reveal_with_fuel(Seq::filter, 1);
    assert(songs.push(song).drop_last() =~= songs);
    lemma_without_absent(songs, song.id);
}

proof fn lemma_without_absent(songs: Seq<Song>, id: u32)
    requires
        forall|j: int| 0 <= j < songs.len() ==> (#[trigger] songs[j]).id != id,
    ensures
        without_id(songs, id) == songs,
    decreases songs.len(),
{
    reveal_with_fuel(Seq::filter, 1);
    if songs.len() > 0 {
        let t = songs.drop_last();
        assert forall|j: int| 0 <= j < t.len() implies (#[trigger] t[j]).id != id by {
            assert(t[j] == songs[j]);
        }
        lemma_without_absent(t, id);
        assert(songs[songs.len() - 1].id != id);
        assert(t.push(songs.last()) =~= songs);
    }
}

/// Removing a song just added to a playlist gives the playlists back, when
/// no playlist of that name held a song of its id before.
pub proof fn lemma_add_then_remove_song(pls: Seq<PlaylistView>, name: Seq<char>, song: Song)
    requires
        forall|i: int, j: int|
            0 <= i < pls.len() && pls[i].name == name && 0 <= j < pls[i].songs.len() ==> (
            #[trigger] pls[i].songs[j]).id != song.id,
    ensures
        changed(pls, name, with_song(song)) matches Ok(v) ==> changed(v, name, without_song(song.id)) == Ok::<
            Seq<PlaylistView>,
            Seq<char>,
        >(pls),
{
    if has_named(pls, name) {
        let v = pls.map_values(|p: PlaylistView| if p.name == name { with_song(song)(p) } else { p });
        let k = choose|k: int| 0 <= k < pls.len() && #[trigger] pls[k].name == name;
        assert(v[k].name == name);
        assert(has_named(v, name));
        let w = v.map_values(|p: PlaylistView| if p.name == name { without_song(song.id)(p) } else { p });
        assert forall|i: int| 0 <= i < pls.len() implies #[trigger] w[i] == pls[i] by {
            if pls[i].name == name {
                assert forall|j: int| 0 <= j < pls[i].songs.len() implies (#[trigger] pls[i].songs[j]).id
                    != song.id by {}
                lemma_without_added(pls[i].songs, song);
            }
        }
        assert(w =~= pls);
    }
}

/// Filtering a playlist keeps only songs of that playlist, each matching
/// the field and the query.
pub proof fn lemma_filter_within(pls: Seq<PlaylistView>, name: Seq<char>, field: Seq<char>, query: Seq<char>)
    ensures
        filtered(pls, name, field, query) matches Ok(p) ==> forall|j: int|
            0 <= j < p.songs.len() ==> pls[first_named(pls, name)].songs.contains(#[trigger] p.songs[j])
                && field_filter(field, query)(p.songs[j]),
{
    broadcast use vstd::seq_lib::group_filter_ensures;

    if has_named(pls, name) && is_filter_field(field) {
        let src = pls[first_named(pls, name)].songs;
        let out = src.filter(field_filter(field, query));
        assert forall|j: int| 0 <= j < out.len() implies src.contains(#[trigger] out[j]) && field_filter(
            field,
            query,
        )(out[j]) by {
            src.lemma_filter_contains_rev(field_filter(field, query), out[j]);
        }
    }
}

} // verus!
