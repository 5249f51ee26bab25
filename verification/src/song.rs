//! The song record of the library.

use vstd::prelude::*;

verus! {

/// A song of the library: its metadata, where its audio file lies and
/// whether it is being streamed right now.
pub struct Song {
    pub id: u32,
    pub name: String,
    pub artist: String,
    pub genre: String,
    pub year: u32,
    pub file_path: String,
    pub is_playing: bool,
}

impl Clone for Song {
    fn clone(&self) -> (r: Song)
        ensures
            r == *self,
    {
        Song {
            id: self.id,
            name: self.name.clone(),
            artist: self.artist.clone(),
            genre: self.genre.clone(),
            year: self.year,
            file_path: self.file_path.clone(),
            is_playing: self.is_playing,
        }
    }
}

/// Copies every song of `songs`, in order.
pub fn copy_songs(songs: &[Song]) -> (r: Vec<Song>)
    ensures
        r@ == songs@,
{
    let mut r: Vec<Song> = Vec::new();
    for i in 0..songs.len()
        invariant
            r@ == songs@.take(i as int),
    {
        r.push(songs[i].clone());
    }
    r
}

} // verus!
