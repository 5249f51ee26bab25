//! A music library server: songs, playlists, searches and the request
//! handling of the streaming server, with their contracts proved by Verus.

pub mod text;
pub mod song;
pub mod sorting;
pub mod playlist;
pub mod playlist_service;
pub mod id_generator;
pub mod song_service;
pub mod protocol;
pub mod server;
pub mod decoder;
pub mod storage;
