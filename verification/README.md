# spoticry

A music library server: songs with their metadata, playlists, three kinds
of search, and a TCP protocol in which a client lists, searches, edits
playlists and streams songs as 16-bit PCM.

- `src/` is the library, written in Verus: every function carries a
  contract, and the laws of the library (what creating and then deleting a
  playlist gives back, how searches rank, what saving and loading keep, what
  playing and then stopping a song leaves) are proof functions.
- `app/` is the program: the console menu, the TCP server with one thread
  per client, the JSON files, and MP3 decoding with symphonia. It performs
  the actions that the library's request step asks for.
- `tests/` runs the library on concrete values.
