# pm64

Encoding and decoding of Paper Mario's BGM song format and SBN archives, with the editing
operations that the Mamar editor performs on songs, verified with Verus.

- `src/` is the verified library: the song model (`bgm`), command sequences (`bgm::cmd`),
  the byte encoder and decoder (`bgm::en`, `bgm::de`), the editor metadata (`bgm::mamar`),
  the text form's command lists (`bgm::text_form`), SBN archives (`sbn`), the undo history
  (`history`) and the hot-reload protocol (`hot`). The round-trip laws stand in
  `bgm::roundtrip`, `bgm::list_roundtrip`, `bgm::file_roundtrip` and `bgm::meta_roundtrip`.
- `app/` is the command-line tool: file I/O, MessagePack and RON through serde, MIDI import
  and logging.
- `tests/` runs the library on concrete songs.
