# music_manager

The core of a desktop music library: music files and clips of them, tags arranged in
trees, albums, candidates for an edit, and what MP3 files say of themselves. The core is
written in Verus; what every operation does is stated in contracts and proved.

- `src/` is the library. It works on the tables of a library as plain values:
  - `catalog`, `tree`, `tags`, `naming`: filter dimensions and the tags in them;
  - `library`, `music`, `clips`, `candidates`, `albums`, `links`, `library_tags`: the
    tables and the operations that change them;
  - `listing`, `lookup`: the operations that hand rows out;
  - `locations`, `relocation`: following files that were moved, and moving the database;
  - `schema`, `legacy`, `migrate`, `standard`: bringing older databases up to date;
  - `id3`, `mp3`, `base64`, `probe`, `paths`, `sources`: finding and reading audio files;
  - `text`, `seconds`, `order`, `rows`, `failure`, `messages`, `soundness`: what the rest
    is built of.
- `app/` is the application around it: the commands of the user interface, files, and an
  SQLite database in which the tables are kept.
- `tests/` runs the library, on its own and against SQLite.

The laws that the operations keep together are the public proof functions whose names
begin with `law_`.
