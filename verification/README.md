# Theme Comment Writer

Finds out which anime a song is a theme of, and writes it as `作品名 [OP]` into
the comment of the song's MP3 or M4A file. Songs are searched for in AnimeThemes
by the title and artist in the file's tags; Japanese titles come from AniList.

- `src/` is the library, verified with Verus:
  - `text`, `order`: texts, sets of texts, sorting, walking maps
  - `patterns`, `tags`: the calls into `regex`, `id3` and `mp4ameta`, and what is
    taken for granted of them
  - `paths`: the components, names and extensions of paths, on Unix and Windows
  - `audio_file`, `file_name`: which files are supported, and what is searched for
  - `finder_comment`: the theme line in a comment
  - `scoring`, `lookup`, `songs`, `candidates`: songs, their scores, and the
    candidates that they speak for
  - `requests`, `lookup_service`: requests and responses, and the course of a search
  - `title_localizer`, `title_cache`: Japanese titles
  - `processor`, `app`: the results of work on files, the state of the window, and
    what is shown of it
- `tests/` runs the library.
- `app/` is the program around it: the window, files, threads and HTTP. Its file
  dialog is that of the `rfd` crate.

Proof functions whose names begin with `law_` state what holds of the library as
a whole. Functions whose names begin with `checked_` are the forms of others that
report a score which does not fit instead of requiring that it does.
