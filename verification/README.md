# meow

A torrent scraper for nyaa.si. It takes a search term or a URL of the site, goes
through all pages of the listing, and downloads the `.torrent` files that it has
not downloaded before.

- `src/` is the library, with its contracts and their proofs: URLs (`urls`,
  `percent`), pages (`listing`), what is downloaded (`plan`) and remembered
  (`state`, `table`), names of files and directories (`names`), contents
  (`content`), sizes (`size`), waiting and trying again (`pacing`), and the plain
  work on text and sequences below them (`text`, `seqs`). `run` states what a second
  run over an unchanged listing finds: nothing.
- `app/` is the program: requests, files, threads and floating point.
- `tests/` holds the tests of the library.

What the library believes without proof stands at the functions that call other
crates: `percent` (urlencoding), `names` (regex), `listing` (scraper), `content`
(sha2), `clock` (the system clock), and the two string functions in `text` and
`size`.
