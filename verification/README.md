# IMOS

IMOS is an immutable object store: a local store of artifacts with deterministic
download, installation, reuse and garbage collection.

An upper system writes a plan file and submits it. The store keeps a second hard
link to the file, so that the inode of the file stands for the wish, and records two
relations:

    request inode -> plan key
    plan key -> download key

An object is complete as soon as it is at its place; nothing else records that.

## Layout

- `src/`: the library. What is checked and decided stands here, with contracts that
  Verus proves:
  - `path`, `text`, `digest`, `json`, `error`: the vocabulary;
  - `plan`: plans and what makes them acceptable;
  - `tarball`, `archive`, `artifact`: what archives hold, what downloads have to be,
    and the steps that an installation consists of;
  - `progress`: events, and how those who wait for a lock follow them;
  - `intent`, `submit`, `collect`: who wants what, how a plan file becomes a request,
    and what nobody wants any more;
  - `store`, `install`: where objects are and when they have to be made;
  - `server`: requests over JSON Lines.
- `app/`: the program around it: the command line, files, locks, the database, the
  network.
- `tests/`: tests of the library.

## Commands

    imos --store <path> create <plan-file>
    imos --store <path> remove <plan-file>
    imos --store <path> gc
    imos --store <path> serve [-e]

`serve` reads requests from standard input, one JSON object per line, and answers on
standard output. With `-e` it tells progress and diagnostics on standard error, and a
line that is no request does not end it.
