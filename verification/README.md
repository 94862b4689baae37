# ZEN Manager

A desktop tool for the music on a Creative ZEN (or any MTP player): queue
local files for transfer, see why an entry cannot go, and browse, check and
delete what is already on the player.

## Layout

- `src/` — the verified library (Verus).
  - `text.rs` — trimming, ASCII case, file-name extensions, decimal text,
    the byte keys names sort by.
  - `order.rs` — the stable sort every list uses, and its laws.
  - `library.rs` — which local files are audio, the track a file's tags
    describe, the order a scanned library is listed in.
  - `mtp.rs` — device figures, filetypes, what a device listing keeps, where
    a track is sent and what it is tagged with.
  - `music.rs` — the tree of artists, albums and tracks on the device: how it
    is built, shown as rows, expanded and checked.
  - `tree_laws.rs` — what holds of every built tree and of every edit.
  - `queue.rs` — queue entries, their issues, and evaluation against the
    device.
  - `batch.rs` — sending the queue and deleting checked tracks, one call at a
    time.
  - `session.rs` — the state behind the window and what each command does to
    it.
  - `settings.rs` — the settings and their file format.
  - `status.rs` — the status codes the UI words.
- `tests/` — tests of the library.
- `app/` — the program: the window, the worker thread, file and device I/O.
