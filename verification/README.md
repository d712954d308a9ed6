# kmoefix

Repairs manga EPUB volumes exported by the Kmoe site: pages and pictures carry random
names and the reading order hides in each page's `<title>第N话</title>`. The repair puts
the pages in chapter order, renames them to `html/page-001.html` / `image/001.jpg`,
rewrites `vol.opf` and `xml/vol.nav`, strips leftover attributes, moves site cards behind
the story, writes `mimetype` first and stored, and reads the written archive back before
anything reaches the disk.

## Layout

- `src/` — the library, verified with Verus:
  - `epub.rs` reads a volume (entry names, package file, spine, page numbers);
  - `layout.rs` finds site-card candidates, sorts the reading order, numbers and names the
    pages, rebuilds the spine;
  - `pages.rs` rewrites a page's markup; `refmap.rs` the ordered rename map and the
    one-pass reference rewrite;
  - `output.rs` lists the entries written, decides which pictures turn, writes the archive
    and checks it read back;
  - `picture.rs` decodes pictures, turns them by quarter turns (proved pixel by pixel) and
    writes them back in their own format;
  - `archive.rs`, `pattern.rs`, `text.rs`, `paths.rs` the ZIP, regex, byte-string and path
    helpers; `png.rs` the screenshot file;
  - `cli.rs` the command line, `options.rs` the settings, `selection.rs` the window's file
    list.
- `app/` — the program around it: `main`, file I/O, picture comparison (floating point),
  the egui window, the Windows console.
- `tests/` — the tests, run against the compiled library.
