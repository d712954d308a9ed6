//! Repairs the page order and file names of manga EPUB volumes.
//!
//! A volume's pages and pictures carry random names; the true page number sits only in each
//! page's `<title>第N话</title>`. The repair reads the spine, takes each page's number, puts
//! the pages in reading order, renames pages and pictures to `html/page-001.html` /
//! `image/001.jpg`, rewrites the package and navigation files, removes leftover attributes,
//! moves site cards behind the story, writes `mimetype` first and stored, and reads the
//! written archive back: its spine must be the one written and its page numbers `1..N`.

pub mod archive;
pub mod cli;
pub mod epub;
pub mod layout;
pub mod options;
pub mod output;
pub mod pages;
pub mod paths;
pub mod pattern;
pub mod picture;
pub mod png;
pub mod refmap;
pub mod selection;
pub mod text;

pub use cli::{parse_command_line, print_line, print_usage, Command, VERSION};
pub use epub::{FixOutcome, KmoeError, RepairError, Volume};
pub use options::{Config, FixOptions, RotateCover};
pub use paths::{get_unique_dst, OUT_SUFFIX};
