//! The command line: one program for both the window and batch use.
//!
//! - no arguments: the window
//! - `--gui [files…]`: the window, with the files listed
//! - `--help` / `-h`, `--version` / `-V`: print and leave
//! - otherwise batch repair of the files (`--no-rotate-cover` / `--rotate-cover=…`)

use std::io::Write;
use vstd::prelude::*;

use crate::options::{string_from_chars, FixOptions, RotateCover};
use crate::paths::{path_from_string, path_text};

verus! {

/// The version of the program.
pub const VERSION: &'static str = "1.0.0";

/// What the command line asks for.
#[derive(Clone, Debug, PartialEq)]
pub enum Command {
    /// Open the window; `preload` lists the files to show in it.
    Gui { preload: Vec<std::path::PathBuf> },
    /// Print how to use the program.
    Usage,
    /// Print the version.
    Version,
    /// Repair the files in a batch.
    Cli { opts: FixOptions, files: Vec<String> },
}

/// A command with the paths of `Gui` given by their texts.
pub enum CommandSpec {
    Gui(Seq<Seq<u8>>),
    Usage,
    Version,
    Cli(FixOptions, Seq<Seq<char>>),
}

impl Command {
    pub open spec fn view_spec(&self) -> CommandSpec {
        match self {
            Command::Gui { preload } => CommandSpec::Gui(preload@.map_values(|p: std::path::PathBuf| path_text(p))),
            Command::Usage => CommandSpec::Usage,
            Command::Version => CommandSpec::Version,
            Command::Cli { opts, files } => CommandSpec::Cli(*opts, files@.map_values(|f: String| f@)),
        }
    }
}

pub open spec fn is_help(a: Seq<char>) -> bool {
    a == "--help"@ || a == "-h"@
}

pub open spec fn is_version(a: Seq<char>) -> bool {
    a == "--version"@ || a == "-V"@
}

/// The value of a `--rotate-cover…` argument: after `=`, or `auto` when there is no `=`.
pub open spec fn rotate_value(a: Seq<char>) -> Option<Seq<char>> {
    let p = "--rotate-cover"@;
    if p.len() <= a.len() && a.subrange(0, p.len() as int) == p {
        let rest = a.subrange(p.len() as int, a.len() as int);
        Some(
            if rest.len() > 0 && rest[0] == '=' {
                rest.subrange(1, rest.len() as int)
            } else {
                "auto"@
            },
        )
    } else {
        None
    }
}

/// The policy that a `--rotate-cover` value names.
pub open spec fn mode_of(v: Seq<char>) -> Option<RotateCover> {
    if v == "auto"@ {
        Some(RotateCover::Auto)
    } else if v == "off"@ {
        Some(RotateCover::Off)
    } else if v == "90"@ {
        Some(RotateCover::Fixed(90))
    } else if v == "180"@ {
        Some(RotateCover::Fixed(180))
    } else if v == "270"@ {
        Some(RotateCover::Fixed(270))
    } else {
        None
    }
}

/// The flags and files of the arguments, or the first bad `--rotate-cover` value.
pub open spec fn scan(args: Seq<Seq<char>>) -> Result<(bool, FixOptions, Seq<Seq<char>>), Seq<char>>
    decreases args.len(),
{
    if args.len() == 0 {
        Ok((false, FixOptions { rotate_cover: RotateCover::Auto }, seq![]))
    } else {
        match scan(args.drop_last()) {
            Err(v) => Err(v),
            Ok((gui, opts, files)) => {
                let a = args.last();
                if a == "--gui"@ {
                    Ok((true, opts, files))
                } else if a == "--no-rotate-cover"@ {
                    Ok((gui, FixOptions { rotate_cover: RotateCover::Off }, files))
                } else {
                    match rotate_value(a) {
                        Some(v) => match mode_of(v) {
                            Some(m) => Ok((gui, FixOptions { rotate_cover: m }, files)),
                            None => Err(v),
                        },
                        None => Ok((gui, opts, files.push(a))),
                    }
                }
            },
        }
    }
}

/// What `parse_command_line` gives for the arguments.
pub open spec fn parse_spec(args: Seq<Seq<char>>) -> Result<CommandSpec, Seq<char>> {
    if args.len() == 0 {
        Ok(CommandSpec::Gui(seq![]))
    } else if exists|i: int| 0 <= i < args.len() && is_help(#[trigger] args[i]) {
        Ok(CommandSpec::Usage)
    } else if exists|i: int| 0 <= i < args.len() && is_version(#[trigger] args[i]) {
        Ok(CommandSpec::Version)
    } else {
        match scan(args) {
            Err(v) => Err("--rotate-cover 取值无效: "@ + v),
            Ok((gui, opts, files)) => if gui {
                Ok(CommandSpec::Gui(files.map_values(|f: Seq<char>| vstd::utf8::encode_utf8(f))))
            } else if files.len() == 0 {
                Ok(CommandSpec::Usage)
            } else {
                Ok(CommandSpec::Cli(opts, files))
            },
        }
    }
}

/// An argument that the command line reads as a flag rather than a file.
pub open spec fn is_flag(a: Seq<char>) -> bool {
    is_help(a) || is_version(a) || a == "--gui"@ || a == "--no-rotate-cover"@ || rotate_value(a) is Some
}

proof fn lemma_scan_files(args: Seq<Seq<char>>)
    requires
        forall|i: int| 0 <= i < args.len() ==> !is_flag(#[trigger] args[i]),
    ensures
        scan(args) == Ok::<(bool, FixOptions, Seq<Seq<char>>), Seq<char>>(
            (false, FixOptions { rotate_cover: RotateCover::Auto }, args),
        ),
    decreases args.len(),
{
    if args.len() > 0 {
        let d = args.drop_last();
        assert forall|i: int| 0 <= i < d.len() implies !is_flag(#[trigger] d[i]) by {
            assert(d[i] == args[i]);
        }
        lemma_scan_files(d);
        assert(!is_flag(args[args.len() - 1]));
        assert(d.push(args.last()) =~= args);
    } else {
        assert(args =~= Seq::<Seq<char>>::empty());
    }
}

/// Arguments that are all file names, none of them a flag, make a batch over those files in
/// their order, with the default options.
pub proof fn law_files_make_a_batch(args: Seq<Seq<char>>)
    requires
        args.len() > 0,
        forall|i: int| 0 <= i < args.len() ==> !is_flag(#[trigger] args[i]),
    ensures
        parse_spec(args) == Ok::<CommandSpec, Seq<char>>(
            CommandSpec::Cli(FixOptions { rotate_cover: RotateCover::Auto }, args),
        ),
{
    lemma_scan_files(args);
    assert(!exists|i: int| 0 <= i < args.len() && is_help(#[trigger] args[i])) by {
        if exists|i: int| 0 <= i < args.len() && is_help(#[trigger] args[i]) {
            let i = choose|i: int| 0 <= i < args.len() && is_help(#[trigger] args[i]);
            assert(is_flag(args[i]));
        }
    }
    assert(!exists|i: int| 0 <= i < args.len() && is_version(#[trigger] args[i])) by {
        if exists|i: int| 0 <= i < args.len() && is_version(#[trigger] args[i]) {
            let i = choose|i: int| 0 <= i < args.len() && is_version(#[trigger] args[i]);
            assert(is_flag(args[i]));
        }
    }
}

/// A `--rotate-cover…` argument whose value names no policy.
pub open spec fn bad_rotate(a: Seq<char>) -> bool {
    rotate_value(a) matches Some(v) && mode_of(v) is None
}

/// The arguments that name files: all but `--gui`, `--no-rotate-cover` and `--rotate-cover…`.
pub open spec fn file_args(args: Seq<Seq<char>>) -> Seq<Seq<char>>
    decreases args.len(),
{
    if args.len() == 0 {
        seq![]
    } else {
        let a = args.last();
        if a == "--gui"@ || a == "--no-rotate-cover"@ || rotate_value(a) is Some {
            file_args(args.drop_last())
        } else {
            file_args(args.drop_last()).push(a)
        }
    }
}

/// The policy that the last turning flag names (`--no-rotate-cover` or a good
/// `--rotate-cover…`), the default when there is none.
pub open spec fn chosen_mode(args: Seq<Seq<char>>) -> RotateCover
    decreases args.len(),
{
    if args.len() == 0 {
        RotateCover::Auto
    } else {
        let a = args.last();
        if a == "--no-rotate-cover"@ {
            RotateCover::Off
        } else if a != "--gui"@ && rotate_value(a) is Some && mode_of(rotate_value(a)->0) is Some {
            mode_of(rotate_value(a)->0)->0
        } else {
            chosen_mode(args.drop_last())
        }
    }
}

proof fn lemma_scan_parts(args: Seq<Seq<char>>)
    ensures
        scan(args) is Err <==> exists|i: int| 0 <= i < args.len() && bad_rotate(#[trigger] args[i]),
        scan(args) is Ok ==> scan(args) == Ok::<(bool, FixOptions, Seq<Seq<char>>), Seq<char>>(
            (
                exists|i: int| 0 <= i < args.len() && #[trigger] args[i] == "--gui"@,
                FixOptions { rotate_cover: chosen_mode(args) },
                file_args(args),
            ),
        ),
    decreases args.len(),
{
    if args.len() > 0 {
        let d = args.drop_last();
        let a = args.last();
        lemma_scan_parts(d);
        reveal_strlit("--gui");
        reveal_strlit("--no-rotate-cover");
        reveal_strlit("--rotate-cover");
        assert("--gui"@.len() == 5);
        assert("--no-rotate-cover"@.len() == 17);
        assert("--gui"@ != "--no-rotate-cover"@);
        assert forall|i: int| 0 <= i < d.len() implies d[i] == args[i] by {}
        assert((exists|i: int| 0 <= i < args.len() && bad_rotate(#[trigger] args[i])) <==> ((exists|i: int|
            0 <= i < d.len() && bad_rotate(#[trigger] d[i])) || bad_rotate(a))) by {
            if exists|i: int| 0 <= i < args.len() && bad_rotate(#[trigger] args[i]) {
                let i = choose|i: int| 0 <= i < args.len() && bad_rotate(#[trigger] args[i]);
                if i < d.len() {
                    assert(bad_rotate(d[i]));
                }
            }
            if exists|i: int| 0 <= i < d.len() && bad_rotate(#[trigger] d[i]) {
                let i = choose|i: int| 0 <= i < d.len() && bad_rotate(#[trigger] d[i]);
                assert(bad_rotate(args[i]));
            }
            if bad_rotate(a) {
                assert(bad_rotate(args[args.len() - 1]));
            }
        }
        assert((exists|i: int| 0 <= i < args.len() && #[trigger] args[i] == "--gui"@) <==> ((exists|i: int|
            0 <= i < d.len() && #[trigger] d[i] == "--gui"@) || a == "--gui"@)) by {
            if exists|i: int| 0 <= i < args.len() && #[trigger] args[i] == "--gui"@ {
                let i = choose|i: int| 0 <= i < args.len() && #[trigger] args[i] == "--gui"@;
                if i < d.len() {
                    assert(d[i] == "--gui"@);
                }
            }
            if exists|i: int| 0 <= i < d.len() && #[trigger] d[i] == "--gui"@ {
                let i = choose|i: int| 0 <= i < d.len() && #[trigger] d[i] == "--gui"@;
                assert(args[i] == "--gui"@);
            }
            if a == "--gui"@ {
                assert(args[args.len() - 1] == "--gui"@);
            }
        }
        if a == "--gui"@ {
            assert(rotate_value(a) is None) by {
                reveal_strlit("--gui");
                reveal_strlit("--rotate-cover");
            }
        }
        if a == "--no-rotate-cover"@ {
            assert(rotate_value(a) is None) by {
                reveal_strlit("--no-rotate-cover");
                reveal_strlit("--rotate-cover");
                assert(a[2] != "--rotate-cover"@[2]);
            }
        }
    } else {
        assert(!exists|i: int| 0 <= i < args.len() && #[trigger] args[i] == "--gui"@);
    }
}

/// A command line with arguments, none of them `--help`, `-h`, `--version` or `-V`, is
/// refused exactly when a `--rotate-cover…` value names no policy. Otherwise the files are
/// the arguments that are not flags, in order, the policy is the one the last turning flag
/// names, and `--gui` anywhere opens the window with the files; without it and without
/// files the usage is printed, else the files are repaired in a batch.
pub proof fn law_arguments(args: Seq<Seq<char>>)
    requires
        args.len() > 0,
        forall|i: int| 0 <= i < args.len() ==> !is_help(#[trigger] args[i]) && !is_version(args[i]),
    ensures
        parse_spec(args) is Err <==> exists|i: int| 0 <= i < args.len() && bad_rotate(#[trigger] args[i]),
        parse_spec(args) is Ok ==> parse_spec(args) == Ok::<CommandSpec, Seq<char>>(
            if exists|i: int| 0 <= i < args.len() && #[trigger] args[i] == "--gui"@ {
                CommandSpec::Gui(file_args(args).map_values(|f: Seq<char>| vstd::utf8::encode_utf8(f)))
            } else if file_args(args).len() == 0 {
                CommandSpec::Usage
            } else {
                CommandSpec::Cli(FixOptions { rotate_cover: chosen_mode(args) }, file_args(args))
            },
        ),
{
    lemma_scan_parts(args);
    assert(!exists|i: int| 0 <= i < args.len() && is_help(#[trigger] args[i]));
    assert(!exists|i: int| 0 <= i < args.len() && is_version(#[trigger] args[i]));
}

/// An argument that sets the turning policy: `--no-rotate-cover` or `--rotate-cover…`.
pub open spec fn is_turning_flag(a: Seq<char>) -> bool {
    a == "--no-rotate-cover"@ || ("--rotate-cover"@.len() <= a.len() && a.subrange(
        0,
        "--rotate-cover"@.len() as int,
    ) == "--rotate-cover"@)
}

proof fn lemma_later_flags_ignored(args: Seq<Seq<char>>, i: int)
    requires
        0 <= i < args.len(),
        forall|j: int| i < j < args.len() ==> !is_turning_flag(#[trigger] args[j]),
    ensures
        chosen_mode(args) == chosen_mode(args.subrange(0, i + 1)),
    decreases args.len(),
{
    if args.len() > i + 1 {
        let d = args.drop_last();
        assert forall|j: int| i < j < d.len() implies !is_turning_flag(#[trigger] d[j]) by {
            assert(d[j] == args[j]);
        }
        lemma_later_flags_ignored(d, i);
        assert(d.subrange(0, i + 1) =~= args.subrange(0, i + 1));
        let a = args.last();
        assert(!is_turning_flag(args[args.len() - 1]));
        assert(rotate_value(a) is None);
    } else {
        assert(args.subrange(0, i + 1) =~= args);
    }
}

/// The value a `--rotate-cover=v` argument gives, and the policy it names.
proof fn lemma_rotate_values()
    ensures
        rotate_value("--rotate-cover=off"@) == Some("off"@),
        rotate_value("--rotate-cover=auto"@) == Some("auto"@),
        rotate_value("--rotate-cover"@) == Some("auto"@),
        rotate_value("--rotate-cover=90"@) == Some("90"@),
        rotate_value("--rotate-cover=180"@) == Some("180"@),
        rotate_value("--rotate-cover=270"@) == Some("270"@),
        mode_of("off"@) == Some(RotateCover::Off),
        mode_of("auto"@) == Some(RotateCover::Auto),
        mode_of("90"@) == Some(RotateCover::Fixed(90)),
        mode_of("180"@) == Some(RotateCover::Fixed(180)),
        mode_of("270"@) == Some(RotateCover::Fixed(270)),
        "--rotate-cover=off"@ != "--gui"@,
        "--rotate-cover=auto"@ != "--gui"@,
        "--rotate-cover"@ != "--gui"@,
        "--rotate-cover=90"@ != "--gui"@,
        "--rotate-cover=180"@ != "--gui"@,
        "--rotate-cover=270"@ != "--gui"@,
        "--rotate-cover=off"@ != "--no-rotate-cover"@,
        "--rotate-cover=auto"@ != "--no-rotate-cover"@,
        "--rotate-cover"@ != "--no-rotate-cover"@,
        "--rotate-cover=90"@ != "--no-rotate-cover"@,
        "--rotate-cover=180"@ != "--no-rotate-cover"@,
        "--rotate-cover=270"@ != "--no-rotate-cover"@,
{
    reveal_strlit("--rotate-cover");
    reveal_strlit("--rotate-cover=off");
    reveal_strlit("--rotate-cover=auto");
    reveal_strlit("--rotate-cover=90");
    reveal_strlit("--rotate-cover=180");
    reveal_strlit("--rotate-cover=270");
    reveal_strlit("--gui");
    reveal_strlit("--no-rotate-cover");
    reveal_strlit("off");
    reveal_strlit("auto");
    reveal_strlit("90");
    reveal_strlit("180");
    reveal_strlit("270");
    let p = "--rotate-cover"@;
    assert("--rotate-cover=off"@.subrange(0, 14) =~= p);
    assert("--rotate-cover=off"@.subrange(14, 18).subrange(1, 4) =~= "off"@);
    assert("--rotate-cover=auto"@.subrange(0, 14) =~= p);
    assert("--rotate-cover=auto"@.subrange(14, 19).subrange(1, 5) =~= "auto"@);
    assert("--rotate-cover"@.subrange(0, 14) =~= p);
    assert("--rotate-cover=90"@.subrange(0, 14) =~= p);
    assert("--rotate-cover=90"@.subrange(14, 17).subrange(1, 3) =~= "90"@);
    assert("--rotate-cover=180"@.subrange(0, 14) =~= p);
    assert("--rotate-cover=180"@.subrange(14, 18).subrange(1, 4) =~= "180"@);
    assert("--rotate-cover=270"@.subrange(0, 14) =~= p);
    assert("--rotate-cover=270"@.subrange(14, 18).subrange(1, 4) =~= "270"@);
    assert("off"@ != "auto"@) by { assert("off"@.len() != "auto"@.len()); }
    assert("90"@ != "auto"@) by { assert("90"@.len() != "auto"@.len()); }
    assert("90"@ != "off"@) by { assert("90"@.len() != "off"@.len()); }
    assert("180"@ != "auto"@) by { assert("180"@.len() != "auto"@.len()); }
    assert("180"@ != "off"@) by { assert("180"@[0] != "off"@[0]); }
    assert("180"@ != "90"@) by { assert("180"@.len() != "90"@.len()); }
    assert("270"@ != "auto"@) by { assert("270"@.len() != "auto"@.len()); }
    assert("270"@ != "off"@) by { assert("270"@[0] != "off"@[0]); }
    assert("270"@ != "90"@) by { assert("270"@.len() != "90"@.len()); }
    assert("270"@ != "180"@) by { assert("270"@[0] != "180"@[0]); }
    assert("--rotate-cover=off"@ != "--gui"@) by { assert("--rotate-cover=off"@.len() != "--gui"@.len()); }
    assert("--rotate-cover=auto"@ != "--gui"@) by { assert("--rotate-cover=auto"@.len() != "--gui"@.len()); }
    assert("--rotate-cover"@ != "--gui"@) by { assert("--rotate-cover"@.len() != "--gui"@.len()); }
    assert("--rotate-cover=90"@ != "--gui"@) by { assert("--rotate-cover=90"@.len() != "--gui"@.len()); }
    assert("--rotate-cover=180"@ != "--gui"@) by { assert("--rotate-cover=180"@.len() != "--gui"@.len()); }
    assert("--rotate-cover=270"@ != "--gui"@) by { assert("--rotate-cover=270"@.len() != "--gui"@.len()); }
    assert("--rotate-cover=off"@ != "--no-rotate-cover"@) by { assert("--rotate-cover=off"@[2] != "--no-rotate-cover"@[2]); }
    assert("--rotate-cover=auto"@ != "--no-rotate-cover"@) by { assert("--rotate-cover=auto"@[2] != "--no-rotate-cover"@[2]); }
    assert("--rotate-cover"@ != "--no-rotate-cover"@) by { assert("--rotate-cover"@[2] != "--no-rotate-cover"@[2]); }
    assert("--rotate-cover=90"@ != "--no-rotate-cover"@) by { assert("--rotate-cover=90"@[2] != "--no-rotate-cover"@[2]); }
    assert("--rotate-cover=180"@ != "--no-rotate-cover"@) by { assert("--rotate-cover=180"@[2] != "--no-rotate-cover"@[2]); }
    assert("--rotate-cover=270"@ != "--no-rotate-cover"@) by { assert("--rotate-cover=270"@[2] != "--no-rotate-cover"@[2]); }
}

/// The last turning flag decides how pictures are turned, whatever comes before it and
/// whatever files come after: `--no-rotate-cover` and `--rotate-cover=off` switch turning off,
/// `--rotate-cover` and `--rotate-cover=auto` turn by the reference pictures, and
/// `--rotate-cover=90`, `=180`, `=270` turn by that many degrees. A batch that the arguments
/// make runs with that policy.
pub proof fn law_last_turning_flag_decides(args: Seq<Seq<char>>, i: int)
    requires
        0 <= i < args.len(),
        forall|j: int| i < j < args.len() ==> !is_turning_flag(#[trigger] args[j]),
    ensures
        (args[i] == "--no-rotate-cover"@ || args[i] == "--rotate-cover=off"@) ==> chosen_mode(args)
            == RotateCover::Off,
        (args[i] == "--rotate-cover"@ || args[i] == "--rotate-cover=auto"@) ==> chosen_mode(args)
            == RotateCover::Auto,
        args[i] == "--rotate-cover=90"@ ==> chosen_mode(args) == RotateCover::Fixed(90),
        args[i] == "--rotate-cover=180"@ ==> chosen_mode(args) == RotateCover::Fixed(180),
        args[i] == "--rotate-cover=270"@ ==> chosen_mode(args) == RotateCover::Fixed(270),
        parse_spec(args) matches Ok(CommandSpec::Cli(opts, _)) ==> opts.rotate_cover == chosen_mode(args),
{
    lemma_later_flags_ignored(args, i);
    lemma_rotate_values();
    let pre = args.subrange(0, i + 1);
    assert(pre.last() == args[i]);
    if parse_spec(args) is Ok && !(parse_spec(args) matches Ok(CommandSpec::Usage))
        && !(parse_spec(args) matches Ok(CommandSpec::Version)) {
        assert(!exists|k: int| 0 <= k < args.len() && is_help(#[trigger] args[k]));
        assert(!exists|k: int| 0 <= k < args.len() && is_version(#[trigger] args[k]));
        assert forall|k: int| 0 <= k < args.len() implies !is_help(#[trigger] args[k]) && !is_version(args[k]) by {
            if is_help(args[k]) {
                assert(exists|k: int| 0 <= k < args.len() && is_help(#[trigger] args[k]));
            }
            if is_version(args[k]) {
                assert(exists|k: int| 0 <= k < args.len() && is_version(#[trigger] args[k]));
            }
        }
        law_arguments(args);
    }
}

/// Character-wise equality.
pub fn str_eq(a: &str, b: &str) -> (r: bool)
    ensures
        r == (a@ == b@),
{
    let r = crate::text::bytes_equal(a.as_bytes(), b.as_bytes());
    proof {
        vstd::utf8::encode_utf8_decode_utf8(a@);
        vstd::utf8::encode_utf8_decode_utf8(b@);
    }
    r
}

fn char_prefix(a: &str, p: &str) -> (r: bool)
    ensures
        r == (p@.len() <= a@.len() && a@.subrange(0, p@.len() as int) == p@),
{
    let n = p.unicode_len();
    let m = a.unicode_len();
    if m < n {
        return false;
    }
    let mut i: usize = 0;
    while i < n
        invariant
            n == p@.len(),
            m == a@.len(),
            n <= m,
            i <= n,
            forall|j: int| 0 <= j < i ==> a@[j] == p@[j],
        decreases n - i,
    {
        if a.get_char(i) != p.get_char(i) {
            assert(a@.subrange(0, n as int)[i as int] != p@[i as int]);
            return false;
        }
        i += 1;
    }
    assert(a@.subrange(0, n as int) =~= p@);
    true
}

fn string_of(s: &str) -> (r: String)
    ensures
        r@ == s@,
{
    String::from_str(s)
}

fn mode_value(v: &str) -> (r: Option<RotateCover>)
    ensures
        r == mode_of(v@),
{
    if str_eq(v, "auto") {
        Some(RotateCover::Auto)
    } else if str_eq(v, "off") {
        Some(RotateCover::Off)
    } else if str_eq(v, "90") {
        Some(RotateCover::Fixed(90))
    } else if str_eq(v, "180") {
        Some(RotateCover::Fixed(180))
    } else if str_eq(v, "270") {
        Some(RotateCover::Fixed(270))
    } else {
        None
    }
}

/// The value of a `--rotate-cover…` argument.
fn rotate_argument(a: &str) -> (r: Option<String>)
    ensures
        match r {
            Some(v) => rotate_value(a@) == Some(v@),
            None => rotate_value(a@) is None,
        },
{
    let p = "--rotate-cover";
    if !char_prefix(a, p) {
        return None;
    }
    let n = p.unicode_len();
    let m = a.unicode_len();
    let rest = a.substring_char(n, m);
    let k = rest.unicode_len();
    if k > 0 && rest.get_char(0) == '=' {
        Some(string_of(rest.substring_char(1, k)))
    } else {
        Some(string_of("auto"))
    }
}

/// Decides between the window and batch repair. `Err` holds the message for a bad argument.
pub fn parse_command_line(args: Vec<String>) -> (r: Result<Command, String>)
    ensures
        match r {
            Ok(c) => parse_spec(args@.map_values(|a: String| a@)) == Ok::<CommandSpec, Seq<char>>(c.view_spec()),
            Err(m) => parse_spec(args@.map_values(|a: String| a@)) == Err::<CommandSpec, Seq<char>>(m@),
        },
{
    let ghost av = args@.map_values(|a: String| a@);
    if args.len() == 0 {
        let e: Vec<std::path::PathBuf> = Vec::new();
        assert(e@.map_values(|p: std::path::PathBuf| path_text(p)) =~= Seq::<Seq<u8>>::empty());
        return Ok(Command::Gui { preload: e });
    }
    let mut i: usize = 0;
    while i < args.len()
        invariant
            av == args@.map_values(|a: String| a@),
            i <= args.len(),
            forall|j: int| 0 <= j < i ==> !is_help(#[trigger] av[j]),
        decreases args.len() - i,
    {
        assert(av[i as int] == args@[i as int]@);
        if str_eq(args[i].as_str(), "--help") || str_eq(args[i].as_str(), "-h") {
            assert(is_help(av[i as int]));
            return Ok(Command::Usage);
        }
        i += 1;
    }
    let mut i: usize = 0;
    while i < args.len()
        invariant
            av == args@.map_values(|a: String| a@),
            i <= args.len(),
            forall|j: int| 0 <= j < i ==> !is_version(#[trigger] av[j]),
            forall|j: int| 0 <= j < av.len() ==> !is_help(#[trigger] av[j]),
        decreases args.len() - i,
    {
        assert(av[i as int] == args@[i as int]@);
        if str_eq(args[i].as_str(), "--version") || str_eq(args[i].as_str(), "-V") {
            assert(is_version(av[i as int]));
            return Ok(Command::Version);
        }
        i += 1;
    }
    let mut opts = FixOptions { rotate_cover: RotateCover::Auto };
    let mut files: Vec<String> = Vec::new();
    let mut gui = false;
    let mut i: usize = 0;
    assert(av.subrange(0, 0).len() == 0);
    assert(files@.map_values(|f: String| f@) =~= Seq::<Seq<char>>::empty());
    while i < args.len()
        invariant
            av == args@.map_values(|a: String| a@),
            av.len() > 0,
            forall|j: int| 0 <= j < av.len() ==> !is_help(#[trigger] av[j]),
            forall|j: int| 0 <= j < av.len() ==> !is_version(#[trigger] av[j]),
            i <= args.len(),
            scan(av.subrange(0, i as int)) == Ok::<(bool, FixOptions, Seq<Seq<char>>), Seq<char>>(
                (gui, opts, files@.map_values(|f: String| f@)),
            ),
        decreases args.len() - i,
    {
        let a = &args[i];
        assert(av[i as int] == a@);
        assert(av.subrange(0, i + 1).drop_last() == av.subrange(0, i as int));
        assert(av.subrange(0, i + 1).last() == a@);
        if str_eq(a.as_str(), "--gui") {
            gui = true;
        } else if str_eq(a.as_str(), "--no-rotate-cover") {
            opts = FixOptions { rotate_cover: RotateCover::Off };
        } else {
            match rotate_argument(a.as_str()) {
                Some(v) => match mode_value(v.as_str()) {
                    Some(m) => {
                        opts = FixOptions { rotate_cover: m };
                    },
                    None => {
                        let mut msg = string_of("--rotate-cover 取值无效: ");
                        msg.append(v.as_str());
                        proof {
                            lemma_scan_error_extends(av, (i + 1) as int, v@);
                        }
                        return Err(msg);
                    },
                },
                None => {
                    let ghost fv = files@.map_values(|f: String| f@);
                    files.push(string_of(a.as_str()));
                    assert(files@.map_values(|f: String| f@) =~= fv.push(a@));
                },
            }
        }
        i += 1;
    }
    assert(av.subrange(0, args.len() as int) == av);
    if gui {
        let mut preload: Vec<std::path::PathBuf> = Vec::new();
        let mut k: usize = 0;
        while k < files.len()
            invariant
                k <= files.len(),
                preload@.map_values(|p: std::path::PathBuf| path_text(p)) == files@.map_values(
                    |f: String| f@,
                ).map_values(|f: Seq<char>| vstd::utf8::encode_utf8(f)).subrange(0, k as int),
            decreases files.len() - k,
        {
            let ghost pv = preload@.map_values(|p: std::path::PathBuf| path_text(p));
            let p = path_from_string(string_of(files[k].as_str()));
            let ghost t = path_text(p);
            preload.push(p);
            k += 1;
            assert(preload@.map_values(|p: std::path::PathBuf| path_text(p)) =~= pv.push(t));
            assert(files@.map_values(|f: String| f@).map_values(|f: Seq<char>| vstd::utf8::encode_utf8(f)).subrange(
                0,
                k as int,
            ) =~= files@.map_values(|f: String| f@).map_values(|f: Seq<char>| vstd::utf8::encode_utf8(f)).subrange(
                0,
                k - 1,
            ).push(t));
        }
        assert(files@.map_values(|f: String| f@).map_values(|f: Seq<char>| vstd::utf8::encode_utf8(f)).subrange(
            0,
            files.len() as int,
        ) == files@.map_values(|f: String| f@).map_values(|f: Seq<char>| vstd::utf8::encode_utf8(f)));
        return Ok(Command::Gui { preload });
    }
    if files.len() == 0 {
        return Ok(Command::Usage);
    }
    Ok(Command::Cli { opts, files })
}

proof fn lemma_scan_error_extends(args: Seq<Seq<char>>, k: int, v: Seq<char>)
    requires
        0 <= k <= args.len(),
        scan(args.subrange(0, k)) == Err::<(bool, FixOptions, Seq<Seq<char>>), Seq<char>>(v),
    ensures
        scan(args) == Err::<(bool, FixOptions, Seq<Seq<char>>), Seq<char>>(v),
    decreases args.len() - k,
{
    if k == args.len() {
        assert(args.subrange(0, k) == args);
    } else {
        assert(args.subrange(0, k + 1).drop_last() == args.subrange(0, k));
        lemma_scan_error_extends(args, k + 1, v);
    }
}

/// The lines of the usage text.
pub open spec fn usage_spec() -> Seq<Seq<char>> {
    seq![
        "KmoeFix "@ + VERSION@ + " - 修复 Kmoe 导出 EPUB（CLI 与图形界面同一个程序）"@,
        "用法:"@,
        "  KmoeFix                             不带参数：打开图形界面（双击 exe 同样）"@,
        "  KmoeFix <file.epub> ...             命令行批量处理"@,
        "  KmoeFix --gui [file.epub ...]       打开图形界面，并把文件装填进列表"@,
        "  KmoeFix --help | --version"@,
        ""@,
        "选项（仅命令行批处理）:"@,
        "  --no-rotate-cover     不做任何图片处理（图片逐字节原样写出；站点卡片页的移位照常）"@,
        "  --rotate-cover=90     判出侧放后按顺时针 90 度回正（覆盖自动判定的方向；180/270 同理）"@,
        "  不带开关时 = 自动回正：只有包内有同名参照图 <图名>-RAWIMAGE.<ext> 时才转，"@,
        "  参照图缺失或相似度不足一律不动，不做尺寸猜测"@,
        ""@,
        "输出与退出码:"@,
        "  产物写到源文件同目录的 *_修正版.epub（已存在则递增为 *_修正版 (1).epub），不覆盖原文件"@,
        "  全部成功退出码 0；任一文件失败 1；参数非法 2"@,
    ]
}

fn push_string(out: &mut Vec<String>, s: String)
    ensures
        final(out)@.map_values(|x: String| x@) == old(out)@.map_values(|x: String| x@).push(s@),
{
    let ghost sv = s@;
    out.push(s);
    assert(out@.map_values(|x: String| x@) =~= old(out)@.map_values(|x: String| x@).push(sv));
}

/// The usage text, line by line.
pub fn usage_lines() -> (r: Vec<String>)
    ensures
        r@.map_values(|x: String| x@) == usage_spec(),
{
    let mut out: Vec<String> = Vec::new();
    let mut first = string_of("KmoeFix ");
    first.append(VERSION);
    first.append(" - 修复 Kmoe 导出 EPUB（CLI 与图形界面同一个程序）");
    push_string(&mut out, first);
    push_string(&mut out, string_of("用法:"));
    push_string(&mut out, string_of("  KmoeFix                             不带参数：打开图形界面（双击 exe 同样）"));
    push_string(&mut out, string_of("  KmoeFix <file.epub> ...             命令行批量处理"));
    push_string(&mut out, string_of("  KmoeFix --gui [file.epub ...]       打开图形界面，并把文件装填进列表"));
    push_string(&mut out, string_of("  KmoeFix --help | --version"));
    push_string(&mut out, string_of(""));
    push_string(&mut out, string_of("选项（仅命令行批处理）:"));
    push_string(&mut out, string_of("  --no-rotate-cover     不做任何图片处理（图片逐字节原样写出；站点卡片页的移位照常）"));
    push_string(&mut out, string_of("  --rotate-cover=90     判出侧放后按顺时针 90 度回正（覆盖自动判定的方向；180/270 同理）"));
    push_string(&mut out, string_of("  不带开关时 = 自动回正：只有包内有同名参照图 <图名>-RAWIMAGE.<ext> 时才转，"));
    push_string(&mut out, string_of("  参照图缺失或相似度不足一律不动，不做尺寸猜测"));
    push_string(&mut out, string_of(""));
    push_string(&mut out, string_of("输出与退出码:"));
    push_string(&mut out, string_of("  产物写到源文件同目录的 *_修正版.epub（已存在则递增为 *_修正版 (1).epub），不覆盖原文件"));
    push_string(&mut out, string_of("  全部成功退出码 0；任一文件失败 1；参数非法 2"));
    assert(out@.map_values(|x: String| x@) =~= usage_spec());
    out
}

/// Writes a line to standard output with `writeln!`; claims nothing of the outcome but
/// whether the write succeeded is returned.
#[verifier::external_body]
fn write_stdout_line(s: &str) -> bool {
    let stdout = std::io::stdout();
    let mut lock = stdout.lock();
    writeln!(lock, "{s}").is_ok()
}

/// `s` with every character outside ASCII replaced by U+FFFD.
pub open spec fn ascii_safe_spec(s: Seq<char>) -> Seq<char> {
    Seq::new(s.len(), |i: int| if (s[i] as u32) < 128 { s[i] } else { '\u{fffd}' })
}

/// `s` with every character outside ASCII replaced by U+FFFD.
pub fn ascii_safe(s: &str) -> (r: String)
    ensures
        r@ == ascii_safe_spec(s@),
{
    let n = s.unicode_len();
    let mut v: Vec<char> = Vec::new();
    let mut i: usize = 0;
    while i < n
        invariant
            n == s@.len(),
            i <= n,
            v@ == ascii_safe_spec(s@).subrange(0, i as int),
        decreases n - i,
    {
        let c = s.get_char(i);
        if (c as u32) < 128 {
            v.push(c);
        } else {
            v.push('\u{fffd}');
        }
        i += 1;
        assert(v@ =~= ascii_safe_spec(s@).subrange(0, i as int));
    }
    assert(ascii_safe_spec(s@).subrange(0, n as int) =~= ascii_safe_spec(s@));
    string_from_chars(&v)
}

/// Prints a line; where the console refuses it (a console code page that cannot show the
/// text), prints it again with the characters outside ASCII replaced.
pub fn print_line(s: &str) {
    if !write_stdout_line(s) {
        let safe = ascii_safe(s);
        let _ = write_stdout_line(safe.as_str());
    }
}

/// Prints the usage text.
pub fn print_usage() {
    let lines = usage_lines();
    let mut i: usize = 0;
    while i < lines.len()
        invariant
            i <= lines.len(),
        decreases lines.len() - i,
    {
        print_line(lines[i].as_str());
        i += 1;
    }
}

} // verus!
