use kmoefix::archive::{zip_build, zip_directory, BuildFault, EntryFault};
use kmoefix::cli::{ascii_safe, usage_lines};
use kmoefix::layout::{page_width, sort_positions};
use kmoefix::output::{build_outcome, check_output, is_png_name, log_lines, rotation_angle};
use kmoefix::pages::{relabel_page_text, renumber_page_text, replace_first_number};
use kmoefix::paths::{base_name, choose_dst, first_free, dst_candidate_bytes, raw_reference, split_ext};
use kmoefix::refmap::{rewrite_refs, OrderedMap};
use kmoefix::selection::{batch_summary, is_supported_extension, new_files, remove_rows, Selection};
use kmoefix::text::{padded, parse_u32};
use kmoefix::{get_unique_dst, Config, FixOptions, RepairError, RotateCover, VERSION};

fn b(s: &str) -> Vec<u8> {
    s.as_bytes().to_vec()
}

fn s(v: &[u8]) -> String {
    String::from_utf8(v.to_vec()).unwrap()
}

#[test]
fn plain_click_selects_one_row() {
    let mut sel = Selection::new();
    sel.click(Some(2), false, false);
    assert_eq!(sel.rows(), &vec![2]);
    sel.click(Some(0), false, false);
    assert_eq!(sel.rows(), &vec![0]);
}

#[test]
fn ctrl_click_toggles_and_keeps_order() {
    let mut sel = Selection::new();
    sel.click(Some(4), false, true);
    sel.click(Some(1), false, true);
    sel.click(Some(3), false, true);
    assert_eq!(sel.rows(), &vec![1, 3, 4]);
    sel.click(Some(3), false, true);
    assert_eq!(sel.rows(), &vec![1, 4]);
    assert!(sel.is_selected(4));
    assert!(!sel.is_selected(3));
}

#[test]
fn shift_click_selects_a_range_from_the_anchor() {
    let mut sel = Selection::new();
    sel.click(Some(5), false, false);
    sel.click(Some(2), true, true);
    assert_eq!(sel.rows(), &vec![2, 3, 4, 5]);
    // The anchor stays: a second Shift-click extends from it again.
    sel.click(Some(7), true, true);
    assert_eq!(sel.rows(), &vec![5, 6, 7]);
    // Without an anchor the range is the row alone.
    let mut fresh = Selection::new();
    fresh.click(Some(3), true, false);
    assert_eq!(fresh.rows(), &vec![3]);
}

#[test]
fn click_beside_the_rows_clears() {
    let mut sel = Selection::new();
    sel.click(Some(1), false, false);
    sel.click(None, false, false);
    assert!(sel.rows().is_empty());
    sel.click(Some(4), true, false);
    assert_eq!(sel.rows(), &vec![4]);
}

#[test]
fn removing_selected_rows_keeps_the_rest_in_order() {
    let mut files = vec!["a", "b", "c", "d", "e"];
    let mut sel = Selection::new();
    sel.click(Some(1), false, true);
    sel.click(Some(3), false, true);
    sel.click(Some(4), false, true);
    let n = sel.remove_from(&mut files);
    assert_eq!(n, 3);
    assert_eq!(files, vec!["a", "c"]);
    assert!(sel.rows().is_empty());

    let mut more = vec![10, 11, 12, 13];
    assert_eq!(remove_rows(&mut more, &vec![0, 3]), 2);
    assert_eq!(more, vec![11, 12]);
}

#[test]
fn batch_end_opens_the_selected_output_and_drops_repaired_rows() {
    let mut files = vec!["a", "b", "c", "d"];
    let mut sel = Selection::new();
    sel.click(Some(1), false, false);
    let target = sel.finish_batch(&mut files, &vec![true, true, false, true]);
    assert_eq!(target, Some(1));
    assert_eq!(files, vec!["c"]);
    assert!(sel.rows().is_empty());
}

#[test]
fn batch_end_without_a_repaired_selection_opens_the_last_repaired() {
    let mut files = vec!["a", "b", "c", "d"];
    let mut sel = Selection::new();
    sel.click(Some(2), false, false);
    let target = sel.finish_batch(&mut files, &vec![true, true, false, false]);
    assert_eq!(target, Some(1));
    assert_eq!(files, vec!["c", "d"]);

    let mut none = vec!["x", "y"];
    let mut empty = Selection::new();
    assert_eq!(empty.finish_batch(&mut none, &vec![false, false]), None);
    assert_eq!(none, vec!["x", "y"]);
}

#[test]
fn supported_extensions_ignore_case() {
    assert!(is_supported_extension("epub"));
    assert!(is_supported_extension("EPUB"));
    assert!(is_supported_extension("Zip"));
    assert!(is_supported_extension("cbz"));
    assert!(!is_supported_extension("rar"));
    assert!(!is_supported_extension(""));
}

#[test]
fn neeview_program_is_trimmed() {
    let cfg = Config { neeview_path: "  C:\\NeeView\\NeeView.exe \t".to_string(), ..Config::default() };
    assert_eq!(cfg.neeview_program(), "C:\\NeeView\\NeeView.exe");
    assert_eq!(Config::default().neeview_program(), "");
}

#[test]
fn numbers_are_zero_padded() {
    assert_eq!(s(&padded(7, 3)), "007");
    assert_eq!(s(&padded(42, 3)), "042");
    assert_eq!(s(&padded(1234, 3)), "1234");
    assert_eq!(s(&padded(0, 0)), "0");
}

#[test]
fn width_is_at_least_three_digits() {
    assert_eq!(page_width(0), 3);
    assert_eq!(page_width(99), 3);
    assert_eq!(page_width(999), 3);
    assert_eq!(page_width(1000), 4);
    assert_eq!(page_width(123456), 6);
}

#[test]
fn decimal_numbers_parse_within_u32() {
    assert_eq!(parse_u32(b"146"), Some(146));
    assert_eq!(parse_u32(b"+12"), Some(12));
    assert_eq!(parse_u32(b"007"), Some(7));
    assert_eq!(parse_u32(b"4294967295"), Some(u32::MAX));
    assert_eq!(parse_u32(b"4294967296"), None);
    assert_eq!(parse_u32(b""), None);
    assert_eq!(parse_u32(b"12a"), None);
}

#[test]
fn extensions_split_at_the_last_dot_of_the_name() {
    assert_eq!(split_ext(b"dir/book.epub"), (b("dir/book"), b(".epub")));
    assert_eq!(split_ext(b"a.b/c"), (b("a.b/c"), b("")));
    assert_eq!(split_ext(b"image/theend"), (b("image/theend"), b("")));
    assert_eq!(split_ext(b".bashrc"), (b(".bashrc"), b("")));
    assert_eq!(split_ext(b"x\\y.tar.gz"), (b("x\\y.tar"), b(".gz")));
    let (base, ext) = split_ext(b"html/page-001.html");
    assert_eq!([base, ext].concat(), b("html/page-001.html"));
    assert_eq!(base_name(b"html/page-001.html"), b("page-001.html"));
    assert_eq!(base_name(b"a\\b"), b("b"));
}

#[test]
fn output_names_carry_the_suffix_and_a_counter() {
    assert_eq!(s(&dst_candidate_bytes("dir/book.epub".as_bytes(), 0)), "dir/book_修正版.epub");
    assert_eq!(s(&dst_candidate_bytes("dir/book.epub".as_bytes(), 2)), "dir/book_修正版 (2).epub");
    assert_eq!(s(&dst_candidate_bytes("noext".as_bytes(), 1)), "noext_修正版 (1)");
}

#[test]
fn unique_output_in_a_missing_directory_is_the_first_candidate() {
    let src = "/nonexistent-kmoefix-dir/vol01.epub";
    assert_eq!(get_unique_dst(src), std::path::PathBuf::from("/nonexistent-kmoefix-dir/vol01_修正版.epub"));
    assert_ne!(get_unique_dst(src), std::path::PathBuf::from(src));
}

#[test]
fn a_given_output_that_does_not_exist_is_used() {
    let got = choose_dst("/nonexistent-kmoefix-dir/a.epub", Some("/nonexistent-kmoefix-dir/out.epub"));
    assert_eq!(got, std::path::PathBuf::from("/nonexistent-kmoefix-dir/out.epub"));
    let auto = choose_dst("/nonexistent-kmoefix-dir/a.epub", None);
    assert_eq!(auto, std::path::PathBuf::from("/nonexistent-kmoefix-dir/a_修正版.epub"));
}

#[test]
fn reference_pictures_are_found_by_name() {
    let names = vec![b("image/a.jpg"), b("image/a-RAWIMAGE.PNG"), b("image/b.jpg"), b("image/c-rawimage.jpg")];
    assert_eq!(raw_reference(&names, b"image/a.jpg"), Some(b("image/a-RAWIMAGE.PNG")));
    assert_eq!(raw_reference(&names, b"image/c.jpg"), Some(b("image/c-rawimage.jpg")));
    assert_eq!(raw_reference(&names, b"image/b.jpg"), None);
}

#[test]
fn map_keeps_one_value_per_key() {
    let mut m = OrderedMap::new();
    m.insert(b("html/a.html"), b("html/page-001.html"));
    m.insert(b("html/b.html"), b("html/page-002.html"));
    m.insert(b("html/a.html"), b("html/page-003.html"));
    assert_eq!(m.len(), 2);
    assert_eq!(m.get(b"html/a.html"), Some(b("html/page-003.html")));
    assert_eq!(m.get(b"html/b.html"), Some(b("html/page-002.html")));
    assert_eq!(m.get(b"html/c.html"), None);
    assert!(m.contains_key(b"html/b.html"));
}

#[test]
fn references_are_renamed_once_even_when_names_relay() {
    // page-151 becomes page-150 while page-150 becomes page-149: each reference moves once.
    let mut m = OrderedMap::new();
    m.insert(b("html/page-150.html"), b("html/page-149.html"));
    m.insert(b("html/page-151.html"), b("html/page-150.html"));
    let text = b"<item href=\"html/page-150.html\"/><item href=\"html/page-151.html\"/><a src=\"../html/page-151.html\">";
    let out = rewrite_refs(text, &m);
    assert_eq!(
        s(&out),
        "<item href=\"html/page-149.html\"/><item href=\"html/page-150.html\"/><a src=\"../html/page-150.html\">"
    );
}

#[test]
fn first_number_is_replaced() {
    assert_eq!(s(&replace_first_number("第146頁".as_bytes(), 145)), "第145頁");
    assert_eq!(s(&replace_first_number("卷01 第146頁".as_bytes(), 9)), "卷9 第146頁");
    assert_eq!(s(&replace_first_number("封面".as_bytes(), 3)), "封面");
}

#[test]
fn page_text_is_renumbered_and_relabelled() {
    let html = "<head><title>第146頁</title></head><body><img src=\"../image/x.jpg\" alt=\"146\"/></body>";
    assert_eq!(
        s(&renumber_page_text(html.as_bytes(), 145)),
        "<head><title>第145頁</title></head><body><img src=\"../image/x.jpg\" alt=\"145\"/></body>"
    );
    assert_eq!(
        s(&relabel_page_text(html.as_bytes(), b"Kmoe")),
        "<head><title>Kmoe</title></head><body><img src=\"../image/x.jpg\" alt=\"Kmoe\"/></body>"
    );
}

#[test]
fn stable_sort_keeps_spine_order_among_equals() {
    assert_eq!(sort_positions(&vec![5, 1, 5, 0]), vec![3, 1, 0, 2]);
    assert_eq!(sort_positions(&vec![]), Vec::<usize>::new());
    assert_eq!(sort_positions(&vec![2, 2, 2]), vec![0, 1, 2]);
}

#[test]
fn angles_are_quarter_turns_only() {
    let auto = FixOptions::default();
    let fixed = FixOptions { rotate_cover: RotateCover::Fixed(90) };
    assert_eq!(rotation_angle(&auto, 270), Ok(270));
    assert_eq!(rotation_angle(&auto, 45), Err(45));
    assert_eq!(rotation_angle(&fixed, 270), Ok(90));
    assert_eq!(rotation_angle(&FixOptions { rotate_cover: RotateCover::Fixed(45) }, 90), Err(45));
    assert!(is_png_name(b"image/a.PNG"));
    assert!(!is_png_name(b"image/a.jpg"));
}

#[test]
fn log_lines_follow_the_options() {
    let off = FixOptions { rotate_cover: RotateCover::Off };
    let lines: Vec<String> = log_lines(&off, 0, 0).iter().map(|l| s(l)).collect();
    assert_eq!(lines, vec!["  页序已按页码重排完成（不含旋转处理）".to_string()]);
    let lines: Vec<String> = log_lines(&FixOptions::default(), 2, 1).iter().map(|l| s(l)).collect();
    assert_eq!(
        lines,
        vec![
            "  页序已按页码重排完成".to_string(),
            "  已回正 2 张侧放页".to_string(),
            "  已把 1 张站点卡片页移到卷末".to_string(),
        ]
    );
    let lines: Vec<String> = log_lines(&FixOptions::default(), 0, 0).iter().map(|l| s(l)).collect();
    assert_eq!(lines, vec!["  页序已按页码重排完成".to_string()]);
}

#[test]
fn usage_names_the_version_and_exit_codes() {
    let lines = usage_lines();
    assert_eq!(lines.len(), 16);
    assert_eq!(lines[0], format!("KmoeFix {VERSION} - 修复 Kmoe 导出 EPUB（CLI 与图形界面同一个程序）"));
    assert_eq!(lines[15], "  全部成功退出码 0；任一文件失败 1；参数非法 2");
    assert_eq!(ascii_safe("a中b"), "a\u{fffd}b");
    assert_eq!(ascii_safe("[OK] x"), "[OK] x");
}

#[test]
fn lossy_text_replaces_invalid_bytes() {
    assert_eq!(kmoefix::text::lossy(b"ok \xff!"), "ok \u{fffd}!".as_bytes().to_vec());
    assert_eq!(kmoefix::text::lossy("第1话".as_bytes()), "第1话".as_bytes().to_vec());
}

#[test]
fn archives_are_written_and_listed_in_order() {
    let entries = vec![
        (b("mimetype"), b("application/epub+zip"), false),
        (b("vol.opf"), b("<package/>"), true),
        (b("html/page-001.html"), b("<html/>"), true),
    ];
    let bytes = zip_build(&entries).unwrap();
    assert_eq!(zip_directory(&bytes).unwrap(), vec![b("mimetype"), b("vol.opf"), b("html/page-001.html")]);
    let mut z = zip::ZipArchive::new(std::io::Cursor::new(bytes)).unwrap();
    let mut text = String::new();
    std::io::Read::read_to_string(&mut z.by_name("vol.opf").unwrap(), &mut text).unwrap();
    assert_eq!(text, "<package/>");
    assert_eq!(z.by_name("mimetype").unwrap().compression(), zip::CompressionMethod::Stored);
    assert_eq!(z.by_name("vol.opf").unwrap().compression(), zip::CompressionMethod::Deflated);

    let bad = vec![(b("ok.txt"), b("x"), true), (vec![0xff, 0xfe], b("y"), true)];
    assert!(matches!(zip_build(&bad), Err(BuildFault::Entry(1, EntryFault::BadName))));
    let dup = vec![(b("a.txt"), b("x"), true), (b("a.txt"), b("y"), true)];
    assert!(matches!(zip_build(&dup), Err(BuildFault::Entry(1, EntryFault::Zip(_)))));
    let long = vec![(b("ok.txt"), b("x"), true), (vec![b'a'; 65536], b("y"), true)];
    assert!(matches!(zip_build(&long), Err(BuildFault::Entry(1, EntryFault::LongName))));
    let longest = vec![(vec![b'a'; 65535], b("y"), true)];
    assert!(matches!(zip_build(&longest), Ok(_)));
    assert!(zip_directory(b"no archive here").is_err());
}

#[test]
fn writer_failures_are_reported_by_entry_name() {
    let entries = vec![(b("a.txt"), b("x"), true), (b("b.txt"), b("y"), true)];
    match build_outcome(&entries, Err(BuildFault::Entry(1, EntryFault::BadName))) {
        Err(RepairError::BadName(n)) => assert_eq!(n, b("b.txt")),
        _ => panic!("expected BadName"),
    }
    match build_outcome(&entries, Err(BuildFault::Entry(0, EntryFault::Zip("boom".to_string())))) {
        Err(RepairError::Write(n, m)) => {
            assert_eq!(n, b("a.txt"));
            assert_eq!(m, "boom");
        },
        _ => panic!("expected Write"),
    }
    match build_outcome(&entries, Err(BuildFault::Entry(1, EntryFault::LongName))) {
        Err(RepairError::LongName(n)) => assert_eq!(n, b("b.txt")),
        _ => panic!("expected LongName"),
    }
    assert!(matches!(build_outcome(&entries, Err(BuildFault::Finish("end".to_string()))), Err(RepairError::Finish(m)) if m == "end"));
    assert!(matches!(build_outcome(&entries, Ok(vec![1, 2])), Ok(v) if v == vec![1, 2]));
}

#[test]
fn first_free_candidate_follows_the_answers() {
    assert_eq!(first_free(&vec![]), 0);
    assert_eq!(first_free(&vec![false]), 0);
    assert_eq!(first_free(&vec![true, true, false, true]), 2);
    assert_eq!(first_free(&vec![true, true]), 2);
}

#[test]
fn merged_map_prefers_the_second_and_keeps_key_order() {
    let mut h = OrderedMap::new();
    h.insert(b("a"), b("1"));
    h.insert(b("b"), b("2"));
    let mut i = OrderedMap::new();
    i.insert(b("c"), b("3"));
    i.insert(b("a"), b("9"));
    let m = kmoefix::refmap::merge_refs(&h, &i);
    assert_eq!(m.len(), 3);
    assert_eq!(m.get(b"a"), Some(b("9")));
    assert_eq!(m.get(b"b"), Some(b("2")));
    assert_eq!(m.get(b"c"), Some(b("3")));
    let keys: Vec<Vec<u8>> = (0..m.len()).map(|k| m.entry(k).0.clone()).collect();
    assert_eq!(keys, vec![b("a"), b("b"), b("c")]);
}

#[test]
fn the_last_turning_flag_wins_and_flags_are_not_files() {
    let args: Vec<String> = ["--rotate-cover=90", "x.epub", "--no-rotate-cover", "y.epub", "--rotate-cover=180"]
        .iter()
        .map(|s| s.to_string())
        .collect();
    assert_eq!(
        kmoefix::parse_command_line(args),
        Ok(kmoefix::Command::Cli {
            opts: FixOptions { rotate_cover: RotateCover::Fixed(180) },
            files: vec!["x.epub".to_string(), "y.epub".to_string()],
        })
    );
}

#[test]
fn read_back_reports_the_first_spine_difference() {
    let opf = "<manifest><item id=\"p1\" href=\"html/cover.html\" media-type=\"x\"/>\
<item id=\"p2\" href=\"html/page-001.html\" media-type=\"x\"/></manifest>\
<spine><itemref idref=\"p1\"/><itemref idref=\"p2\"/></spine>";
    let entries = vec![
        (b("vol.opf"), b(opf), true),
        (b("html/cover.html"), b("<title>cover</title>"), true),
        (b("html/page-001.html"), b("<title>第1话</title>"), true),
    ];
    let bytes = zip_build(&entries).unwrap();
    let same = vec![b("html/cover.html"), b("html/page-001.html")];
    assert!(check_output(&bytes, b"vol.opf", &same).is_ok());
    let other = vec![b("html/cover.html"), b("html/page-002.html")];
    match check_output(&bytes, b"vol.opf", &other) {
        Err(RepairError::ReadbackSpine { index, got, want }) => {
            assert_eq!(index, 1);
            assert_eq!(got, Some(b("html/page-001.html")));
            assert_eq!(want, Some(b("html/page-002.html")));
        },
        _ => panic!("expected ReadbackSpine"),
    }
    let longer = vec![b("html/cover.html"), b("html/page-001.html"), b("html/theend.html")];
    match check_output(&bytes, b"vol.opf", &longer) {
        Err(RepairError::ReadbackSpine { index, got, want }) => {
            assert_eq!(index, 2);
            assert_eq!(got, None);
            assert_eq!(want, Some(b("html/theend.html")));
        },
        _ => panic!("expected ReadbackSpine"),
    }
    assert!(matches!(check_output(&bytes, b"other.opf", &same), Err(RepairError::ReadbackNoOpf(_))));
    assert!(matches!(check_output(b"not a zip", b"vol.opf", &same), Err(RepairError::ReadbackNotZip(_))));
}

#[test]
fn new_files_skip_known_unsupported_and_repeated() {
    let known = vec![b("a.zip")];
    let cands = vec![
        (b("a.zip"), true),
        (b("b.epub"), true),
        (b("c.txt"), false),
        (b("b.epub"), true),
        (b("d.cbz"), false),
        (b("d.cbz"), true),
    ];
    assert_eq!(new_files(&known, &cands), vec![1, 5]);
    assert_eq!(new_files(&Vec::new(), &Vec::new()), Vec::<usize>::new());
}

#[test]
fn batch_summary_counts_both_sides() {
    let (line, ok) = batch_summary(3, 0);
    assert_eq!(String::from_utf8(line).unwrap(), "全部完成: 成功 3 / 失败 0");
    assert!(ok);
    let (line, ok) = batch_summary(1, 12);
    assert_eq!(String::from_utf8(line).unwrap(), "全部完成: 成功 1 / 失败 12");
    assert!(!ok);
}
