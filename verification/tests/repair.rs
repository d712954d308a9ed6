use std::io::{Cursor, Read, Write};

use kmoefix::epub::open_volume;
use kmoefix::layout::{arrange, card_plan, mark_cards};
use kmoefix::archive::try_read;
use kmoefix::output::{assemble, rotation_plan, turn_decision, Repaired, RotationRole};
use kmoefix::{FixOptions, RepairError, RotateCover};
use zip::write::SimpleFileOptions;
use zip::{CompressionMethod, ZipArchive, ZipWriter};

fn write_zip(entries: &[(String, Vec<u8>)]) -> Vec<u8> {
    let mut zw = ZipWriter::new(Cursor::new(Vec::new()));
    for (name, data) in entries {
        let method = if name == "mimetype" { CompressionMethod::Stored } else { CompressionMethod::Deflated };
        zw.start_file(name.as_str(), SimpleFileOptions::default().compression_method(method)).unwrap();
        zw.write_all(data).unwrap();
    }
    zw.finish().unwrap().into_inner()
}

/// A volume like the site exports: (href, title value) in spine order, "cover" / "theend" /
/// a chapter number.
fn make_epub(spine_order: &[(&str, &str)], with_nav: bool) -> Vec<u8> {
    make_epub_with(spine_order, with_nav, "<spine>", &[])
}

/// The same, with the given opening spine tag.
fn make_epub_with(spine_order: &[(&str, &str)], with_nav: bool, spine_open: &str, extra: &[(&str, &[u8])]) -> Vec<u8> {
    let mut manifest = String::new();
    let mut spine = String::new();
    let mut entries: Vec<(String, Vec<u8>)> = vec![("mimetype".to_string(), b"application/epub+zip".to_vec())];
    let mut pages: Vec<(String, Vec<u8>)> = Vec::new();
    let mut images: Vec<(String, Vec<u8>)> = Vec::new();
    for (idx, (href, tv)) in spine_order.iter().enumerate() {
        let img = if href.ends_with("cover.html") {
            "image/cover.jpg".to_string()
        } else if href.ends_with("theend.html") {
            "image/theend.jpg".to_string()
        } else {
            format!("image/page-{tv}.jpg")
        };
        manifest += &format!("  <item id=\"item{idx}\" href=\"{href}\" media-type=\"application/xhtml+xml\" />\n");
        manifest += &format!("  <item id=\"img{idx}\" href=\"{img}\" media-type=\"image/jpeg\" />\n");
        spine += &format!("  <itemref idref=\"item{idx}\" />\n");
        let title = match *tv {
            "cover" => "Book Cover".to_string(),
            "theend" => "THE END".to_string(),
            _ => format!("第{tv}话"),
        };
        let html = format!(
            "<?xml version=\"1.0\" encoding=\"utf-8\"?>\n<html xmlns=\"http://www.w3.org/1999/xhtml\">\n<head><title>{title}</title></head>\n<body>\n<div><img src=\"../{img}\" kmoetag=\"dirty\" kimageraw=\"dirty\" raw=\"dirty\" /></div>\n<p>content for {href}</p>\n</body>\n</html>"
        );
        pages.push((href.to_string(), html.into_bytes()));
        images.push((img.clone(), format!("fake jpeg {img}").into_bytes()));
    }
    let opf = format!(
        "<?xml version=\"1.0\" encoding=\"utf-8\"?>\n<package version=\"3.0\">\n<manifest>\n{manifest}</manifest>\n{spine_open}\n{spine}</spine>\n</package>"
    );
    entries.push(("vol.opf".to_string(), opf.into_bytes()));
    entries.extend(pages);
    entries.extend(images);
    if with_nav {
        let mut nav = String::from("<?xml version=\"1.0\" encoding=\"utf-8\"?>\n<nav><ol>\n");
        for (href, _) in spine_order {
            nav += &format!("  <li><a src=\"../{href}\">{href}</a></li>\n");
        }
        nav += "</ol></nav>";
        entries.push(("xml/vol.nav".to_string(), nav.into_bytes()));
    }
    for (name, bytes) in extra {
        entries.push((name.to_string(), bytes.to_vec()));
    }
    entries.push((
        "META-INF/container.xml".to_string(),
        br#"<?xml version="1.0"?><container><rootfiles><rootfile full-path="vol.opf" /></rootfiles></container>"#.to_vec(),
    ));
    write_zip(&entries)
}

/// The repair without picture comparisons: `hits` are the candidate positions judged to be
/// site cards.
fn run_with(data: &[u8], opts: &FixOptions, hits: &[usize]) -> Result<Repaired, RepairError> {
    let mut v = open_volume(data)?;
    let compared = card_plan(&v).is_some();
    if compared {
        mark_cards(&mut v, &hits.to_vec());
    }
    let l = arrange(&v, data, compared)?;
    let _ = rotation_plan(&l, opts);
    assemble(&l, data, &Vec::new(), opts)
}

fn run(data: &[u8]) -> Result<Repaired, RepairError> {
    run_with(data, &FixOptions::default(), &[])
}

fn open(bytes: &[u8]) -> ZipArchive<Cursor<Vec<u8>>> {
    ZipArchive::new(Cursor::new(bytes.to_vec())).unwrap()
}

fn names(z: &ZipArchive<Cursor<Vec<u8>>>) -> Vec<String> {
    (0..z.len()).map(|i| z.name_for_index(i).unwrap().to_string()).collect()
}

fn read_text(z: &mut ZipArchive<Cursor<Vec<u8>>>, name: &str) -> String {
    let mut buf = Vec::new();
    z.by_name(name).unwrap().read_to_end(&mut buf).unwrap();
    String::from_utf8_lossy(&buf).into_owned()
}

fn read_bytes(z: &mut ZipArchive<Cursor<Vec<u8>>>, name: &str) -> Vec<u8> {
    let mut buf = Vec::new();
    z.by_name(name).unwrap().read_to_end(&mut buf).unwrap();
    buf
}

/// The hrefs of the spine, read through the manifest.
fn spine_order(opf: &str) -> Vec<String> {
    let item = regex::Regex::new(r#"<item[^>]*\sid="([^"]+)"[^>]*href="([^"]+)""#).unwrap();
    let itemref = regex::Regex::new(r#"<itemref[^>]*idref="([^"]+)"#).unwrap();
    let map: Vec<(String, String)> = item.captures_iter(opf).map(|c| (c[1].to_string(), c[2].to_string())).collect();
    itemref
        .captures_iter(opf)
        .filter_map(|c| map.iter().find(|(id, _)| id == &c[1]).map(|(_, h)| h.clone()))
        .collect()
}

#[test]
fn test_sorted_epub_fix() {
    let data = make_epub(
        &[
            ("html/cover.html", "cover"),
            ("html/page-1.html", "1"),
            ("html/page-2.html", "2"),
            ("html/page-3.html", "3"),
            ("html/theend.html", "theend"),
        ],
        true,
    );
    let out = run(&data).unwrap();
    let mut z = open(&out.bytes);
    let namelist = names(&z);
    assert_eq!(namelist[0], "mimetype");
    assert_eq!(z.by_name("mimetype").unwrap().compression(), CompressionMethod::Stored);
    assert_eq!(read_bytes(&mut z, "mimetype"), b"application/epub+zip");
    for want in ["html/cover.html", "html/theend.html", "html/page-001.html", "html/page-002.html", "html/page-003.html"] {
        assert!(namelist.iter().any(|n| n == want), "缺少 {want}");
    }
    for gone in ["html/page-1.html", "html/page-2.html", "html/page-3.html"] {
        assert!(!namelist.iter().any(|n| n == gone), "不应存在 {gone}");
    }
    for want in ["image/001.jpg", "image/002.jpg", "image/003.jpg", "image/cover.jpg", "image/theend.jpg"] {
        assert!(namelist.iter().any(|n| n == want), "缺少 {want}");
    }
    for name in &namelist {
        if name.ends_with(".html") {
            let html = read_text(&mut z, name);
            assert!(!html.contains("kmoetag"), "{name} 仍有 kmoetag");
            assert!(!html.contains("kimageraw"), "{name} 仍有 kimageraw");
            assert!(!html.contains(" raw="), "{name} 仍有 raw=");
        }
    }
    let opf = read_text(&mut z, "vol.opf");
    for want in [
        "href=\"html/page-001.html\"",
        "href=\"html/page-002.html\"",
        "href=\"html/page-003.html\"",
        "href=\"html/cover.html\"",
        "href=\"html/theend.html\"",
        "href=\"image/001.jpg\"",
    ] {
        assert!(opf.contains(want), "opf 缺少 {want}");
    }
    let nav = read_text(&mut z, "xml/vol.nav");
    assert!(nav.contains("html/page-001.html"), "nav 未改写");
    assert_eq!(out.log, vec!["  页序已按页码重排完成".as_bytes().to_vec()]);
}

#[test]
fn test_shuffled_epub_repairs() {
    let data = make_epub(
        &[
            ("html/page-3.html", "3"),
            ("html/page-1.html", "1"),
            ("html/cover.html", "cover"),
            ("html/page-2.html", "2"),
            ("html/theend.html", "theend"),
        ],
        true,
    );
    let out = run(&data).unwrap();
    let mut z = open(&out.bytes);
    let opf = read_text(&mut z, "vol.opf");
    assert_eq!(
        spine_order(&opf),
        vec!["html/cover.html", "html/page-001.html", "html/page-002.html", "html/page-003.html", "html/theend.html"]
    );
    for i in 1..=3 {
        let html = read_text(&mut z, &format!("html/page-00{i}.html"));
        assert!(html.contains(&format!("<title>第{i}话</title>")), "page-00{i} 标题不符");
    }
}

#[test]
fn test_shuffled_no_cover_theend_repairs() {
    let data = make_epub(&[("html/page-3.html", "3"), ("html/page-1.html", "1"), ("html/page-2.html", "2")], true);
    let out = run(&data).unwrap();
    let mut z = open(&out.bytes);
    let opf = read_text(&mut z, "vol.opf");
    for want in ["href=\"html/page-001.html\"", "href=\"html/page-002.html\"", "href=\"html/page-003.html\""] {
        assert!(opf.contains(want), "opf 缺少 {want}");
    }
    let namelist = names(&z);
    let idx1 = namelist.iter().position(|n| n == "html/page-001.html").unwrap();
    let idx2 = namelist.iter().position(|n| n == "html/page-002.html").unwrap();
    let idx3 = namelist.iter().position(|n| n == "html/page-003.html").unwrap();
    assert!(idx1 < idx2 && idx2 < idx3, "产物内 page 文件未按话数顺序排列");
}

#[test]
fn test_no_nav_is_optional() {
    let data = make_epub(&[("html/page-1.html", "1"), ("html/page-2.html", "2")], false);
    let out = run(&data).unwrap();
    let mut z = open(&out.bytes);
    assert!(!names(&z).iter().any(|n| n == "xml/vol.nav"), "产物不应凭空出现 nav");
    assert!(read_text(&mut z, "vol.opf").contains("html/page-001.html"));
}

#[test]
fn rerun_of_output_is_stable() {
    let data = make_epub(
        &[("html/page-2.html", "2"), ("html/cover.html", "cover"), ("html/page-1.html", "1"), ("html/theend.html", "theend")],
        true,
    );
    let first = run(&data).unwrap();
    let second = run(&first.bytes).unwrap();
    let mut a = open(&first.bytes);
    let mut b = open(&second.bytes);
    assert_eq!(names(&a), names(&b));
    assert_eq!(read_text(&mut a, "vol.opf"), read_text(&mut b, "vol.opf"));
    assert_eq!(read_text(&mut a, "html/page-002.html"), read_text(&mut b, "html/page-002.html"));
}

/// cover, chapters 1..4 (chapter 3 being a site card), the end page.
fn make_card_epub(with_theend: bool) -> Vec<u8> {
    let mut order = vec![
        ("html/cover.html", "cover"),
        ("html/page-001.html", "1"),
        ("html/page-002.html", "2"),
        ("html/page-003.html", "3"),
        ("html/page-004.html", "4"),
    ];
    if with_theend {
        order.push(("html/theend.html", "theend"));
    }
    make_epub(&order, true)
}

#[test]
fn test_site_card_page_moved_to_end() {
    let data = make_card_epub(true);
    let v = open_volume(&data).unwrap();
    let plan = card_plan(&v).unwrap();
    assert_eq!(plan.reference, b"image/theend.jpg".to_vec());
    assert_eq!(plan.candidates, vec![1, 2, 3, 4]);
    let out = run_with(&data, &FixOptions::default(), &[3]).unwrap();
    let mut z = open(&out.bytes);
    let namelist = names(&z);
    assert!(namelist.iter().any(|n| n == "html/kmoe-001.html"), "卡片页未改名: {namelist:?}");
    assert!(namelist.iter().any(|n| n == "image/kmoe-001.jpg"), "卡片图未改名: {namelist:?}");
    assert!(!namelist.iter().any(|n| n == "html/page-004.html"), "{namelist:?}");
    assert!(namelist.iter().any(|n| n == "image/003.jpg"), "前移的正文页图名不对: {namelist:?}");
    let opf = read_text(&mut z, "vol.opf");
    assert_eq!(
        spine_order(&opf),
        vec![
            "html/cover.html",
            "html/page-001.html",
            "html/page-002.html",
            "html/page-003.html",
            "html/kmoe-001.html",
            "html/theend.html",
        ]
    );
    let page3 = read_text(&mut z, "html/page-003.html");
    assert!(page3.contains("<title>第3话</title>"), "{page3}");
    assert!(page3.contains("src=\"../image/003.jpg\""), "{page3}");
    let card = read_text(&mut z, "html/kmoe-001.html");
    assert!(card.contains("<title>Kmoe</title>"), "{card}");
    assert!(card.contains("src=\"../image/kmoe-001.jpg\""), "{card}");
    let card_bytes = read_bytes(&mut z, "image/kmoe-001.jpg");
    assert_eq!(card_bytes, b"fake jpeg image/page-3.jpg".to_vec());
    assert!(out.log.iter().any(|l| l == "  已把 1 张站点卡片页移到卷末".as_bytes()), "{:?}", out.log);
}

#[test]
fn test_site_card_rerun_is_stable() {
    let data = make_card_epub(true);
    let first = run_with(&data, &FixOptions::default(), &[3]).unwrap();
    let second = run(&first.bytes).unwrap();
    let mut a = open(&first.bytes);
    let mut b = open(&second.bytes);
    assert_eq!(spine_order(&read_text(&mut a, "vol.opf")), spine_order(&read_text(&mut b, "vol.opf")));
    assert_eq!(read_text(&mut b, "html/page-003.html"), read_text(&mut a, "html/page-003.html"));
    assert_eq!(read_text(&mut b, "html/kmoe-001.html"), read_text(&mut a, "html/kmoe-001.html"));
    assert!(!names(&b).iter().any(|n| n == "html/page-004.html"));
}

#[test]
fn test_site_card_without_theend_keeps_original_names() {
    let data = make_card_epub(false);
    let v = open_volume(&data).unwrap();
    assert!(card_plan(&v).is_none());
    let out = run_with(&data, &FixOptions::default(), &[3]).unwrap();
    let mut z = open(&out.bytes);
    let namelist = names(&z);
    assert!(namelist.iter().any(|n| n == "html/page-003.html"), "{namelist:?}");
    assert!(namelist.iter().any(|n| n == "image/003.jpg"), "{namelist:?}");
    assert!(!namelist.iter().any(|n| n.starts_with("html/kmoe-")), "{namelist:?}");
    assert!(read_text(&mut z, "html/page-003.html").contains("<title>第3话</title>"));
}

#[test]
fn off_mode_logs_without_rotation() {
    let data = make_epub(&[("html/page-1.html", "1")], false);
    let out = run_with(&data, &FixOptions { rotate_cover: RotateCover::Off }, &[]).unwrap();
    assert_eq!(out.log, vec!["  页序已按页码重排完成（不含旋转处理）".as_bytes().to_vec()]);
}

#[test]
fn not_a_zip_is_refused() {
    assert!(matches!(run(b"not a zip at all"), Err(RepairError::NotZip(_))));
}

#[test]
fn missing_opf_is_refused() {
    let data = write_zip(&[("mimetype".to_string(), b"application/epub+zip".to_vec())]);
    assert!(matches!(run(&data), Err(RepairError::NoOpf)));
}

#[test]
fn empty_spine_is_refused() {
    let data = write_zip(&[("vol.opf".to_string(), b"<package><manifest></manifest><spine></spine></package>".to_vec())]);
    assert!(matches!(run(&data), Err(RepairError::EmptySpine)));
}

#[test]
fn pages_without_numbers_are_refused() {
    let data = make_epub(&[("html/cover.html", "cover"), ("html/theend.html", "theend")], false);
    assert!(matches!(run(&data), Err(RepairError::NoNumbers)));
}

#[test]
fn oversized_chapter_number_is_refused() {
    let data = make_epub(&[("html/page-1.html", "99999999999")], false);
    match run(&data) {
        Err(RepairError::BadNumber(d)) => assert_eq!(d, b"99999999999".to_vec()),
        other => panic!("{:?}", other.err()),
    }
}

#[test]
fn gap_in_pages_fails_the_readback() {
    let data = make_epub(&[("html/page-1.html", "1"), ("html/page-3.html", "3")], false);
    match run(&data) {
        Err(RepairError::ReadbackPages { got, want }) => {
            assert_eq!(got, vec![1, 3]);
            assert_eq!(want, vec![1, 2, 3]);
        },
        other => panic!("{:?}", other.err()),
    }
}

#[test]
fn wide_numbers_widen_the_names() {
    let data = make_epub(&[("html/page-1.html", "1"), ("html/page-2.html", "2")], false);
    let v = open_volume(&data).unwrap();
    let l = arrange(&v, &data, false).unwrap();
    assert_eq!(l.width, 3);
    assert_eq!(kmoefix::layout::page_width(1234), 4);
    assert_eq!(kmoefix::layout::page_width(999), 3);
}

#[test]
fn spine_tag_with_attributes_is_rebuilt_in_place() {
    let open_tag = r#"<spine page-progression-direction="rtl" toc="ncx" kmoe-pagedirect="rtl">"#;
    let data = make_epub_with(
        &[("html/page-2.html", "2"), ("html/cover.html", "cover"), ("html/page-1.html", "1"), ("html/theend.html", "theend")],
        true,
        open_tag,
        &[],
    );
    let out = run(&data).unwrap();
    let mut z = open(&out.bytes);
    let opf = read_text(&mut z, "vol.opf");
    assert!(opf.contains(open_tag), "{opf}");
    assert_eq!(
        spine_order(&opf),
        vec!["html/cover.html", "html/page-001.html", "html/page-002.html", "html/theend.html"]
    );
}

#[test]
fn pictures_to_turn_are_the_cover_chapter_one_and_referenced_pages() {
    let data = make_epub_with(
        &[
            ("html/cover.html", "cover"),
            ("html/page-1.html", "1"),
            ("html/page-2.html", "2"),
            ("html/page-3.html", "3"),
            ("html/theend.html", "theend"),
        ],
        false,
        "<spine>",
        &[("image/page-3-RAWIMAGE.png", b"reference")],
    );
    let v = open_volume(&data).unwrap();
    let l = arrange(&v, &data, false).unwrap();
    let plan = rotation_plan(&l, &FixOptions::default());
    let got: Vec<(Vec<u8>, RotationRole, Option<Vec<u8>>)> =
        plan.into_iter().map(|c| (c.image, c.role, c.reference)).collect();
    assert_eq!(
        got,
        vec![
            (b"image/cover.jpg".to_vec(), RotationRole::Cover, None),
            (b"image/page-1.jpg".to_vec(), RotationRole::FirstPage, None),
            (b"image/page-3.jpg".to_vec(), RotationRole::Page(3), Some(b"image/page-3-RAWIMAGE.png".to_vec())),
        ]
    );
    assert!(rotation_plan(&l, &FixOptions { rotate_cover: RotateCover::Off }).is_empty());
}

#[test]
fn pictures_not_turned_are_copied_byte_for_byte() {
    let data = make_epub(&[("html/page-1.html", "1"), ("html/page-2.html", "2")], false);
    let out = run_with(&data, &FixOptions { rotate_cover: RotateCover::Off }, &[]).unwrap();
    let mut z = open(&out.bytes);
    assert_eq!(read_bytes(&mut z, "image/001.jpg"), b"fake jpeg image/page-1.jpg".to_vec());
    assert_eq!(read_bytes(&mut z, "image/002.jpg"), b"fake jpeg image/page-2.jpg".to_vec());
}

#[test]
fn turned_pictures_replace_their_bytes() {
    let data = make_epub(&[("html/cover.html", "cover"), ("html/page-1.html", "1")], false);
    let v = open_volume(&data).unwrap();
    let l = arrange(&v, &data, false).unwrap();
    let turned = vec![(b"image/cover.jpg".to_vec(), b"turned".to_vec())];
    let out = assemble(&l, &data, &turned, &FixOptions::default()).unwrap();
    let mut z = open(&out.bytes);
    assert_eq!(read_bytes(&mut z, "image/cover.jpg"), b"turned".to_vec());
    assert_eq!(read_bytes(&mut z, "image/001.jpg"), b"fake jpeg image/page-1.jpg".to_vec());
    assert_eq!(
        out.log,
        vec!["  页序已按页码重排完成".as_bytes().to_vec(), "  已回正 1 张侧放页".as_bytes().to_vec()]
    );
}

#[test]
fn without_an_end_card_no_site_card_is_counted() {
    // A repaired volume whose end page is gone: its kmoe- pages are still cards, but no
    // comparison ran, so none is counted as moved.
    let data = make_epub(
        &[("html/page-001.html", "1"), ("html/page-002.html", "2"), ("html/kmoe-001.html", "3")],
        false,
    );
    let v = open_volume(&data).unwrap();
    assert!(card_plan(&v).is_none());
    assert!(v.entries[2].card);
    let l = arrange(&v, &data, false).unwrap();
    assert_eq!(l.card_count, 0);
    let out = assemble(&l, &data, &Vec::new(), &FixOptions::default()).unwrap();
    assert_eq!(out.log, vec!["  页序已按页码重排完成".as_bytes().to_vec()]);
    let counted = arrange(&v, &data, true).unwrap();
    assert_eq!(counted.card_count, 1);
}

#[test]
fn only_pictures_with_a_reference_turn() {
    let data = make_epub_with(
        &[("html/cover.html", "cover"), ("html/page-1.html", "1"), ("html/page-2.html", "2")],
        false,
        "<spine>",
        &[("image/page-2-RAWIMAGE.jpg", b"reference")],
    );
    let v = open_volume(&data).unwrap();
    let l = arrange(&v, &data, false).unwrap();
    let plan = rotation_plan(&l, &FixOptions::default());
    assert_eq!(plan.len(), 3);
    // The cover and chapter 1 have no reference: whatever the comparison says, they stay.
    assert_eq!(turn_decision(&plan[0], Some(90), &FixOptions::default()), Ok(None));
    assert_eq!(turn_decision(&plan[1], Some(270), &FixOptions::default()), Ok(None));
    // Page 2 has one: it turns by the angle found, or by the fixed angle, or is refused.
    assert_eq!(turn_decision(&plan[2], Some(90), &FixOptions::default()), Ok(Some(90)));
    assert_eq!(turn_decision(&plan[2], Some(0), &FixOptions::default()), Ok(None));
    assert_eq!(turn_decision(&plan[2], None, &FixOptions::default()), Ok(None));
    assert_eq!(
        turn_decision(&plan[2], Some(90), &FixOptions { rotate_cover: RotateCover::Fixed(270) }),
        Ok(Some(270))
    );
    assert_eq!(turn_decision(&plan[2], Some(45), &FixOptions::default()), Err(45));
    assert_eq!(try_read(&data, b"image/page-2-RAWIMAGE.jpg"), Some(b"reference".to_vec()));
    assert_eq!(try_read(&data, b"image/missing.jpg"), None);
}
