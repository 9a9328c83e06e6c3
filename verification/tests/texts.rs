use dsh::clock::{civil_from_days, clock_text, format_message_clock, iso8601, message_clock, Date, LocalTime};
use dsh::files::{
    child_path, fence_listing, fence_reading, files_failure_line, human_bytes, list_dir,
    order_entries, preview_failure_line, refuse_listing, refuse_reading,
    read_text_page, text_page, within_root, DirEntry, DirEntryKind, DirItem, FilesErrorKind,
    PathFault, PreviewErrorKind, DIR_MAX_ENTRIES, FILE_MAX_BYTES, PAGE_MAX_BYTES, PAGE_MAX_LINES,
};
use dsh::filetype::{
    attachment_image_object_path, base_name_of, classify_file_type, extension_of, image_media_type,
    is_image_path, FileKind,
};
use dsh::natural::natural_cmp;
use dsh::text::{
    contains_text, decimal, decimal_grouped, decimal_padded, ends_with, is_blank, join, lower_text,
    parse_u64, split, starts_with, strip_end, strip_prefix, strip_start, take_chars, trim,
    trim_start,
};
use dsh::usage::{
    file_size_text, fmt_capacity, format_run_duration, format_tokens_exact, percent_text,
    relative_time, CacheHit, TurnUsage,
};
use std::cmp::Ordering;

fn entry(name: &str, kind: DirEntryKind) -> DirEntry {
    DirEntry { name: name.to_string(), kind, size: None }
}

#[test]
fn numerals_are_written_and_read_back() {
    for n in [0, 7, 10, 1234567, u64::MAX] {
        assert_eq!(decimal(n), n.to_string());
        assert_eq!(parse_u64(&decimal(n)), Some(n));
    }
    assert_eq!(decimal_padded(7, 3), "007");
    assert_eq!(decimal_grouped(1234567), "1,234,567");
    assert_eq!(decimal_grouped(999), "999");
    for s in ["", "x", "1x", "18446744073709551616", "-1", "+5", "+", "007"] {
        assert_eq!(parse_u64(s), s.parse::<u64>().ok());
    }
}

#[test]
fn blanks_are_trimmed() {
    let s = " \u{3000}\t a b \n";
    assert_eq!(trim(s), s.trim());
    assert_eq!(trim_start(s), s.trim_start());
    assert!(is_blank(" \u{2028}"));
    assert!(!is_blank("a"));
    assert_eq!(strip_start("((a", &['(']), "a");
    assert_eq!(strip_end("a))", &[')']), "a");
}

#[test]
fn parts_of_texts_are_found() {
    assert!(starts_with("abc", "ab") && !starts_with("abc", "b"));
    assert!(ends_with("abc", "bc") && !ends_with("abc", "b"));
    assert!(contains_text("模型选择", "选") && !contains_text("模型", "选"));
    assert!(contains_text("a", ""));
    assert_eq!(strip_prefix("sha256:ab", "sha256:").as_deref(), Some("ab"));
    assert_eq!(take_chars("你好吗", 2), "你好");
    assert_eq!(lower_text("ÀB"), "Àb");
}

#[test]
fn splitting_and_joining_give_the_text_back() {
    for s in ["", "a", "a\nb", "\n", "a\n\nb\n"] {
        let parts = split(s, '\n');
        assert_eq!(parts, s.split('\n').map(|p| p.to_string()).collect::<Vec<String>>());
        assert_eq!(join(&parts, "\n"), s);
    }
}

#[test]
fn names_are_ordered_naturally() {
    assert_eq!(natural_cmp("file2", "file10"), Ordering::Less);
    assert_eq!(natural_cmp("File2", "file2"), "File2".cmp("file2"));
    assert_eq!(natural_cmp("a", "ab"), Ordering::Less);
    assert_eq!(natural_cmp("b", "a"), Ordering::Greater);
    assert_eq!(natural_cmp("x", "x"), Ordering::Equal);
    assert_eq!(natural_cmp("a01", "a1"), "a01".cmp("a1"));
    assert_eq!(natural_cmp("a1b", "a01c"), Ordering::Less);
}

#[test]
fn the_order_is_antisymmetric_and_transitive() {
    let names = ["", "a", "A", "a1", "a01", "a2", "a10", "ab", "é", "10", "9", "z"];
    for a in names {
        for b in names {
            assert_eq!(natural_cmp(a, b), natural_cmp(b, a).reverse());
            assert_eq!(natural_cmp(a, b) == Ordering::Equal, a == b);
            for c in names {
                if natural_cmp(a, b) == Ordering::Less && natural_cmp(b, c) == Ordering::Less {
                    assert_eq!(natural_cmp(a, c), Ordering::Less);
                }
            }
        }
    }
}

#[test]
fn folders_come_first() {
    let v = order_entries(&[
        entry("b.txt", DirEntryKind::File),
        entry("z", DirEntryKind::Directory),
        entry("a10", DirEntryKind::Other),
        entry("a2", DirEntryKind::File),
        entry("c", DirEntryKind::Directory),
    ]);
    let names: Vec<&str> = v.iter().map(|e| e.name.as_str()).collect();
    assert_eq!(names, vec!["c", "z", "a2", "a10", "b.txt"]);
}

#[test]
fn failure_lines_name_the_kind() {
    assert_eq!(
        files_failure_line(FilesErrorKind::NotFound, "x"),
        "这个目录不在了。可能已被移动或删除。"
    );
    assert_eq!(
        files_failure_line(FilesErrorKind::OutsideWorkspace, "x"),
        "这个目录在工作区之外，侧栏不会读取它。"
    );
    assert_eq!(files_failure_line(FilesErrorKind::NotDirectory, "x"), "这不是一个目录。");
    assert_eq!(files_failure_line(FilesErrorKind::Unavailable, "x"), "读取失败：x");
    assert_eq!(
        preview_failure_line(&PreviewErrorKind::TooLarge { limit: PAGE_MAX_BYTES as u64 }),
        "单页内容超过 2 MB 上限，无法读取。"
    );
    assert_eq!(
        preview_failure_line(&PreviewErrorKind::NotFound),
        "文件不存在，可能已被移动或删除。"
    );
    assert_eq!(preview_failure_line(&PreviewErrorKind::NotText), "非文本文件，暂时无法预览。");
    assert_eq!(
        preview_failure_line(&PreviewErrorKind::NotRegularFile),
        "该路径不是普通文件，没有可显示的内容。"
    );
    assert_eq!(
        preview_failure_line(&PreviewErrorKind::OutsideWorkspace),
        "这个文件在工作区之外，侧栏不会读取它。"
    );
    assert_eq!(
        preview_failure_line(&PreviewErrorKind::Unavailable("e".to_string())),
        "读取失败：e"
    );
}

#[test]
fn sizes_are_rounded_down() {
    assert_eq!(human_bytes(0), "0 B");
    assert_eq!(human_bytes(1023), "1023 B");
    assert_eq!(human_bytes(1024), "1 KB");
    assert_eq!(human_bytes(1024 * 1024 - 1), "1023 KB");
    assert_eq!(human_bytes(2 * 1024 * 1024 - 1), "1 MB");
    assert_eq!(human_bytes(32 * 1024 * 1024), "32 MB");
}

#[test]
fn children_lie_within_their_root() {
    assert_eq!(child_path("/a/", "b"), "/a/b");
    assert_eq!(child_path("C:\\a\\\\", "b"), "C:\\a/b");
    assert!(within_root("/w", "/w"));
    assert!(within_root("/w/", "/W/a"));
    assert!(within_root("C:\\w", "c:/W/x"));
    assert!(!within_root("/w", "/work"));
    assert!(within_root("/w", &child_path("/w", "a")));
    assert!(within_root("/", "/etc") && within_root("/", "/") && within_root("\\", "/etc"));
    assert!(within_root("/", &child_path("/", "a")));
    assert!(!within_root("/", "etc"));
}

fn here() -> Result<String, PathFault> {
    Ok("/w".to_string())
}

fn item(name: &str) -> DirItem {
    DirItem::Entry { name: name.to_string(), kind: Ok(DirEntryKind::File), size: Some(3) }
}

#[test]
fn a_level_keeps_the_first_entries() {
    let mut items = vec![DirItem::Unreadable, item("a")];
    let level = list_dir(
        Ok("/w".to_string()),
        Ok("/w/d".to_string()),
        Ok(true),
        Ok(std::mem::take(&mut items)),
    )
    .unwrap();
    assert_eq!(level.entries.len(), 1);
    assert_eq!(level.entries[0].size, Some(3));
    assert!(!level.truncated);
    let many: Vec<DirItem> = (0..DIR_MAX_ENTRIES + 1).map(|i| item(&i.to_string())).collect();
    let level = list_dir(Ok("/w".to_string()), Ok("/w".to_string()), Ok(true), Ok(many)).unwrap();
    assert_eq!(level.entries.len(), DIR_MAX_ENTRIES);
    assert!(level.truncated);
}

#[test]
fn listing_says_why_it_failed() {
    let ok = || -> Result<String, String> { Ok("/w".to_string()) };
    let none = || -> Result<Vec<DirItem>, String> { Ok(Vec::new()) };
    let fault = |missing| -> Result<String, PathFault> {
        Err(PathFault { missing, message: "m".to_string() })
    };
    let kind = |r: Result<dsh::files::DirLevel, (FilesErrorKind, String)>| r.err().unwrap();
    assert_eq!(
        kind(list_dir(Err("m".to_string()), here(), Ok(true), none())),
        (FilesErrorKind::Unavailable, "m".to_string())
    );
    assert_eq!(kind(list_dir(ok(), fault(true), Ok(true), none())).0, FilesErrorKind::NotFound);
    assert_eq!(kind(list_dir(ok(), fault(false), Ok(true), none())).0, FilesErrorKind::Unavailable);
    assert_eq!(
        kind(list_dir(ok(), Ok("/x".to_string()), Ok(true), none())).0,
        FilesErrorKind::OutsideWorkspace
    );
    assert_eq!(kind(list_dir(ok(), here(), Ok(false), none())).0, FilesErrorKind::NotDirectory);
    assert_eq!(
        kind(list_dir(ok(), here(), Ok(true), Err("e".to_string()))).0,
        FilesErrorKind::Unavailable
    );
    let odd = DirItem::Entry { name: "x".to_string(), kind: Err("e".to_string()), size: None };
    assert_eq!(
        kind(list_dir(ok(), here(), Ok(true), Ok(vec![odd]))),
        (FilesErrorKind::Unavailable, "e".to_string())
    );
}

#[test]
fn pages_cover_a_text() {
    let text = (0..PAGE_MAX_LINES + 2).map(|i| i.to_string()).collect::<Vec<String>>().join("\n");
    let first = text_page(&text, 0).unwrap();
    assert_eq!(first.lines, PAGE_MAX_LINES);
    assert!(!first.eof);
    let rest = text_page(&text, PAGE_MAX_LINES).unwrap();
    assert_eq!(rest.lines, 2);
    assert!(rest.eof);
    assert_eq!(format!("{}\n{}", first.text, rest.text), text);
    let past = text_page("a", 5).unwrap();
    assert_eq!((past.text.as_str(), past.lines, past.eof), ("", 0, true));
    let wide = "x".repeat(PAGE_MAX_BYTES + 1);
    assert_eq!(
        text_page(&wide, 0).err().unwrap(),
        PreviewErrorKind::TooLarge { limit: PAGE_MAX_BYTES as u64 }
    );
}

#[test]
fn pages_give_a_text_back() {
    let text = (0..12_001).map(|i| format!("line {i}")).collect::<Vec<String>>().join("\n");
    let (mut at, mut pages) = (0, Vec::new());
    loop {
        let page = text_page(&text, at).unwrap();
        at += page.lines;
        pages.push(page.text);
        if page.eof {
            break;
        }
    }
    assert_eq!((pages.len(), at), (3, 12_001));
    assert_eq!(pages.join("\n"), text);
    let behind = text_page("a\nb", 2).unwrap();
    assert_eq!((behind.text.as_str(), behind.lines, behind.eof), ("", 0, true));
}

#[test]
fn what_is_fenced_is_not_read() {
    let root = Ok("/w".to_string());
    let out = Ok("/x".to_string());
    let inside = Ok("/w/a".to_string());
    assert_eq!(fence_listing(&root, &out).unwrap().0, FilesErrorKind::OutsideWorkspace);
    assert!(fence_listing(&root, &inside).is_none());
    assert_eq!(refuse_listing(&Ok(false)).unwrap().0, FilesErrorKind::NotDirectory);
    assert!(refuse_listing(&Ok(true)).is_none());
    assert_eq!(fence_reading(&root, &out), Some(PreviewErrorKind::OutsideWorkspace));
    assert!(fence_reading(&root, &inside).is_none());
    assert_eq!(
        refuse_reading(&Ok((true, FILE_MAX_BYTES + 1))),
        Some(PreviewErrorKind::TooLarge { limit: FILE_MAX_BYTES })
    );
    assert_eq!(refuse_reading(&Ok((false, 1))), Some(PreviewErrorKind::NotRegularFile));
    assert!(refuse_reading(&Ok((true, FILE_MAX_BYTES))).is_none());
}

#[test]
fn reading_a_page_says_why_it_failed() {
    let ok = || -> Result<String, String> { Ok("/w".to_string()) };
    let bytes = |s: &[u8]| -> Result<Vec<u8>, String> { Ok(s.to_vec()) };
    let page = read_text_page(ok(), Ok("/w/a".to_string()), Ok((true, 4)), bytes("é\nb".as_bytes()), 0)
        .unwrap();
    assert_eq!((page.text.as_str(), page.lines, page.eof), ("é\nb", 2, true));
    let fail = |r: Result<dsh::files::TextPage, PreviewErrorKind>| r.err().unwrap();
    assert_eq!(
        fail(read_text_page(ok(), here(), Ok((true, 1)), bytes(&[0xff]), 0)),
        PreviewErrorKind::NotText
    );
    assert_eq!(
        fail(read_text_page(ok(), here(), Ok((true, 1)), bytes(&[b'a', 0]), 0)),
        PreviewErrorKind::NotText
    );
    assert_eq!(
        fail(read_text_page(ok(), here(), Ok((false, 1)), bytes(b"a"), 0)),
        PreviewErrorKind::NotRegularFile
    );
    assert_eq!(
        fail(read_text_page(ok(), here(), Ok((true, FILE_MAX_BYTES + 1)), bytes(b"a"), 0)),
        PreviewErrorKind::TooLarge { limit: FILE_MAX_BYTES }
    );
    assert_eq!(
        fail(read_text_page(ok(), Ok("/x".to_string()), Ok((true, 1)), bytes(b"a"), 0)),
        PreviewErrorKind::OutsideWorkspace
    );
    let gone = Err(PathFault { missing: true, message: "m".to_string() });
    assert_eq!(
        fail(read_text_page(ok(), gone, Ok((true, 1)), bytes(b"a"), 0)),
        PreviewErrorKind::NotFound
    );
    assert_eq!(
        fail(read_text_page(Err("m".to_string()), here(), Ok((true, 1)), bytes(b"a"), 0)),
        PreviewErrorKind::Unavailable("m".to_string())
    );
}

#[test]
fn dates_follow_the_calendar() {
    assert_eq!(civil_from_days(0), Date { year: 1970, month: 1, day: 1 });
    assert_eq!(civil_from_days(59), Date { year: 1970, month: 3, day: 1 });
    assert_eq!(civil_from_days(11016), Date { year: 2000, month: 2, day: 29 });
    assert_eq!(civil_from_days(11017), Date { year: 2000, month: 3, day: 1 });
    assert_eq!(iso8601(951827696, 7), "2000-02-29T12:34:56.007Z");
}

#[test]
fn clocks_leave_out_what_is_known() {
    let t = |year, month, day| LocalTime { year, month, day, hour: 9, minute: 5 };
    assert_eq!(clock_text(&t(2024, 5, 6), &Some(t(2024, 5, 6))), "09:05");
    let other_day = clock_text(&t(2024, 5, 6), &Some(t(2024, 5, 7)));
    assert!(other_day.ends_with("09:05") && other_day != "09:05");
    let other_year = clock_text(&t(2023, 5, 6), &Some(t(2024, 5, 6)));
    assert!(other_year.starts_with("2023"));
    assert_eq!(message_clock(&None, &None), "");
    let now = 1_700_000_000_000;
    let shown = format_message_clock(now, now);
    assert_eq!(shown.len(), 5);
    assert_eq!(shown.chars().nth(2), Some(':'));
    assert!(format_message_clock(now, now + 800 * 86_400_000).starts_with("2023"));
    let earlier = format_message_clock(now, now + 3 * 86_400_000);
    assert!(earlier.starts_with("11月1") && earlier.ends_with(&shown));
    let last = 8_210_266_876_799_999;
    assert!(format_message_clock(last, now).starts_with("26214"));
    assert_eq!(format_message_clock(last + 1, now), "");
}

#[test]
fn figures_are_written_out() {
    assert_eq!(format_tokens_exact(0), "0");
    assert_eq!(format_tokens_exact(1234567), "1,234,567");
    assert_eq!(format_run_duration(0), "0秒");
    assert_eq!(format_run_duration(65_000), "1分05秒");
    assert_eq!(format_run_duration(3_725_000), "1小时02分05秒");
    assert_eq!(fmt_capacity(2_000_000), "2M");
    assert_eq!(fmt_capacity(128_000), "128K");
    assert_eq!(fmt_capacity(1500), "1500");
    assert_eq!(relative_time(100, 50), "刚刚");
    assert_eq!(relative_time(1000, 100), "15分钟");
    assert_eq!(relative_time(8000, 100), "2小时");
    assert_eq!(relative_time(864_000, 0), "10天");
    assert_eq!(relative_time(8_640_000, 0), "3个月");
    assert_eq!(relative_time(0, 50), "刚刚");
    assert_eq!(percent_text(125), "12.5");
    assert_eq!(percent_text(120), "12");
}

#[test]
fn file_sizes_match_their_rounding() {
    for bytes in [
        0u64, 1, 1023, 1024, 1075, 1126, 1536, 10188, 10239, 10240, 10752, 11776, 1048575, 1048576,
        1073741823, 5368709120, u64::MAX,
    ] {
        let units = ["B", "KB", "MB", "GB"];
        let mut value = bytes as f64;
        let mut unit = 0usize;
        while value >= 1024.0 && unit < 3 {
            value /= 1024.0;
            unit += 1;
        }
        let want = if unit == 0 {
            format!("{bytes}B")
        } else if value < 10.0 {
            format!("{value:.1}{}", units[unit])
        } else {
            format!("{value:.0}{}", units[unit])
        };
        assert_eq!(file_size_text(bytes), want);
    }
}

#[test]
fn usage_is_told_apart() {
    let mut u = TurnUsage::default();
    assert_eq!(u.total_tokens(), 0);
    assert!(matches!(u.cache_hit(), CacheHit::Unknown));
    assert!(u.speed().is_none());
    u.input_tokens = 100;
    u.output_tokens = 20;
    u.cache_read = Some(30);
    u.cache_write = Some(10);
    u.llm_ms = 2000;
    assert_eq!(u.total_tokens(), 120);
    assert_eq!(u.uncached_input(), 60);
    assert!(matches!(u.cache_hit(), CacheHit::Part { read: 30, prompt: 100 }));
    assert_eq!(u.speed(), Some((20, 2000)));
    u.cache_read = Some(100);
    assert!(matches!(u.cache_hit(), CacheHit::Full));
    assert_eq!(u.uncached_input(), 0);
}

#[test]
fn file_kinds_follow_the_name() {
    assert_eq!(classify_file_type("a.rs"), FileKind::Code);
    assert_eq!(classify_file_type("a.PNG"), FileKind::Image);
    assert_eq!(classify_file_type("a.pdf"), FileKind::Pdf);
    assert_eq!(classify_file_type("a.md"), FileKind::Markdown);
    assert_eq!(classify_file_type("a.unknown"), FileKind::Other);
    assert_eq!(FileKind::Excel.asset_stem(), "excel");
    assert_eq!(FileKind::Folder.color(), (247, 173, 49));
    assert_eq!(FileKind::Word.color(), (86, 134, 254));
    assert_eq!(base_name_of("/a/b.txt"), "b.txt");
    assert_eq!(extension_of("a.tar.gz"), "GZ");
    assert_eq!(extension_of("straße.ß"), "SS");
    assert_eq!(extension_of(".hidden"), "");
    assert_eq!(extension_of("dot."), "");
    assert_eq!(extension_of("a.verylongextension"), "VERYLONG");
    assert!(is_image_path(Some("JPG")) && !is_image_path(Some("gif")) && !is_image_path(None));
    assert_eq!(image_media_type(Some("jpeg")), "image/jpeg");
    assert_eq!(image_media_type(Some("png")), "image/png");
}

#[test]
fn images_are_kept_by_their_hash() {
    let hex = "ab".repeat(32);
    let root = Some("/att".to_string());
    assert_eq!(
        attachment_image_object_path(&root, &format!("sha256:{hex}")),
        Some(format!("/att/objects/ab/{hex}"))
    );
    assert_eq!(attachment_image_object_path(&root, "sha256:abc"), None);
    assert_eq!(attachment_image_object_path(&root, &hex), None);
    assert_eq!(attachment_image_object_path(&None, &format!("sha256:{hex}")), None);
}
