use std::path::PathBuf;
use ubuntu_drop::net::{clean, first_free, human_size, name_candidates, relocation_target, safe_name, within};

#[test]
fn human_size_scales() {
    assert_eq!(human_size(512), "512 B");
    assert_eq!(human_size(2048), "2.0 KB");
    assert_eq!(human_size(5 * 1024 * 1024), "5.0 MB");
    assert_eq!(human_size(3 * 1024 * 1024 * 1024), "3.0 GB");
}

#[test]
fn safe_name_strips_traversal() {
    let dir = PathBuf::from("/drop-test-missing-dir");
    let got = PathBuf::from(safe_name("../../etc/passwd", "/drop-test-missing-dir").unwrap());
    assert_eq!(got.parent().unwrap(), dir);
    assert_eq!(got.file_name().unwrap(), "passwd");
}

#[test]
fn safe_name_rejects_empty() {
    let d = "/drop-test-missing-dir";
    assert_eq!(PathBuf::from(safe_name("...", d).unwrap()).file_name().unwrap(), "untitled");
    assert_eq!(PathBuf::from(safe_name("", d).unwrap()).file_name().unwrap(), "untitled");
}

/// The size as the floating-point formatting it stands for would print it.
fn float_size(n: u64) -> String {
    const KB: f64 = 1024.0;
    let n = n as f64;
    if n < KB {
        return format!("{n:.0} B");
    }
    for (limit, unit) in [(KB * KB, "KB"), (KB * KB * KB, "MB")] {
        if n < limit {
            return format!("{:.1} {}", n / (limit / KB), unit);
        }
    }
    format!("{:.1} GB", n / (KB * KB * KB))
}

#[test]
fn human_size_agrees_with_float_formatting() {
    let mut samples: Vec<u64> = vec![
        0, 1, 1023, 1024, 1075, 1076, 1280, 1331, 1332, 2560, 10239, 10240, 1048575, 1048576,
        1073741823, 1073741824, 5 * 1024 * 1024 + 512 * 1024, 1234567890123,
        (1u64 << 53) - 1, 1u64 << 53, (1u64 << 53) + 1, (1u64 << 60) + 12345, u64::MAX, u64::MAX - 1024,
    ];
    let mut x: u64 = 0x9E37_79B9_7F4A_7C15;
    for _ in 0..2000 {
        x ^= x << 13;
        x ^= x >> 7;
        x ^= x << 17;
        samples.push(x >> (x % 60));
    }
    for n in samples {
        assert_eq!(human_size(n), float_size(n), "n = {n}");
    }
}

#[test]
fn ties_round_to_even() {
    // 1280 bytes is exactly 1.25 KB.
    assert_eq!(human_size(1280), float_size(1280));
}

#[test]
fn clean_keeps_safe_characters() {
    let s: String = clean("photos/My Trip (1) [final]-v2_a.jpg").into_iter().collect();
    assert_eq!(s, "My Trip (1) [final]-v2_a.jpg");
    let s: String = clean("a/b/../").into_iter().collect();
    assert_eq!(s, "untitled");
    let s: String = clean("dir/./").into_iter().collect();
    assert_eq!(s, "dir");
    let s: String = clean("we:ird*na?me.txt").into_iter().collect();
    assert_eq!(s, "we_ird_na_me.txt");
    let s: String = clean(" .hidden. ").into_iter().collect();
    assert_eq!(s, "hidden");
    let s: String = clean("Café.png").into_iter().collect();
    assert_eq!(s, "Café.png");
}

#[test]
fn taken_names_get_a_number() {
    // `/etc` exists on any Unix machine, `/etc (2)` on none.
    assert_eq!(safe_name("etc", "/").unwrap(), "/etc (2)");
    assert_eq!(safe_name("x/etc", "/").unwrap(), "/etc (2)");
    assert_eq!(safe_name("report.pdf", "/drop-test-missing-dir/").unwrap(), "/drop-test-missing-dir/report.pdf");
    assert_eq!(safe_name("report.pdf", "").unwrap(), "report.pdf");
}

#[test]
fn relocation_keeps_the_file_name() {
    assert_eq!(relocation_target("/drop/x/photo.jpg", "/drop-test-missing-dir").unwrap(), "/drop-test-missing-dir/photo.jpg");
    assert_eq!(relocation_target("/", "/drop-test-missing-dir").unwrap(), "/drop-test-missing-dir/untitled");
}

#[test]
fn containment_is_by_component() {
    assert!(within("/srv/drop/a.txt", "/srv/drop"));
    assert!(within("/srv/drop", "/srv/drop/"));
    assert!(!within("/srv/drop2/a.txt", "/srv/drop"));
    assert!(!within("/etc/passwd", "/srv/drop"));
    assert!(!within("srv/drop/a", "/srv/drop"));
}

#[test]
fn the_first_free_answer_wins() {
    assert_eq!(first_free(&vec![true, true, false, false]), Some(2));
    assert_eq!(first_free(&vec![false]), Some(0));
    assert_eq!(first_free(&vec![true, true]), None);
    assert_eq!(first_free(&vec![]), None);
}

#[test]
fn candidates_run_from_the_name_to_9999() {
    let c = name_candidates("a/photo.jpg", "/d");
    assert_eq!(c.len(), 9999);
    assert_eq!(c[0], "/d/photo.jpg");
    assert_eq!(c[1], "/d/photo (2).jpg");
    assert_eq!(c[9998], "/d/photo (9999).jpg");
    assert_eq!(name_candidates("notes", "/d")[2], "/d/notes (3)");
}

#[test]
fn ascii_punctuation_is_replaced() {
    let got: String = clean("a\\b:c?<>|.png").into_iter().collect();
    assert_eq!(got, "a_b_c____.png");
    let kept: String = clean("x/Shot (1) [v2]-a_b.png").into_iter().collect();
    assert_eq!(kept, "Shot (1) [v2]-a_b.png");
}
