use std::path::Path;

use lidar_point_cloud_classifier::output::format_guard::{
    extension_is, is_compressed_output, resolve_output_path,
};
use lidar_point_cloud_classifier::paths::{directory_of, join_path};

#[test]
fn test_las_output_is_untouched() {
    let out = resolve_output_path("out.las", false).expect("las must be accepted");
    assert_eq!(out.path, "out.las");
    assert!(!out.redirected, "a .las request must not be redirected");
}

#[test]
fn test_las_output_untouched_with_allow_laz() {
    let out = resolve_output_path("out.las", true).expect("las must be accepted");
    assert_eq!(out.path, "out.las");
    assert!(!out.redirected);
}

#[test]
fn test_laz_output_is_redirected_to_las() {
    let out = resolve_output_path("out.laz", false).expect("laz must be redirected");
    assert_eq!(out.path, "out.las");
    assert!(out.redirected, "a .laz request must report redirection");
}

#[test]
fn test_laz_redirect_preserves_full_path_and_stem() {
    let out = resolve_output_path("C:/data/classified/area51_out.laz", false)
        .expect("laz must be redirected");
    assert_eq!(out.path, "C:/data/classified/area51_out.las");
}

#[test]
fn test_laz_redirect_only_replaces_final_extension() {
    let out = resolve_output_path("area51.classified.laz", false).expect("laz must be redirected");
    assert_eq!(out.path, "area51.classified.las");
}

#[test]
fn test_uppercase_laz_is_caught() {
    let out = resolve_output_path("OUT.LAZ", false).expect("laz must be redirected");
    assert_eq!(out.path, "OUT.las");
    assert!(out.redirected, "extension match must be case-insensitive");
}

#[test]
fn test_mixed_case_las_is_untouched() {
    let out = resolve_output_path("OUT.LAS", false).expect("las must be accepted");
    assert_eq!(out.path, "OUT.LAS");
    assert!(!out.redirected);
}

#[test]
fn test_allow_laz_honours_laz_request() {
    let out = resolve_output_path("out.laz", true).expect("override must be allowed");
    assert_eq!(out.path, "out.laz");
    assert!(!out.redirected, "an honoured request is not a redirected one");
}

#[test]
fn test_copc_is_redirected_to_las_without_flag() {
    let out = resolve_output_path("out.copc", false).expect("copc must be redirected");
    assert_eq!(out.path, "out.las");
    assert!(out.redirected);
}

#[test]
fn test_copc_with_allow_laz_is_rejected() {
    let err = resolve_output_path("out.copc", true);
    assert!(err.is_err(), "--allow-laz must not pretend COPC writing is possible");
}

#[test]
fn test_unrelated_extension_passes_through_unchanged() {
    let out = resolve_output_path("out.txt", false).expect("guard must not judge");
    assert_eq!(out.path, "out.txt");
    assert!(!out.redirected);
}

#[test]
fn test_extensionless_path_passes_through_unchanged() {
    let out = resolve_output_path("out", false).expect("guard must not judge");
    assert_eq!(out.path, "out");
    assert!(!out.redirected);
}

// ── Paths as the operating system's own reading has them ────────────────────

const PATHS: [&str; 18] = [
    "", "/", ".", "..", "a", "a.laz", "a/b.laz", "/a/b.laz", "a.b.laz", ".laz", "a/.laz", "a/..",
    "a.laz/", "a.laz/.", "a//b.laz", "dir.laz/b", "a.", "...laz",
];

#[test]
fn extensions_agree_with_the_standard_reading() {
    for p in PATHS {
        let standard = Path::new(p)
            .extension()
            .map(|e| e.to_string_lossy().to_lowercase())
            .unwrap_or_default();
        assert_eq!(extension_is(p, "laz"), standard == "laz", "{p}");
        assert_eq!(is_compressed_output(p), standard == "laz", "{p}");
    }
}

#[test]
fn redirects_agree_with_the_standard_replacement() {
    for p in PATHS {
        let out = resolve_output_path(p, false).unwrap();
        if out.redirected {
            let standard = Path::new(p).with_extension("las");
            assert_eq!(out.path, standard.to_string_lossy(), "{p}");
            let again = resolve_output_path(&out.path, false).unwrap();
            assert!(!again.redirected);
            assert_eq!(again.path, out.path);
        } else {
            assert_eq!(out.path, p);
        }
    }
}

#[test]
fn directories_agree_with_the_standard_reading() {
    for p in PATHS {
        let standard = match Path::new(p).parent() {
            Some(d) if !d.as_os_str().is_empty() => d.to_string_lossy().to_string(),
            _ => "fallback".to_string(),
        };
        assert_eq!(directory_of(p, "fallback"), standard, "{p}");
    }
}

#[test]
fn joined_paths_have_one_separator() {
    for (d, n) in [("a", "b"), ("a/", "b"), ("", "b"), ("/", "b")] {
        assert_eq!(join_path(d, n), Path::new(d).join(n).to_string_lossy(), "{d} {n}");
    }
}
