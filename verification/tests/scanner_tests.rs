use dirscan::scanner::Entry;
use dirscan::scanner::ScanError;
use dirscan::scanner::ScanRequest;
use dirscan::scanner::Scanner;
use dirscan::DirectoryReport;
use dirscan::FileInfo;
use dirscan::FileType;

fn entry(href: &str, size_text: Option<&str>) -> Entry {
    Entry { href: href.to_string(), size_text: size_text.map(|s| s.to_string()) }
}

/// Drive a scanner to completion: `pages` maps a URL to its entries (`None`
/// means that fetching fails), and `gates` maps an image URL to its content
/// verdict (`None` meaning no verdict).
fn drive(
    mut sc: Scanner,
    pages: &[(&str, Option<Vec<Entry>>)],
    gates: &[(&str, Option<bool>)],
) -> Result<(DirectoryReport, Vec<FileInfo>), ScanError> {
    loop {
        match sc.request() {
            ScanRequest::Fetch(url) => {
                let page = pages.iter().find(|(u, _)| *u == url);
                match page {
                    Some((_, Some(entries))) => sc.provide_page(entries.clone()),
                    _ => sc.page_failed(),
                }
            }
            ScanRequest::CheckImage(url) => {
                let verdict = gates.iter().find(|(u, _)| *u == url).and_then(|(_, v)| *v);
                sc.provide_gate(verdict);
            }
            ScanRequest::Step => sc.advance(),
            ScanRequest::Done => break,
        }
    }
    sc.into_result()
}

fn count_of(r: &DirectoryReport, label: &str) -> usize {
    for (k, v) in &r.files_by_type {
        if k == label {
            return *v;
        }
    }
    0
}

#[test]
fn depth_beyond_bound_is_empty_without_a_fetch() {
    let sc = Scanner::new("http://root/".to_string(), 4, 3);
    // the very first request is already Done: no fetch was asked for
    assert_eq!(sc.request(), ScanRequest::Done);
    let (report, files) = sc.into_result().unwrap();
    assert_eq!(report.total_files, 0);
    assert_eq!(report.total_directories, 0);
    assert_eq!(report.total_size, 0);
    assert!(files.is_empty());
}

#[test]
fn photo_and_empty_subdirectory() {
    let sc = Scanner::new("http://root/".to_string(), 0, 1);
    let pages: Vec<(&str, Option<Vec<Entry>>)> = vec![
        (
            "http://root/",
            Some(vec![entry("photo.png", Some("10K")), entry("sub/", None)]),
        ),
        ("http://root/sub/", Some(vec![])),
    ];
    let gates = vec![("http://root/photo.png", Some(false))];
    let (report, files) = drive(sc, &pages, &gates).unwrap();
    assert_eq!(report.total_files, 1);
    assert_eq!(report.total_directories, 1);
    assert_eq!(report.total_size, 10240);
    assert_eq!(report.image_count, 1);
    assert_eq!(report.nsfw_count, 0);
    assert_eq!(files.len(), 2);
    assert_eq!(files[0].name, "photo.png");
    assert_eq!(files[0].size, 10240);
    assert_eq!(files[0].is_nsfw, Some(false));
    assert_eq!(files[1].name, "sub");
    assert_eq!(files[1].file_type, FileType::Directory);
}

#[test]
fn explicit_image_is_flagged_exactly_once() {
    let sc = Scanner::new("http://root/".to_string(), 0, 1);
    let pages: Vec<(&str, Option<Vec<Entry>>)> =
        vec![("http://root/", Some(vec![entry("img.png", Some("1K"))]))];
    let gates = vec![("http://root/img.png", Some(true))];
    let (report, files) = drive(sc, &pages, &gates).unwrap();
    assert_eq!(report.nsfw_count, 1);
    assert_eq!(report.nsfw_files, vec!["http://root/img.png".to_string()]);
    assert_eq!(report.image_count, 1);
    assert_eq!(files[0].is_nsfw, Some(true));
}

#[test]
fn gate_failure_skips_no_other_counter() {
    let sc = Scanner::new("http://root/".to_string(), 0, 1);
    let pages: Vec<(&str, Option<Vec<Entry>>)> = vec![(
        "http://root/",
        Some(vec![entry("bad.png", Some("2K")), entry("good.jpg", Some("1K"))]),
    )];
    // bad.png's gate fails; good.jpg's gate answers
    let gates = vec![
        ("http://root/bad.png", None),
        ("http://root/good.jpg", Some(false)),
    ];
    let (report, files) = drive(sc, &pages, &gates).unwrap();
    assert_eq!(report.total_files, 2);
    assert_eq!(report.image_count, 2);
    assert_eq!(report.total_size, 3072);
    assert_eq!(count_of(&report, "PNG"), 1);
    assert_eq!(count_of(&report, "JPEG"), 1);
    assert_eq!(report.nsfw_count, 0);
    assert_eq!(files.len(), 2);
    assert_eq!(files[0].is_nsfw, None);
    assert_eq!(files[1].is_nsfw, Some(false));
}

#[test]
fn root_fetch_failure_propagates() {
    let sc = Scanner::new("http://gone/".to_string(), 0, 2);
    let pages: Vec<(&str, Option<Vec<Entry>>)> = vec![("http://gone/", None)];
    let err = drive(sc, &pages, &[]).unwrap_err();
    assert_eq!(err, ScanError::FetchFailed("http://gone/".to_string()));
}

#[test]
fn failed_subtree_counts_as_empty() {
    let sc = Scanner::new("http://root/".to_string(), 0, 2);
    let pages: Vec<(&str, Option<Vec<Entry>>)> = vec![
        (
            "http://root/",
            Some(vec![entry("sub/", None), entry("a.txt", Some("5"))]),
        ),
        // http://root/sub/ is missing: its fetch fails
    ];
    let (report, files) = drive(sc, &pages, &[]).unwrap();
    assert_eq!(report.total_directories, 1);
    assert_eq!(report.total_files, 1);
    assert_eq!(report.total_size, 5);
    assert_eq!(report.document_count, 1);
    assert_eq!(files.len(), 2);
    assert_eq!(files[0].name, "sub");
    assert_eq!(files[1].name, "a.txt");
}

#[test]
fn skipped_links_contribute_nothing() {
    let sc = Scanner::new("http://root/".to_string(), 0, 1);
    let pages: Vec<(&str, Option<Vec<Entry>>)> = vec![(
        "http://root/",
        Some(vec![
            entry("../", None),
            entry("..", None),
            entry("/", None),
            entry("?C=M;O=A", None),
            entry("real.txt", Some("3")),
        ]),
    )];
    let (report, files) = drive(sc, &pages, &[]).unwrap();
    assert_eq!(report.total_files, 1);
    assert_eq!(report.total_directories, 0);
    assert_eq!(files.len(), 1);
    assert_eq!(files[0].name, "real.txt");
}

#[test]
fn depth_bound_stops_recursion() {
    let sc = Scanner::new("http://root/".to_string(), 0, 1);
    let pages: Vec<(&str, Option<Vec<Entry>>)> = vec![
        ("http://root/", Some(vec![entry("a/", None)])),
        ("http://root/a/", Some(vec![entry("b/", None), entry("x.txt", Some("4"))])),
        // b/ is at depth 2 > max_depth 1: never fetched, recorded only
    ];
    let (report, files) = drive(sc, &pages, &[]).unwrap();
    assert_eq!(report.total_directories, 2);
    assert_eq!(report.total_files, 1);
    assert_eq!(report.total_size, 4);
    // depth-first order: b/ and x.txt inside a/, then a/ itself
    let names: Vec<&str> = files.iter().map(|f| f.name.as_str()).collect();
    assert_eq!(names, vec!["b", "x.txt", "a"]);
}

#[test]
fn largest_directory_takes_the_biggest_child() {
    let sc = Scanner::new("http://root/".to_string(), 0, 1);
    let pages: Vec<(&str, Option<Vec<Entry>>)> = vec![
        (
            "http://root/",
            Some(vec![entry("small/", None), entry("big/", None)]),
        ),
        ("http://root/small/", Some(vec![entry("s.txt", Some("10"))])),
        ("http://root/big/", Some(vec![entry("b.txt", Some("20"))])),
    ];
    let (report, _) = drive(sc, &pages, &[]).unwrap();
    assert_eq!(report.largest_directory, Some(("http://root/big/".to_string(), 20)));
    assert_eq!(report.largest_file.as_ref().unwrap().name, "b.txt");
    assert_eq!(report.total_size, 30);
}

#[test]
fn absolute_hrefs_pass_through() {
    let sc = Scanner::new("http://root".to_string(), 0, 1);
    let pages: Vec<(&str, Option<Vec<Entry>>)> = vec![(
        "http://root",
        Some(vec![entry("http://other/f.txt", Some("2")), entry("/rooted.txt", Some("1"))]),
    )];
    let (report, files) = drive(sc, &pages, &[]).unwrap();
    assert_eq!(report.total_files, 2);
    assert_eq!(files[0].url, "http://other/f.txt");
    // relative hrefs join the base, normalized to end with a separator
    assert_eq!(files[1].url, "http://root/rooted.txt");
}

#[test]
fn total_files_counts_non_directory_records() {
    let sc = Scanner::new("http://root/".to_string(), 0, 2);
    let pages: Vec<(&str, Option<Vec<Entry>>)> = vec![
        (
            "http://root/",
            Some(vec![entry("a.png", Some("1K")), entry("sub/", None), entry("b.txt", Some("2"))]),
        ),
        ("http://root/sub/", Some(vec![entry("c.mp3", Some("3"))])),
    ];
    let gates = vec![("http://root/a.png", Some(false))];
    let (report, files) = drive(sc, &pages, &gates).unwrap();
    let non_dirs = files.iter().filter(|f| f.file_type != FileType::Directory).count();
    assert_eq!(report.total_files, non_dirs);
    assert_eq!(report.total_files + report.total_directories, files.len());
}

#[test]
fn extensionless_leaf_is_a_file_of_empty_other_type() {
    // a file name without an extension maps to `Directory` in the type
    // table, but the traversal's trailing-separator decision is
    // authoritative: the leaf is recorded as `Other` with the empty
    // extension and counts like any other file
    let sc = Scanner::new("http://root/".to_string(), 0, 1);
    let pages: Vec<(&str, Option<Vec<Entry>>)> =
        vec![("http://root/", Some(vec![entry("noext", Some("5"))]))];
    let (report, files) = drive(sc, &pages, &[]).unwrap();
    assert_eq!(report.total_files, 1);
    assert_eq!(report.total_directories, 0);
    assert_eq!(report.total_size, 5);
    assert_eq!(files[0].file_type, FileType::Other("".to_string()));
    assert_eq!(report.other_count, 1);
    assert_eq!(count_of(&report, ""), 1);
    let non_dirs = files.iter().filter(|f| f.file_type != FileType::Directory).count();
    assert_eq!(report.total_files, non_dirs);
}

#[test]
fn scan_from_raw_html_bodies() {
    let mut sc = Scanner::new("http://root/".to_string(), 0, 1);
    assert_eq!(sc.request(), ScanRequest::Fetch("http://root/".to_string()));
    sc.provide_page_body(
        "<html><body><a href=\"../\">up</a><a href=\"photo.png\">p</a><a href=\"sub/\">s</a></body></html>",
    );
    loop {
        match sc.request() {
            ScanRequest::Fetch(url) => {
                assert_eq!(url, "http://root/sub/");
                sc.provide_page_body("<html><body></body></html>");
            }
            ScanRequest::CheckImage(url) => {
                assert_eq!(url, "http://root/photo.png");
                sc.provide_gate(Some(false));
            }
            ScanRequest::Step => sc.advance(),
            ScanRequest::Done => break,
        }
    }
    let (report, files) = sc.into_result().unwrap();
    assert_eq!(report.total_files, 1);
    assert_eq!(report.total_directories, 1);
    assert_eq!(report.image_count, 1);
    // this extractor surfaces no size column, so sizes default to zero
    assert_eq!(report.total_size, 0);
    assert_eq!(files.len(), 2);
    assert_eq!(files[0].name, "photo.png");
    assert_eq!(files[1].name, "sub");
}
