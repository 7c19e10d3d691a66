use dirscan::DirectoryReport;
use dirscan::FileInfo;
use dirscan::FileType;

fn file(name: &str, url: &str, size: u64, file_type: FileType, is_nsfw: Option<bool>) -> FileInfo {
    FileInfo { name: name.to_string(), url: url.to_string(), size, file_type, is_nsfw }
}

fn count_of(r: &DirectoryReport, label: &str) -> usize {
    for (k, v) in &r.files_by_type {
        if k == label {
            return *v;
        }
    }
    0
}

#[test]
fn new_report_is_empty() {
    let r = DirectoryReport::new();
    assert_eq!(r.total_files, 0);
    assert_eq!(r.total_directories, 0);
    assert_eq!(r.total_size, 0);
    assert!(r.files_by_type.is_empty());
    assert_eq!(r.nsfw_count, 0);
    assert!(r.nsfw_files.is_empty());
    assert!(r.largest_file.is_none());
    assert!(r.largest_directory.is_none());
}

#[test]
fn add_file_counts_every_statistic() {
    let mut r = DirectoryReport::new();
    r.add_file(file("a.png", "http://x/a.png", 7, FileType::Image("PNG".to_string()), Some(false)));
    assert_eq!(r.total_files, 1);
    assert_eq!(r.image_count, 1);
    assert_eq!(r.total_size, 7);
    assert_eq!(count_of(&r, "PNG"), 1);
    assert_eq!(r.nsfw_count, 0);
    assert_eq!(r.largest_file.as_ref().unwrap().name, "a.png");
}

#[test]
fn flagged_image_is_recorded_once() {
    let mut r = DirectoryReport::new();
    r.add_file(file("a.png", "http://x/a.png", 1, FileType::Image("PNG".to_string()), Some(true)));
    assert_eq!(r.nsfw_count, 1);
    assert_eq!(r.nsfw_files, vec!["http://x/a.png".to_string()]);
}

#[test]
fn largest_file_keeps_the_first_on_ties() {
    let mut r = DirectoryReport::new();
    r.add_file(file("first.txt", "u1", 5, FileType::Document("Text".to_string()), None));
    r.add_file(file("second.txt", "u2", 5, FileType::Document("Text".to_string()), None));
    assert_eq!(r.largest_file.as_ref().unwrap().name, "first.txt");
    r.add_file(file("third.txt", "u3", 6, FileType::Document("Text".to_string()), None));
    assert_eq!(r.largest_file.as_ref().unwrap().name, "third.txt");
}

#[test]
fn empty_extension_counts_as_other() {
    let mut r = DirectoryReport::new();
    r.add_file(file("noext", "u", 3, FileType::Other("".to_string()), None));
    assert_eq!(r.total_files, 1);
    assert_eq!(r.other_count, 1);
    assert_eq!(count_of(&r, ""), 1);
    assert_eq!(
        r.image_count + r.video_count + r.audio_count + r.document_count + r.other_count,
        r.total_files
    );
}

#[test]
fn merge_adds_counters_and_distributions() {
    let mut parent = DirectoryReport::new();
    parent.add_file(file("a.png", "u1", 10, FileType::Image("PNG".to_string()), None));
    let mut child = DirectoryReport::new();
    child.add_file(file("b.png", "u2", 20, FileType::Image("PNG".to_string()), None));
    child.add_file(file("c.mp3", "u3", 5, FileType::Audio("MP3".to_string()), Some(false)));
    parent.merge_child("http://x/sub/".to_string(), child);
    assert_eq!(parent.total_files, 3);
    assert_eq!(parent.total_size, 35);
    assert_eq!(parent.image_count, 2);
    assert_eq!(parent.audio_count, 1);
    assert_eq!(count_of(&parent, "PNG"), 2);
    assert_eq!(count_of(&parent, "MP3"), 1);
    assert_eq!(parent.largest_file.as_ref().unwrap().name, "b.png");
    assert_eq!(parent.largest_directory, Some(("http://x/sub/".to_string(), 25)));
}

#[test]
fn merge_order_leaves_tallies_alone() {
    let mut a = DirectoryReport::new();
    a.add_file(file("a.png", "ua", 1, FileType::Image("PNG".to_string()), Some(true)));
    let mut b = DirectoryReport::new();
    b.add_file(file("b.pdf", "ub", 2, FileType::Document("PDF".to_string()), None));
    b.add_file(file("b2.png", "ub2", 3, FileType::Image("PNG".to_string()), None));

    let mut one = DirectoryReport::new();
    one.merge_child("http://x/a/".to_string(), clone_report(&a));
    one.merge_child("http://x/b/".to_string(), clone_report(&b));

    let mut two = DirectoryReport::new();
    two.merge_child("http://x/b/".to_string(), clone_report(&b));
    two.merge_child("http://x/a/".to_string(), clone_report(&a));

    assert_eq!(one.total_files, two.total_files);
    assert_eq!(one.total_size, two.total_size);
    assert_eq!(one.image_count, two.image_count);
    assert_eq!(one.document_count, two.document_count);
    assert_eq!(one.nsfw_count, two.nsfw_count);
    assert_eq!(count_of(&one, "PNG"), count_of(&two, "PNG"));
    assert_eq!(count_of(&one, "PDF"), count_of(&two, "PDF"));
    // flagged URLs differ only by the children's relative order
    assert_eq!(one.nsfw_files, vec!["ua".to_string()]);
    assert_eq!(two.nsfw_files, vec!["ua".to_string()]);
}

fn clone_report(r: &DirectoryReport) -> DirectoryReport {
    let mut c = DirectoryReport::new();
    c.total_files = r.total_files;
    c.total_directories = r.total_directories;
    c.total_size = r.total_size;
    c.files_by_type = r.files_by_type.clone();
    c.image_count = r.image_count;
    c.video_count = r.video_count;
    c.audio_count = r.audio_count;
    c.document_count = r.document_count;
    c.other_count = r.other_count;
    c.nsfw_count = r.nsfw_count;
    c.nsfw_files = r.nsfw_files.clone();
    c.largest_file = r.largest_file.clone();
    c.largest_directory = r.largest_directory.clone();
    c
}
