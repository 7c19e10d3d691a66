use dirscan::get_file_type;
use dirscan::FileType;

#[test]
fn upper_case_jpg_is_jpeg() {
    assert_eq!(get_file_type("a.JPG"), FileType::Image("JPEG".to_string()));
}

#[test]
fn double_extension_takes_the_last() {
    assert_eq!(get_file_type("archive.tar.gz"), FileType::Other("gz".to_string()));
}

#[test]
fn no_extension_is_directory() {
    assert_eq!(get_file_type("noext"), FileType::Directory);
}

#[test]
fn trailing_dot_is_directory() {
    assert_eq!(get_file_type("file."), FileType::Directory);
}

#[test]
fn leading_dot_name_takes_its_extension() {
    assert_eq!(get_file_type(".hidden"), FileType::Other("hidden".to_string()));
}

#[test]
fn canonical_labels() {
    assert_eq!(get_file_type("clip.mov"), FileType::Video("QuickTime".to_string()));
    assert_eq!(get_file_type("clip.mkv"), FileType::Video("Matroska".to_string()));
    assert_eq!(get_file_type("clip.wmv"), FileType::Video("Windows Media".to_string()));
    assert_eq!(get_file_type("clip.flv"), FileType::Video("Flash".to_string()));
    assert_eq!(get_file_type("pic.webp"), FileType::Image("WebP".to_string()));
    assert_eq!(get_file_type("notes.md"), FileType::Document("Markdown".to_string()));
}

#[test]
fn image_table() {
    assert_eq!(get_file_type("x.jpeg"), FileType::Image("JPEG".to_string()));
    assert_eq!(get_file_type("x.png"), FileType::Image("PNG".to_string()));
    assert_eq!(get_file_type("x.gif"), FileType::Image("GIF".to_string()));
    assert_eq!(get_file_type("x.bmp"), FileType::Image("BMP".to_string()));
    assert_eq!(get_file_type("x.svg"), FileType::Image("SVG".to_string()));
    assert_eq!(get_file_type("x.tif"), FileType::Image("TIFF".to_string()));
    assert_eq!(get_file_type("x.tiff"), FileType::Image("TIFF".to_string()));
}

#[test]
fn audio_and_documents() {
    assert_eq!(get_file_type("s.mp3"), FileType::Audio("MP3".to_string()));
    assert_eq!(get_file_type("s.wav"), FileType::Audio("WAV".to_string()));
    assert_eq!(get_file_type("s.ogg"), FileType::Audio("OGG".to_string()));
    assert_eq!(get_file_type("s.flac"), FileType::Audio("FLAC".to_string()));
    assert_eq!(get_file_type("s.aac"), FileType::Audio("AAC".to_string()));
    assert_eq!(get_file_type("d.pdf"), FileType::Document("PDF".to_string()));
    assert_eq!(get_file_type("d.doc"), FileType::Document("Word".to_string()));
    assert_eq!(get_file_type("d.docx"), FileType::Document("Word".to_string()));
    assert_eq!(get_file_type("d.xlsx"), FileType::Document("Excel".to_string()));
    assert_eq!(get_file_type("d.pptx"), FileType::Document("PowerPoint".to_string()));
    assert_eq!(get_file_type("d.txt"), FileType::Document("Text".to_string()));
}

#[test]
fn mixed_case_unknown_extension_folds_to_lower() {
    assert_eq!(get_file_type("x.XyZ"), FileType::Other("xyz".to_string()));
}
