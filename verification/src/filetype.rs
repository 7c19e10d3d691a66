//! File-type taxonomy: a file name is classified by the extension after its
//! last `.`, folded to lower case and looked up in a fixed table.
use vstd::prelude::*;
use vstd::string::StrSliceExecFns;
use vstd::string::StringExecFns;

verus! {

/// Semantic category of a discovered entry, carrying the canonical display
/// label of the recognized format (or the lower-cased extension for `Other`).
#[derive(Debug, Clone, PartialEq)]
pub enum FileType {
    Directory,
    Image(String),
    Video(String),
    Audio(String),
    Document(String),
    Other(String),
}

/// Mathematical image of a `FileType`, with the label as a character sequence.
pub enum FileTypeView {
    Directory,
    Image(Seq<char>),
    Video(Seq<char>),
    Audio(Seq<char>),
    Document(Seq<char>),
    Other(Seq<char>),
}

impl View for FileType {
    type V = FileTypeView;

    open spec fn view(&self) -> FileTypeView {
        match self {
            FileType::Directory => FileTypeView::Directory,
            FileType::Image(s) => FileTypeView::Image(s@),
            FileType::Video(s) => FileTypeView::Video(s@),
            FileType::Audio(s) => FileTypeView::Audio(s@),
            FileType::Document(s) => FileTypeView::Document(s@),
            FileType::Other(s) => FileTypeView::Other(s@),
        }
    }
}

/// The Unicode lower-case form of a character sequence, as
/// `str::to_lowercase` computes it: a function of the characters alone.
pub uninterp spec fn lower_of(s: Seq<char>) -> Seq<char>;

/// Whether the sequence contains a `.` anywhere.
pub open spec fn has_dot(s: Seq<char>) -> bool
    decreases s.len(),
{
    if s.len() == 0 {
        false
    } else {
        s.last() == '.' || has_dot(s.drop_last())
    }
}

/// The characters after the last `.` of `s`; empty when `s` has no `.` or
/// ends with one.
pub open spec fn ext_of(s: Seq<char>) -> Seq<char>
    decreases s.len(),
{
    if !has_dot(s) {
        Seq::empty()
    } else if s.last() == '.' {
        Seq::empty()
    } else {
        ext_of(s.drop_last()).push(s.last())
    }
}

/// The fixed extension table: which category and canonical label an already
/// lower-cased extension maps to.  The empty extension maps to `Directory`,
/// an unknown one to `Other` carrying the extension itself.
pub open spec fn classify_ext(e: Seq<char>) -> FileTypeView {
    if e == "jpg"@ || e == "jpeg"@ {
        FileTypeView::Image("JPEG"@)
    } else if e == "png"@ {
        FileTypeView::Image("PNG"@)
    } else if e == "gif"@ {
        FileTypeView::Image("GIF"@)
    } else if e == "webp"@ {
        FileTypeView::Image("WebP"@)
    } else if e == "bmp"@ {
        FileTypeView::Image("BMP"@)
    } else if e == "svg"@ {
        FileTypeView::Image("SVG"@)
    } else if e == "tiff"@ || e == "tif"@ {
        FileTypeView::Image("TIFF"@)
    } else if e == "mp4"@ {
        FileTypeView::Video("MP4"@)
    } else if e == "webm"@ {
        FileTypeView::Video("WebM"@)
    } else if e == "avi"@ {
        FileTypeView::Video("AVI"@)
    } else if e == "mov"@ {
        FileTypeView::Video("QuickTime"@)
    } else if e == "mkv"@ {
        FileTypeView::Video("Matroska"@)
    } else if e == "flv"@ {
        FileTypeView::Video("Flash"@)
    } else if e == "wmv"@ {
        FileTypeView::Video("Windows Media"@)
    } else if e == "mp3"@ {
        FileTypeView::Audio("MP3"@)
    } else if e == "wav"@ {
        FileTypeView::Audio("WAV"@)
    } else if e == "ogg"@ {
        FileTypeView::Audio("OGG"@)
    } else if e == "flac"@ {
        FileTypeView::Audio("FLAC"@)
    } else if e == "aac"@ {
        FileTypeView::Audio("AAC"@)
    } else if e == "pdf"@ {
        FileTypeView::Document("PDF"@)
    } else if e == "doc"@ || e == "docx"@ {
        FileTypeView::Document("Word"@)
    } else if e == "xls"@ || e == "xlsx"@ {
        FileTypeView::Document("Excel"@)
    } else if e == "ppt"@ || e == "pptx"@ {
        FileTypeView::Document("PowerPoint"@)
    } else if e == "txt"@ {
        FileTypeView::Document("Text"@)
    } else if e == "md"@ {
        FileTypeView::Document("Markdown"@)
    } else if e.len() == 0 {
        FileTypeView::Directory
    } else {
        FileTypeView::Other(e)
    }
}

/// What `get_file_type` returns, as a function of the file name.
pub open spec fn file_type_of(name: Seq<char>) -> FileTypeView {
    classify_ext(lower_of(ext_of(name)))
}

/// Character-by-character string equality.
pub fn str_eq(a: &str, b: &str) -> (r: bool)
    ensures
        r == (a@ == b@),
{
    let alen = a.unicode_len();
    let blen = b.unicode_len();
    if alen != blen {
        return false;
    }
    let mut i: usize = 0;
    while i < alen
        invariant
            i <= alen,
            alen == a@.len(),
            alen == b@.len(),
            forall|j: int| 0 <= j < i ==> a@[j] == b@[j],
        decreases alen - i,
    {
        if a.get_char(i) != b.get_char(i) {
            return false;
        }
        i = i + 1;
    }
    proof {
        assert(a@ =~= b@);
    }
    true
}

proof fn lemma_ext_of_no_dot(s: Seq<char>)
    requires
        forall|j: int| 0 <= j < s.len() ==> s[j] != '.',
    ensures
        !has_dot(s),
        ext_of(s) == Seq::<char>::empty(),
    decreases s.len(),
{
    if s.len() > 0 {
        lemma_ext_of_no_dot(s.drop_last());
    }
}

proof fn lemma_has_dot_at(s: Seq<char>, d: int)
    requires
        0 <= d < s.len(),
        s[d] == '.',
    ensures
        has_dot(s),
    decreases s.len(),
{
    if d < s.len() - 1 {
        lemma_has_dot_at(s.drop_last(), d);
    }
}

proof fn lemma_ext_of_last_dot(s: Seq<char>, d: int)
    requires
        0 <= d < s.len(),
        s[d] == '.',
        forall|j: int| d < j < s.len() ==> s[j] != '.',
    ensures
        ext_of(s) == s.subrange(d + 1, s.len() as int),
    decreases s.len(),
{
    lemma_has_dot_at(s, d);
    if d == s.len() - 1 {
        assert(ext_of(s) =~= s.subrange(d + 1, s.len() as int));
    } else {
        lemma_ext_of_last_dot(s.drop_last(), d);
        assert(s.drop_last().subrange(d + 1, s.len() - 1) =~= s.subrange(d + 1, s.len() - 1));
        assert(ext_of(s) =~= s.subrange(d + 1, s.len() as int));
    }
}

/// Relies on str::to_lowercase: the Unicode lower-case form of the string,
/// a function of its characters alone; an empty string stays empty.
#[verifier::external_body]
fn unicode_lower(s: &str) -> (r: String)
    ensures
        r@ == lower_of(s@),
        s@.len() == 0 ==> r@.len() == 0,
{
    s.to_lowercase()
}

/// Classify a file name by the extension after its last `.`.  Nothing about
/// the name but that extension matters; names without one map to `Directory`
/// (the traversal itself decides what really is a directory).
pub fn get_file_type(filename: &str) -> (t: FileType)
    ensures
        t@ == file_type_of(filename@),
{
    let n = filename.unicode_len();
    let mut last_dot: Option<usize> = None;
    let mut i: usize = 0;
    while i < n
        invariant
            i <= n,
            n == filename@.len(),
            match last_dot {
                Some(d) => {
                    &&& d < i
                    &&& filename@[d as int] == '.'
                    &&& forall|j: int| d < j < i ==> filename@[j] != '.'
                },
                None => forall|j: int| 0 <= j < i ==> filename@[j] != '.',
            },
        decreases n - i,
    {
        if filename.get_char(i) == '.' {
            last_dot = Some(i);
        }
        i = i + 1;
    }
    let ext: &str = match last_dot {
        None => {
            proof {
                lemma_ext_of_no_dot(filename@);
            }
            filename.substring_char(n, n)
        },
        Some(d) => {
            proof {
                lemma_ext_of_last_dot(filename@, d as int);
            }
            filename.substring_char(d + 1, n)
        },
    };
    proof {
        assert(ext@ =~= ext_of(filename@));
    }
    let low = unicode_lower(ext);
    let e = low.as_str();
    if str_eq(e, "jpg") || str_eq(e, "jpeg") {
        FileType::Image(String::from_str("JPEG"))
    } else if str_eq(e, "png") {
        FileType::Image(String::from_str("PNG"))
    } else if str_eq(e, "gif") {
        FileType::Image(String::from_str("GIF"))
    } else if str_eq(e, "webp") {
        FileType::Image(String::from_str("WebP"))
    } else if str_eq(e, "bmp") {
        FileType::Image(String::from_str("BMP"))
    } else if str_eq(e, "svg") {
        FileType::Image(String::from_str("SVG"))
    } else if str_eq(e, "tiff") || str_eq(e, "tif") {
        FileType::Image(String::from_str("TIFF"))
    } else if str_eq(e, "mp4") {
        FileType::Video(String::from_str("MP4"))
    } else if str_eq(e, "webm") {
        FileType::Video(String::from_str("WebM"))
    } else if str_eq(e, "avi") {
        FileType::Video(String::from_str("AVI"))
    } else if str_eq(e, "mov") {
        FileType::Video(String::from_str("QuickTime"))
    } else if str_eq(e, "mkv") {
        FileType::Video(String::from_str("Matroska"))
    } else if str_eq(e, "flv") {
        FileType::Video(String::from_str("Flash"))
    } else if str_eq(e, "wmv") {
        FileType::Video(String::from_str("Windows Media"))
    } else if str_eq(e, "mp3") {
        FileType::Audio(String::from_str("MP3"))
    } else if str_eq(e, "wav") {
        FileType::Audio(String::from_str("WAV"))
    } else if str_eq(e, "ogg") {
        FileType::Audio(String::from_str("OGG"))
    } else if str_eq(e, "flac") {
        FileType::Audio(String::from_str("FLAC"))
    } else if str_eq(e, "aac") {
        FileType::Audio(String::from_str("AAC"))
    } else if str_eq(e, "pdf") {
        FileType::Document(String::from_str("PDF"))
    } else if str_eq(e, "doc") || str_eq(e, "docx") {
        FileType::Document(String::from_str("Word"))
    } else if str_eq(e, "xls") || str_eq(e, "xlsx") {
        FileType::Document(String::from_str("Excel"))
    } else if str_eq(e, "ppt") || str_eq(e, "pptx") {
        FileType::Document(String::from_str("PowerPoint"))
    } else if str_eq(e, "txt") {
        FileType::Document(String::from_str("Text"))
    } else if str_eq(e, "md") {
        FileType::Document(String::from_str("Markdown"))
    } else if low.unicode_len() == 0 {
        FileType::Directory
    } else {
        FileType::Other(low)
    }
}

} // verus!
