//! Aggregated statistics of one listing node and everything beneath it:
//! counters, size totals, a per-format distribution, the flagged-file list
//! and the two "largest" selectors, together with the merge that folds a
//! finished child report into its parent.
use vstd::prelude::*;

use crate::filetype::str_eq;
use crate::filetype::FileType;
use crate::filetype::FileTypeView;

verus! {

/// One discovered entry: its name, resolved URL, size in bytes, classified
/// type, and the explicit-content verdict (`None` when unknown or not
/// applicable; only ever set for images).
#[derive(Debug, Clone)]
pub struct FileInfo {
    pub name: String,
    pub url: String,
    pub size: u64,
    pub file_type: FileType,
    pub is_nsfw: Option<bool>,
}

pub struct FileInfoView {
    pub name: Seq<char>,
    pub url: Seq<char>,
    pub size: u64,
    pub file_type: FileTypeView,
    pub is_nsfw: Option<bool>,
}

impl View for FileInfo {
    type V = FileInfoView;

    open spec fn view(&self) -> FileInfoView {
        FileInfoView {
            name: self.name@,
            url: self.url@,
            size: self.size,
            file_type: self.file_type@,
            is_nsfw: self.is_nsfw,
        }
    }
}

/// A record is well formed when an explicit verdict is only ever attached to
/// an image entry.
pub open spec fn info_wf(i: FileInfoView) -> bool {
    i.is_nsfw is Some ==> i.file_type is Image
}

/// Aggregated statistics for one listing node (and its subtree, up to the
/// depth bound).  The format distribution is an association list keyed by
/// the canonical labels, with unique keys and positive counts.
#[derive(Debug)]
pub struct DirectoryReport {
    pub total_files: usize,
    pub total_directories: usize,
    pub total_size: u64,
    pub files_by_type: Vec<(String, usize)>,
    pub image_count: usize,
    pub video_count: usize,
    pub audio_count: usize,
    pub document_count: usize,
    pub other_count: usize,
    pub nsfw_count: usize,
    pub nsfw_files: Vec<String>,
    pub largest_file: Option<FileInfo>,
    pub largest_directory: Option<(String, u64)>,
}

/// Mathematical image of a report.
#[verifier::ext_equal]
pub struct ReportView {
    pub total_files: int,
    pub total_directories: int,
    pub total_size: int,
    pub files_by_type: Map<Seq<char>, int>,
    pub image_count: int,
    pub video_count: int,
    pub audio_count: int,
    pub document_count: int,
    pub other_count: int,
    pub nsfw_count: int,
    pub nsfw_files: Seq<Seq<char>>,
    pub largest_file: Option<FileInfoView>,
    pub largest_directory: Option<(Seq<char>, int)>,
}

/// The finite map denoted by an association list (later pairs win; with
/// unique keys, the order is irrelevant).
pub open spec fn fbt_map(s: Seq<(String, usize)>) -> Map<Seq<char>, int>
    decreases s.len(),
{
    if s.len() == 0 {
        Map::empty()
    } else {
        fbt_map(s.drop_last()).insert(s.last().0@, s.last().1 as int)
    }
}

/// Sum of the counts of an association list.
pub open spec fn fbt_sum(s: Seq<(String, usize)>) -> int
    decreases s.len(),
{
    if s.len() == 0 {
        0
    } else {
        fbt_sum(s.drop_last()) + s.last().1
    }
}

pub open spec fn fbt_keys_unique(s: Seq<(String, usize)>) -> bool {
    forall|i: int, j: int| 0 <= i < j < s.len() ==> s[i].0@ != s[j].0@
}

impl View for DirectoryReport {
    type V = ReportView;

    open spec fn view(&self) -> ReportView {
        ReportView {
            total_files: self.total_files as int,
            total_directories: self.total_directories as int,
            total_size: self.total_size as int,
            files_by_type: fbt_map(self.files_by_type@),
            image_count: self.image_count as int,
            video_count: self.video_count as int,
            audio_count: self.audio_count as int,
            document_count: self.document_count as int,
            other_count: self.other_count as int,
            nsfw_count: self.nsfw_count as int,
            nsfw_files: self.nsfw_files@.map_values(|s: String| s@),
            largest_file: match &self.largest_file {
                Some(f) => Some(f@),
                None => None,
            },
            largest_directory: match &self.largest_directory {
                Some(p) => Some((p.0@, p.1 as int)),
                None => None,
            },
        }
    }
}

impl DirectoryReport {
    /// Files counted into one of the five categories.
    pub open spec fn categorized(&self) -> int {
        self.image_count + self.video_count + self.audio_count + self.document_count
            + self.other_count as int
    }

    /// Internal consistency: unique, positive format counts whose sum is the
    /// number of counted files, which the five categories partition exactly;
    /// flagged bookkeeping agrees; a largest file exists exactly when some
    /// file was counted.
    pub open spec fn wf(&self) -> bool {
        &&& fbt_keys_unique(self.files_by_type@)
        &&& (forall|i: int| 0 <= i < self.files_by_type@.len() ==> self.files_by_type@[i].1 >= 1)
        &&& fbt_sum(self.files_by_type@) == self.categorized()
        &&& self.categorized() == self.total_files
        &&& self.nsfw_count == self.nsfw_files@.len()
        &&& self.nsfw_count <= self.image_count
        &&& (self.largest_file is Some <==> self.total_files > 0)
    }
}

/// The empty report.
pub open spec fn empty_report() -> ReportView {
    ReportView {
        total_files: 0,
        total_directories: 0,
        total_size: 0,
        files_by_type: Map::empty(),
        image_count: 0,
        video_count: 0,
        audio_count: 0,
        document_count: 0,
        other_count: 0,
        nsfw_count: 0,
        nsfw_files: Seq::empty(),
        largest_file: None,
        largest_directory: None,
    }
}

/// A `u64` sum saturates at its maximum.
pub open spec fn sat64(x: int) -> int {
    if x > u64::MAX as int {
        u64::MAX as int
    } else {
        x
    }
}

/// The format label a classified entry is tallied under (`None` for the
/// `Directory` variant, which has no label).
pub open spec fn type_label(t: FileTypeView) -> Option<Seq<char>> {
    match t {
        FileTypeView::Directory => None,
        FileTypeView::Image(l) => Some(l),
        FileTypeView::Video(l) => Some(l),
        FileTypeView::Audio(l) => Some(l),
        FileTypeView::Document(l) => Some(l),
        FileTypeView::Other(l) => Some(l),
    }
}

/// Add `d` to the count of `k`, starting a fresh entry when absent.
pub open spec fn bump(m: Map<Seq<char>, int>, k: Seq<char>, d: int) -> Map<Seq<char>, int> {
    if m.dom().contains(k) {
        m.insert(k, m[k] + d)
    } else {
        m.insert(k, d)
    }
}

/// Key-wise sum of two format distributions.
pub open spec fn map_add(a: Map<Seq<char>, int>, b: Map<Seq<char>, int>) -> Map<Seq<char>, int> {
    Map::new(
        |k: Seq<char>| a.dom().contains(k) || b.dom().contains(k),
        |k: Seq<char>|
            (if a.dom().contains(k) {
                a[k]
            } else {
                0
            }) + (if b.dom().contains(k) {
                b[k]
            } else {
                0
            }),
    )
}

/// Effect of counting one leaf entry into a report: every counter the entry
/// belongs to grows by one, the size total saturates at `u64::MAX`, a
/// flagged image appends its URL, and a strictly larger file replaces the
/// current largest (ties keep the first seen).
pub open spec fn add_file_view(r: ReportView, f: FileInfoView) -> ReportView {
    ReportView {
        total_files: r.total_files + 1,
        total_directories: r.total_directories,
        total_size: sat64(r.total_size + f.size),
        files_by_type: match type_label(f.file_type) {
            Some(l) => bump(r.files_by_type, l, 1),
            None => r.files_by_type,
        },
        image_count: r.image_count + if f.file_type is Image {
            1int
        } else {
            0int
        },
        video_count: r.video_count + if f.file_type is Video {
            1int
        } else {
            0int
        },
        audio_count: r.audio_count + if f.file_type is Audio {
            1int
        } else {
            0int
        },
        document_count: r.document_count + if f.file_type is Document {
            1int
        } else {
            0int
        },
        other_count: r.other_count + if f.file_type is Other {
            1int
        } else {
            0int
        },
        nsfw_count: r.nsfw_count + if f.is_nsfw == Some(true) {
            1int
        } else {
            0int
        },
        nsfw_files: if f.is_nsfw == Some(true) {
            r.nsfw_files.push(f.url)
        } else {
            r.nsfw_files
        },
        largest_file: if r.largest_file is None || r.largest_file->Some_0.size < f.size {
            Some(f)
        } else {
            r.largest_file
        },
        largest_directory: r.largest_directory,
    }
}

/// Effect of folding a finished child report into its parent: counters and
/// the format distribution add, flagged URLs append in order, a strictly
/// larger child file replaces the parent's largest, and the child (with its
/// own finished size) replaces the largest directory when strictly larger.
pub open spec fn merge_view(p: ReportView, c: ReportView, child_url: Seq<char>) -> ReportView {
    ReportView {
        total_files: p.total_files + c.total_files,
        total_directories: p.total_directories + c.total_directories,
        total_size: sat64(p.total_size + c.total_size),
        files_by_type: map_add(p.files_by_type, c.files_by_type),
        image_count: p.image_count + c.image_count,
        video_count: p.video_count + c.video_count,
        audio_count: p.audio_count + c.audio_count,
        document_count: p.document_count + c.document_count,
        other_count: p.other_count + c.other_count,
        nsfw_count: p.nsfw_count + c.nsfw_count,
        nsfw_files: p.nsfw_files + c.nsfw_files,
        largest_file: if c.largest_file is Some && (p.largest_file is None
            || p.largest_file->Some_0.size < c.largest_file->Some_0.size) {
            c.largest_file
        } else {
            p.largest_file
        },
        largest_directory: if p.largest_directory is None || p.largest_directory->Some_0.1
            < c.total_size {
            Some((child_url, c.total_size))
        } else {
            p.largest_directory
        },
    }
}

proof fn lemma_fbt_map_index(s: Seq<(String, usize)>, i: int)
    requires
        fbt_keys_unique(s),
        0 <= i < s.len(),
    ensures
        fbt_map(s).dom().contains(s[i].0@),
        fbt_map(s)[s[i].0@] == s[i].1 as int,
    decreases s.len(),
{
    if i < s.len() - 1 {
        lemma_fbt_map_index(s.drop_last(), i);
    }
}

proof fn lemma_fbt_map_dom(s: Seq<(String, usize)>, k: Seq<char>)
    requires
        forall|i: int| 0 <= i < s.len() ==> s[i].0@ != k,
    ensures
        !fbt_map(s).dom().contains(k),
    decreases s.len(),
{
    if s.len() > 0 {
        lemma_fbt_map_dom(s.drop_last(), k);
    }
}

proof fn lemma_fbt_sum_nonneg(s: Seq<(String, usize)>)
    ensures
        fbt_sum(s) >= 0,
    decreases s.len(),
{
    if s.len() > 0 {
        lemma_fbt_sum_nonneg(s.drop_last());
    }
}

proof fn lemma_fbt_val_le_sum(s: Seq<(String, usize)>, i: int)
    requires
        0 <= i < s.len(),
    ensures
        s[i].1 <= fbt_sum(s),
    decreases s.len(),
{
    lemma_fbt_sum_nonneg(s.drop_last());
    if i < s.len() - 1 {
        lemma_fbt_val_le_sum(s.drop_last(), i);
    }
}

proof fn lemma_fbt_map_update(s: Seq<(String, usize)>, i: int, p2: (String, usize))
    requires
        fbt_keys_unique(s),
        0 <= i < s.len(),
        p2.0@ == s[i].0@,
    ensures
        fbt_map(s.update(i, p2)) == fbt_map(s).insert(s[i].0@, p2.1 as int),
        fbt_sum(s.update(i, p2)) == fbt_sum(s) - s[i].1 + p2.1,
        fbt_keys_unique(s.update(i, p2)),
    decreases s.len(),
{
    let s2 = s.update(i, p2);
    if i == s.len() - 1 {
        assert(s2.drop_last() =~= s.drop_last());
        assert(fbt_map(s2) == fbt_map(s.drop_last()).insert(p2.0@, p2.1 as int));
        assert(fbt_map(s).insert(s[i].0@, p2.1 as int) =~= fbt_map(s.drop_last()).insert(
            p2.0@,
            p2.1 as int,
        ));
    } else {
        assert(s2.drop_last() =~= s.drop_last().update(i, p2));
        lemma_fbt_map_update(s.drop_last(), i, p2);
        assert(s2.last() == s.last());
        let k = s[i].0@;
        let kl = s.last().0@;
        assert(k != kl);
        assert(fbt_map(s2) == fbt_map(s.drop_last()).insert(k, p2.1 as int).insert(
            kl,
            s.last().1 as int,
        ));
        assert(fbt_map(s.drop_last()).insert(k, p2.1 as int).insert(kl, s.last().1 as int)
            =~= fbt_map(s.drop_last()).insert(kl, s.last().1 as int).insert(k, p2.1 as int));
    }
}

/// Add `d` to the entry of `key`, creating it when absent.
fn vec_bump(v: &mut Vec<(String, usize)>, key: String, d: usize)
    requires
        fbt_keys_unique(old(v)@),
        forall|i: int| 0 <= i < old(v)@.len() ==> old(v)@[i].1 >= 1,
        d >= 1,
        fbt_sum(old(v)@) + d <= usize::MAX,
    ensures
        fbt_map(final(v)@) == bump(fbt_map(old(v)@), key@, d as int),
        fbt_sum(final(v)@) == fbt_sum(old(v)@) + d,
        fbt_keys_unique(final(v)@),
        forall|i: int| 0 <= i < final(v)@.len() ==> final(v)@[i].1 >= 1,
{
    let n = v.len();
    let mut i: usize = 0;
    while i < n
        invariant
            i <= n,
            n == v@.len(),
            v@ == old(v)@,
            forall|j: int| 0 <= j < i ==> v@[j].0@ != key@,
        decreases n - i,
    {
        if str_eq(v[i].0.as_str(), key.as_str()) {
            proof {
                lemma_fbt_map_index(v@, i as int);
                lemma_fbt_val_le_sum(v@, i as int);
                lemma_fbt_sum_nonneg(v@);
            }
            let cur = v[i].1;
            let ghost old_pair = v@[i as int];
            v[i].1 = cur + d;
            proof {
                assert(v@ =~= old(v)@.update(i as int, (old_pair.0, (cur + d) as usize)));
                lemma_fbt_map_update(old(v)@, i as int, (old_pair.0, (cur + d) as usize));
            }
            return ;
        }
        i = i + 1;
    }
    proof {
        lemma_fbt_map_dom(v@, key@);
    }
    v.push((key, d));
    proof {
        assert(v@.drop_last() =~= old(v)@);
        assert(fbt_map(v@) == fbt_map(old(v)@).insert(v@.last().0@, d as int));
    }
}

impl DirectoryReport {
    /// A fresh, empty report.
    pub fn new() -> (r: DirectoryReport)
        ensures
            r@ == empty_report(),
            r.wf(),
    {
        let r = DirectoryReport {
            total_files: 0,
            total_directories: 0,
            total_size: 0,
            files_by_type: Vec::new(),
            image_count: 0,
            video_count: 0,
            audio_count: 0,
            document_count: 0,
            other_count: 0,
            nsfw_count: 0,
            nsfw_files: Vec::new(),
            largest_file: None,
            largest_directory: None,
        };
        proof {
            assert(r@ =~= empty_report());
        }
        r
    }

    /// Count one leaf entry into this report.  A counted record never
    /// carries the `Directory` type: the traversal's own trailing-separator
    /// decision says what is a directory, not the extension table.
    pub fn add_file(&mut self, info: FileInfo)
        requires
            old(self).wf(),
            info_wf(info@),
            !(info@.file_type is Directory),
            old(self).total_files < usize::MAX,
        ensures
            final(self)@ == add_file_view(old(self)@, info@),
            final(self).wf(),
    {
        self.total_files = self.total_files + 1;
        if self.total_size <= u64::MAX - info.size {
            self.total_size = self.total_size + info.size;
        } else {
            self.total_size = u64::MAX;
        }
        let label: Option<String> = match &info.file_type {
            FileType::Directory => None,
            FileType::Image(l) => Some(l.clone()),
            FileType::Video(l) => Some(l.clone()),
            FileType::Audio(l) => Some(l.clone()),
            FileType::Document(l) => Some(l.clone()),
            FileType::Other(l) => Some(l.clone()),
        };
        match &info.file_type {
            FileType::Directory => {},
            FileType::Image(_) => {
                self.image_count = self.image_count + 1;
            },
            FileType::Video(_) => {
                self.video_count = self.video_count + 1;
            },
            FileType::Audio(_) => {
                self.audio_count = self.audio_count + 1;
            },
            FileType::Document(_) => {
                self.document_count = self.document_count + 1;
            },
            FileType::Other(_) => {
                self.other_count = self.other_count + 1;
            },
        }
        if let Some(l) = label {
            proof {
                lemma_fbt_sum_nonneg(self.files_by_type@);
            }
            vec_bump(&mut self.files_by_type, l, 1);
        }
        let is_flagged = match info.is_nsfw {
            Some(true) => true,
            _ => false,
        };
        if is_flagged {
            self.nsfw_count = self.nsfw_count + 1;
            self.nsfw_files.push(info.url.clone());
        }
        let replace = match &self.largest_file {
            None => true,
            Some(lf) => lf.size < info.size,
        };
        if replace {
            self.largest_file = Some(info);
        }
        proof {
            if is_flagged {
                assert(self.nsfw_files@.map_values(|s: String| s@) =~= old(
                    self,
                ).nsfw_files@.map_values(|s: String| s@).push(info.url@));
            }
            assert(self@ =~= add_file_view(old(self)@, info@));
        }
    }

    /// Fold a finished child subtree's report into this one; `child_url` is
    /// the resolved URL of the child listing, used for the largest-directory
    /// selection against the child's own total size.
    #[verifier::rlimit(100)]
    pub fn merge_child(&mut self, child_url: String, child: DirectoryReport)
        requires
            old(self).wf(),
            child.wf(),
            old(self).total_files + child.total_files <= usize::MAX,
            old(self).total_directories + child.total_directories <= usize::MAX,
        ensures
            final(self)@ == merge_view(old(self)@, child@, child_url@),
            final(self).wf(),
    {
        proof {
            lemma_fbt_sum_nonneg(self.files_by_type@);
            lemma_fbt_sum_nonneg(child.files_by_type@);
        }
        // the largest-directory selection uses the child's finished total
        let replace_dir = match &self.largest_directory {
            None => true,
            Some(p) => p.1 < child.total_size,
        };
        if replace_dir {
            self.largest_directory = Some((child_url, child.total_size));
        }
        self.total_files = self.total_files + child.total_files;
        self.total_directories = self.total_directories + child.total_directories;
        if self.total_size <= u64::MAX - child.total_size {
            self.total_size = self.total_size + child.total_size;
        } else {
            self.total_size = u64::MAX;
        }
        self.image_count = self.image_count + child.image_count;
        self.video_count = self.video_count + child.video_count;
        self.audio_count = self.audio_count + child.audio_count;
        self.document_count = self.document_count + child.document_count;
        self.other_count = self.other_count + child.other_count;
        self.nsfw_count = self.nsfw_count + child.nsfw_count;
        let mut child_nsfw = child.nsfw_files;
        self.nsfw_files.append(&mut child_nsfw);
        proof {
            assert(self.nsfw_files@.map_values(|s: String| s@) =~= old(
                self,
            ).nsfw_files@.map_values(|s: String| s@) + child.nsfw_files@.map_values(
                |s: String| s@,
            ));
        }
        // key-wise sum of the format distributions
        let cfbt = child.files_by_type;
        let n = cfbt.len();
        let mut i: usize = 0;
        proof {
            assert(cfbt@.subrange(0, 0) =~= Seq::<(String, usize)>::empty());
            assert(fbt_map(cfbt@.subrange(0, 0)) =~= Map::<Seq<char>, int>::empty());
            assert(map_add(fbt_map(old(self).files_by_type@), Map::empty()) =~= fbt_map(
                old(self).files_by_type@,
            ));
            assert(cfbt@.subrange(0, n as int) =~= cfbt@);
            assert(fbt_sum(cfbt@.subrange(0, 0)) == 0);
        }
        while i < n
            invariant
                i <= n,
                n == cfbt@.len(),
                self.total_files == old(self).total_files + child.total_files,
                self.total_directories == old(self).total_directories + child.total_directories,
                self.total_size as int == sat64(old(self).total_size + child.total_size),
                self.image_count == old(self).image_count + child.image_count,
                self.video_count == old(self).video_count + child.video_count,
                self.audio_count == old(self).audio_count + child.audio_count,
                self.document_count == old(self).document_count + child.document_count,
                self.other_count == old(self).other_count + child.other_count,
                self.nsfw_count == old(self).nsfw_count + child.nsfw_count,
                self.nsfw_files@ == old(self).nsfw_files@ + child.nsfw_files@,
                self.largest_file == old(self).largest_file,
                replace_dir ==> self.largest_directory == Some(
                    (child_url, child.total_size),
                ),
                !replace_dir ==> self.largest_directory == old(self).largest_directory,
                fbt_keys_unique(cfbt@),
                forall|j: int| 0 <= j < n ==> cfbt@[j].1 >= 1,
                fbt_keys_unique(self.files_by_type@),
                forall|j: int| 0 <= j < self.files_by_type@.len() ==> self.files_by_type@[j].1 >= 1,
                fbt_map(self.files_by_type@) == map_add(
                    fbt_map(old(self).files_by_type@),
                    fbt_map(cfbt@.subrange(0, i as int)),
                ),
                fbt_sum(self.files_by_type@) == fbt_sum(old(self).files_by_type@) + fbt_sum(
                    cfbt@.subrange(0, i as int),
                ),
                fbt_sum(cfbt@.subrange(0, i as int)) + fbt_sum(
                    cfbt@.subrange(i as int, n as int),
                ) == fbt_sum(cfbt@),
                fbt_sum(old(self).files_by_type@) + fbt_sum(cfbt@) <= usize::MAX,
            decreases n - i,
        {
            let pair_key = cfbt[i].0.clone();
            let pair_val = cfbt[i].1;
            proof {
                let pre = cfbt@.subrange(0, i as int);
                let cur = cfbt@.subrange(0, i + 1);
                assert(cur.drop_last() =~= pre);
                assert(cur.last() == cfbt@[i as int]);
                assert forall|j: int| 0 <= j < pre.len() implies pre[j].0@ != pair_key@ by {
                    assert(pre[j] == cfbt@[j]);
                }
                lemma_fbt_map_dom(pre, pair_key@);
                let suf = cfbt@.subrange(i as int, n as int);
                let suf2 = cfbt@.subrange(i + 1, n as int);
                assert(suf.drop_first() =~= suf2);
                lemma_fbt_sum_suffix(suf);
                lemma_fbt_sum_nonneg(suf2);
                lemma_fbt_sum_nonneg(pre);
            }
            vec_bump(&mut self.files_by_type, pair_key, pair_val);
            proof {
                let pre = cfbt@.subrange(0, i as int);
                let cur = cfbt@.subrange(0, i + 1);
                assert(fbt_map(cur) == fbt_map(pre).insert(cfbt@[i as int].0@, cfbt@[
                    i as int].1 as int));
                lemma_map_add_insert(
                    fbt_map(old(self).files_by_type@),
                    fbt_map(pre),
                    cfbt@[i as int].0@,
                    cfbt@[i as int].1 as int,
                );
            }
            i = i + 1;
        }
        proof {
            assert(cfbt@.subrange(0, n as int) =~= cfbt@);
        }
        // largest file: a strictly larger child replaces the parent's
        if let Some(clf) = child.largest_file {
            let replace = match &self.largest_file {
                None => true,
                Some(plf) => plf.size < clf.size,
            };
            if replace {
                self.largest_file = Some(clf);
            }
        }
        proof {
            let m = merge_view(old(self)@, child@, child_url@);
            assert(self@.total_files == m.total_files);
            assert(self@.total_directories == m.total_directories);
            assert(self@.total_size == m.total_size);
            assert(self@.files_by_type == m.files_by_type);
            assert(self@.image_count == m.image_count);
            assert(self@.video_count == m.video_count);
            assert(self@.audio_count == m.audio_count);
            assert(self@.document_count == m.document_count);
            assert(self@.other_count == m.other_count);
            assert(self@.nsfw_count == m.nsfw_count);
            assert(self@.nsfw_files == m.nsfw_files);
            assert(self@.largest_file == m.largest_file);
            assert(self@.largest_directory == m.largest_directory);
            assert(self@ =~= m);
        }
    }
}

proof fn lemma_fbt_sum_suffix(s: Seq<(String, usize)>)
    requires
        s.len() > 0,
    ensures
        fbt_sum(s) == s[0].1 + fbt_sum(s.drop_first()),
    decreases s.len(),
{
    if s.len() == 1 {
        assert(s.drop_first() =~= Seq::<(String, usize)>::empty());
        assert(s.drop_last() =~= Seq::<(String, usize)>::empty());
    } else {
        let dl = s.drop_last();
        lemma_fbt_sum_suffix(dl);
        assert(s.drop_first().drop_last() =~= dl.drop_first());
        assert(s.drop_first().last() == s.last());
    }
}

proof fn lemma_map_add_insert(a: Map<Seq<char>, int>, b: Map<Seq<char>, int>, k: Seq<char>, v: int)
    requires
        !b.dom().contains(k),
    ensures
        map_add(a, b.insert(k, v)) == bump(map_add(a, b), k, v),
{
    assert(map_add(a, b.insert(k, v)) =~= bump(map_add(a, b), k, v));
}

/// Merging two finished children into a parent is insensitive to their
/// order in every scalar counter and in the format distribution; the
/// flagged-URL list is the parent's followed by each child's own, in merge
/// order, never reordered within a child.  Only the two "largest" selectors
/// depend on the order (first seen wins ties).
pub proof fn lemma_merge_order_insensitive(
    p: ReportView,
    a: ReportView,
    ua: Seq<char>,
    b: ReportView,
    ub: Seq<char>,
)
    requires
        p.total_size >= 0,
        a.total_size >= 0,
        b.total_size >= 0,
    ensures
        merge_view(merge_view(p, a, ua), b, ub).total_files == merge_view(
            merge_view(p, b, ub),
            a,
            ua,
        ).total_files,
        merge_view(merge_view(p, a, ua), b, ub).total_directories == merge_view(
            merge_view(p, b, ub),
            a,
            ua,
        ).total_directories,
        merge_view(merge_view(p, a, ua), b, ub).total_size == merge_view(
            merge_view(p, b, ub),
            a,
            ua,
        ).total_size,
        merge_view(merge_view(p, a, ua), b, ub).files_by_type == merge_view(
            merge_view(p, b, ub),
            a,
            ua,
        ).files_by_type,
        merge_view(merge_view(p, a, ua), b, ub).image_count == merge_view(
            merge_view(p, b, ub),
            a,
            ua,
        ).image_count,
        merge_view(merge_view(p, a, ua), b, ub).video_count == merge_view(
            merge_view(p, b, ub),
            a,
            ua,
        ).video_count,
        merge_view(merge_view(p, a, ua), b, ub).audio_count == merge_view(
            merge_view(p, b, ub),
            a,
            ua,
        ).audio_count,
        merge_view(merge_view(p, a, ua), b, ub).document_count == merge_view(
            merge_view(p, b, ub),
            a,
            ua,
        ).document_count,
        merge_view(merge_view(p, a, ua), b, ub).other_count == merge_view(
            merge_view(p, b, ub),
            a,
            ua,
        ).other_count,
        merge_view(merge_view(p, a, ua), b, ub).nsfw_count == merge_view(
            merge_view(p, b, ub),
            a,
            ua,
        ).nsfw_count,
        merge_view(merge_view(p, a, ua), b, ub).nsfw_files == p.nsfw_files + a.nsfw_files
            + b.nsfw_files,
        merge_view(merge_view(p, b, ub), a, ua).nsfw_files == p.nsfw_files + b.nsfw_files
            + a.nsfw_files,
{
    assert(merge_view(merge_view(p, a, ua), b, ub).files_by_type =~= merge_view(
        merge_view(p, b, ub),
        a,
        ua,
    ).files_by_type);
}


/// Agreement of two reports in every order-insensitive field: all scalar
/// counters and the format distribution (the two "largest" selectors and
/// the flagged-URL order are excluded by design).
pub open spec fn same_tallies(x: ReportView, y: ReportView) -> bool {
    &&& x.total_files == y.total_files
    &&& x.total_directories == y.total_directories
    &&& x.total_size == y.total_size
    &&& x.files_by_type == y.files_by_type
    &&& x.image_count == y.image_count
    &&& x.video_count == y.video_count
    &&& x.audio_count == y.audio_count
    &&& x.document_count == y.document_count
    &&& x.other_count == y.other_count
    &&& x.nsfw_count == y.nsfw_count
}

proof fn lemma_merge_tallies_congruent(
    x: ReportView,
    y: ReportView,
    z: ReportView,
    u: Seq<char>,
    u2: Seq<char>,
)
    requires
        same_tallies(x, y),
    ensures
        same_tallies(merge_view(x, z, u), merge_view(y, z, u2)),
{
}

proof fn lemma_merge_swap_tallies(p: ReportView, a: ReportView, ua: Seq<char>, b: ReportView, ub: Seq<char>)
    requires
        p.total_size >= 0,
        a.total_size >= 0,
        b.total_size >= 0,
    ensures
        same_tallies(merge_view(merge_view(p, a, ua), b, ub), merge_view(merge_view(p, b, ub), a, ua)),
{
    lemma_merge_order_insensitive(p, a, ua, b, ub);
}

/// Merging three finished children into a parent in any of the six orders
/// yields the same scalar counters and the same format distribution; only
/// the "largest" selectors and the relative order of the flagged-URL list
/// depend on the merge order, and the flagged list is always the parent's
/// followed by each child's own run, uninterleaved.
pub proof fn lemma_merge_three_any_order(
    p: ReportView,
    a: ReportView,
    ua: Seq<char>,
    b: ReportView,
    ub: Seq<char>,
    c: ReportView,
    uc: Seq<char>,
)
    requires
        p.total_size >= 0,
        a.total_size >= 0,
        b.total_size >= 0,
        c.total_size >= 0,
    ensures
        same_tallies(
            merge_view(merge_view(merge_view(p, a, ua), b, ub), c, uc),
            merge_view(merge_view(merge_view(p, a, ua), c, uc), b, ub),
        ),
        same_tallies(
            merge_view(merge_view(merge_view(p, a, ua), b, ub), c, uc),
            merge_view(merge_view(merge_view(p, b, ub), a, ua), c, uc),
        ),
        same_tallies(
            merge_view(merge_view(merge_view(p, a, ua), b, ub), c, uc),
            merge_view(merge_view(merge_view(p, b, ub), c, uc), a, ua),
        ),
        same_tallies(
            merge_view(merge_view(merge_view(p, a, ua), b, ub), c, uc),
            merge_view(merge_view(merge_view(p, c, uc), a, ua), b, ub),
        ),
        same_tallies(
            merge_view(merge_view(merge_view(p, a, ua), b, ub), c, uc),
            merge_view(merge_view(merge_view(p, c, uc), b, ub), a, ua),
        ),
        merge_view(merge_view(merge_view(p, a, ua), b, ub), c, uc).nsfw_files == p.nsfw_files
            + a.nsfw_files + b.nsfw_files + c.nsfw_files,
        merge_view(merge_view(merge_view(p, a, ua), c, uc), b, ub).nsfw_files == p.nsfw_files
            + a.nsfw_files + c.nsfw_files + b.nsfw_files,
        merge_view(merge_view(merge_view(p, b, ub), a, ua), c, uc).nsfw_files == p.nsfw_files
            + b.nsfw_files + a.nsfw_files + c.nsfw_files,
        merge_view(merge_view(merge_view(p, b, ub), c, uc), a, ua).nsfw_files == p.nsfw_files
            + b.nsfw_files + c.nsfw_files + a.nsfw_files,
        merge_view(merge_view(merge_view(p, c, uc), a, ua), b, ub).nsfw_files == p.nsfw_files
            + c.nsfw_files + a.nsfw_files + b.nsfw_files,
        merge_view(merge_view(merge_view(p, c, uc), b, ub), a, ua).nsfw_files == p.nsfw_files
            + c.nsfw_files + b.nsfw_files + a.nsfw_files,
{
    let pa = merge_view(p, a, ua);
    let pb = merge_view(p, b, ub);
    let pc = merge_view(p, c, uc);
    // swap the last two children
    lemma_merge_swap_tallies(pa, b, ub, c, uc);
    // swap the first two children, then fold the third on either side
    lemma_merge_swap_tallies(p, a, ua, b, ub);
    lemma_merge_tallies_congruent(
        merge_view(pa, b, ub),
        merge_view(pb, a, ua),
        c,
        uc,
        uc,
    );
    // rotate: abc ~ bac ~ bca
    lemma_merge_swap_tallies(pb, a, ua, c, uc);
    // abc ~ acb ~ cab
    lemma_merge_swap_tallies(p, a, ua, c, uc);
    lemma_merge_tallies_congruent(
        merge_view(pa, c, uc),
        merge_view(pc, a, ua),
        b,
        ub,
        ub,
    );
    // cab ~ cba
    lemma_merge_swap_tallies(pc, a, ua, b, ub);
    // the flagged-URL list concatenates in merge order, each child's run kept whole
    assert(merge_view(merge_view(pa, b, ub), c, uc).nsfw_files =~= p.nsfw_files + a.nsfw_files
        + b.nsfw_files + c.nsfw_files);
    assert(merge_view(merge_view(pa, c, uc), b, ub).nsfw_files =~= p.nsfw_files + a.nsfw_files
        + c.nsfw_files + b.nsfw_files);
    assert(merge_view(merge_view(pb, a, ua), c, uc).nsfw_files =~= p.nsfw_files + b.nsfw_files
        + a.nsfw_files + c.nsfw_files);
    assert(merge_view(merge_view(pb, c, uc), a, ua).nsfw_files =~= p.nsfw_files + b.nsfw_files
        + c.nsfw_files + a.nsfw_files);
    assert(merge_view(merge_view(pc, a, ua), b, ub).nsfw_files =~= p.nsfw_files + c.nsfw_files
        + a.nsfw_files + b.nsfw_files);
    assert(merge_view(merge_view(pc, b, ub), a, ua).nsfw_files =~= p.nsfw_files + c.nsfw_files
        + b.nsfw_files + a.nsfw_files);
}

} // verus!
