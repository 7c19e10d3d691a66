//! The bounded-depth traversal over listing pages, written as an explicit
//! state machine: a stack of in-progress listing frames.  The caller fetches
//! pages and runs the explicit-content gate; every decision — which links
//! are skipped, how URLs resolve, what each entry contributes to the report,
//! how a finished child folds into its parent, and where recursion stops —
//! is made here.
//!
//! Protocol: build a `Scanner` with `Scanner::new`, then repeatedly ask
//! `request()`.  Answer `Fetch` with `provide_page` / `provide_page_body` or
//! `page_failed`, answer `CheckImage` with `provide_gate` or `gate_failed`,
//! answer `Step` with `advance`, and take the outcome at `Done` with
//! `into_result`.
use vstd::prelude::*;
use vstd::string::StrSliceExecFns;
use vstd::string::StringExecFns;

use crate::filetype::file_type_of;
use crate::filetype::get_file_type;
use crate::filetype::str_eq;
use crate::filetype::FileType;
use crate::filetype::FileTypeView;
use crate::report::add_file_view;
use crate::report::empty_report;
use crate::report::merge_view;
use crate::report::ReportView;
use crate::report::DirectoryReport;
use crate::report::FileInfo;
use crate::report::FileInfoView;
use crate::size::parse_size;
use crate::size::parse_size_spec;

verus! {

broadcast use vstd::std_specs::vec::group_vec_axioms;

/// One link surfaced by the link extractor: its raw `href` and, where the
/// listing shows one, the text of its size column.
#[derive(Debug, Clone)]
pub struct Entry {
    pub href: String,
    pub size_text: Option<String>,
}

pub struct EntryView {
    pub href: Seq<char>,
    pub size_text: Option<Seq<char>>,
}

impl View for Entry {
    type V = EntryView;

    open spec fn view(&self) -> EntryView {
        EntryView {
            href: self.href@,
            size_text: match &self.size_text {
                Some(t) => Some(t@),
                None => None,
            },
        }
    }
}

/// Links that are never traversed: parent, self, and query-only links.
pub open spec fn skip_href(h: Seq<char>) -> bool {
    h == "../"@ || h == ".."@ || h == "/"@ || (h.len() > 0 && h[0] == '?')
}

/// A trailing path separator marks a subdirectory.
pub open spec fn is_dir_href(h: Seq<char>) -> bool {
    h.len() > 0 && h.last() == '/'
}

pub open spec fn strip_trailing_slashes(h: Seq<char>) -> Seq<char>
    decreases h.len(),
{
    if h.len() > 0 && h.last() == '/' {
        strip_trailing_slashes(h.drop_last())
    } else {
        h
    }
}

pub open spec fn strip_leading_slashes(h: Seq<char>) -> Seq<char>
    decreases h.len(),
{
    if h.len() > 0 && h[0] == '/' {
        strip_leading_slashes(h.drop_first())
    } else {
        h
    }
}

/// Hrefs beginning with `http` pass through as absolute URLs.
pub open spec fn starts_with_http(h: Seq<char>) -> bool {
    h.len() >= 4 && h[0] == 'h' && h[1] == 't' && h[2] == 't' && h[3] == 'p'
}

/// The listing URL, normalized to end with a separator.
pub open spec fn normalized_base(u: Seq<char>) -> Seq<char> {
    if u.len() > 0 && u.last() == '/' {
        u
    } else {
        u.push('/')
    }
}

/// Absolute URL of an entry: absolute hrefs pass through, relative ones are
/// joined onto the normalized listing URL.
pub open spec fn resolve_url(base: Seq<char>, h: Seq<char>) -> Seq<char> {
    if starts_with_http(h) {
        h
    } else {
        normalized_base(base) + strip_leading_slashes(h)
    }
}

/// Size of a leaf entry: the listing's size column when surfaced, else zero.
pub open spec fn leaf_size(e: EntryView) -> int {
    match e.size_text {
        Some(t) => parse_size_spec(t),
        None => 0,
    }
}

/// The type a leaf record carries.  The trailing-separator decision of the
/// traversal is authoritative: a leaf is never a directory, so a name the
/// extension table maps to `Directory` (an extensionless file) is recorded
/// as `Other` with the empty extension instead.
pub open spec fn leaf_type_of(name: Seq<char>) -> FileTypeView {
    match file_type_of(name) {
        FileTypeView::Directory => FileTypeView::Other(Seq::empty()),
        t => t,
    }
}

/// The record a leaf entry contributes, with its explicit-content verdict.
pub open spec fn leaf_info(base: Seq<char>, e: EntryView, verdict: Option<bool>) -> FileInfoView {
    FileInfoView {
        name: strip_trailing_slashes(e.href),
        url: resolve_url(base, e.href),
        size: leaf_size(e) as u64,
        file_type: leaf_type_of(strip_trailing_slashes(e.href)),
        is_nsfw: verdict,
    }
}

/// The record a subdirectory entry produces.
pub open spec fn dir_info(base: Seq<char>, e: EntryView) -> FileInfoView {
    FileInfoView {
        name: strip_trailing_slashes(e.href),
        url: resolve_url(base, e.href),
        size: 0,
        file_type: FileTypeView::Directory,
        is_nsfw: None,
    }
}

proof fn lemma_strip_trailing(s: Seq<char>, k: int)
    requires
        0 <= k <= s.len(),
        forall|j: int| k <= j < s.len() ==> s[j] == '/',
        k == 0 || s[k - 1] != '/',
    ensures
        strip_trailing_slashes(s) == s.subrange(0, k),
    decreases s.len(),
{
    if k == s.len() {
        assert(s.subrange(0, s.len() as int) =~= s);
    } else {
        let d = s.drop_last();
        lemma_strip_trailing(d, k);
        assert(d.subrange(0, k) =~= s.subrange(0, k));
    }
}

proof fn lemma_strip_leading(s: Seq<char>, k: int)
    requires
        0 <= k <= s.len(),
        forall|j: int| 0 <= j < k ==> s[j] == '/',
        k == s.len() || s[k] != '/',
    ensures
        strip_leading_slashes(s) == s.subrange(k, s.len() as int),
    decreases k,
{
    if k == 0 {
        assert(s.subrange(0, s.len() as int) =~= s);
    } else {
        let d = s.drop_first();
        assert(forall|j: int| 0 <= j < k - 1 ==> d[j] == s[j + 1]);
        lemma_strip_leading(d, k - 1);
        assert(d.subrange(k - 1, d.len() as int) =~= s.subrange(k, s.len() as int));
    }
}

/// The raw href with every trailing separator removed: the entry's name.
pub fn strip_trailing(s: &str) -> (r: &str)
    ensures
        r@ == strip_trailing_slashes(s@),
{
    let n = s.unicode_len();
    let mut k: usize = n;
    while k > 0 && s.get_char(k - 1) == '/'
        invariant
            k <= n,
            n == s@.len(),
            forall|j: int| k <= j < n ==> s@[j] == '/',
        decreases k,
    {
        k = k - 1;
    }
    proof {
        lemma_strip_trailing(s@, k as int);
    }
    s.substring_char(0, k)
}

fn strip_leading(s: &str) -> (r: &str)
    ensures
        r@ == strip_leading_slashes(s@),
{
    let n = s.unicode_len();
    let mut k: usize = 0;
    while k < n && s.get_char(k) == '/'
        invariant
            k <= n,
            n == s@.len(),
            forall|j: int| 0 <= j < k ==> s@[j] == '/',
        decreases n - k,
    {
        k = k + 1;
    }
    proof {
        lemma_strip_leading(s@, k as int);
    }
    s.substring_char(k, n)
}

fn href_is_dir(s: &str) -> (r: bool)
    ensures
        r == is_dir_href(s@),
{
    let n = s.unicode_len();
    n > 0 && s.get_char(n - 1) == '/'
}

fn href_skip(s: &str) -> (r: bool)
    ensures
        r == skip_href(s@),
{
    if str_eq(s, "../") || str_eq(s, "..") || str_eq(s, "/") {
        return true;
    }
    let n = s.unicode_len();
    n > 0 && s.get_char(0) == '?'
}

fn href_is_http(s: &str) -> (r: bool)
    ensures
        r == starts_with_http(s@),
{
    let n = s.unicode_len();
    n >= 4 && s.get_char(0) == 'h' && s.get_char(1) == 't' && s.get_char(2) == 't' && s.get_char(3)
        == 'p'
}

/// Resolve an href against the listing URL it was found under.
pub fn resolve(base: &str, href: &str) -> (r: String)
    ensures
        r@ == resolve_url(base@, href@),
{
    if href_is_http(href) {
        return String::from_str(href);
    }
    let mut u = String::from_str(base);
    let n = base.unicode_len();
    if n == 0 || base.get_char(n - 1) != '/' {
        u.append("/");
        proof {
            reveal_strlit("/");
            assert(u@ =~= normalized_base(base@));
        }
    }
    u.append(strip_leading(href));
    u
}

fn clone_file_type(t: &FileType) -> (r: FileType)
    ensures
        r == t,
{
    match t {
        FileType::Directory => FileType::Directory,
        FileType::Image(l) => FileType::Image(l.clone()),
        FileType::Video(l) => FileType::Video(l.clone()),
        FileType::Audio(l) => FileType::Audio(l.clone()),
        FileType::Document(l) => FileType::Document(l.clone()),
        FileType::Other(l) => FileType::Other(l.clone()),
    }
}

fn clone_info(i: &FileInfo) -> (r: FileInfo)
    ensures
        r == i,
{
    FileInfo {
        name: i.name.clone(),
        url: i.url.clone(),
        size: i.size,
        file_type: clone_file_type(&i.file_type),
        is_nsfw: i.is_nsfw,
    }
}

/// What the state machine is waiting for between steps.
pub enum Pending {
    Idle,
    Gate { info: FileInfo },
    Child { info: FileInfo },
}

/// One in-progress listing: its URL and depth, the extracted entries with a
/// cursor, the running report, and the records collected so far (own and
/// descendants', depth-first, each traversed directory's record after its
/// subtree's).
pub struct Frame {
    pub url: String,
    pub depth: u32,
    pub fetched: bool,
    pub entries: Vec<Entry>,
    pub idx: usize,
    pub pending: Pending,
    pub report: DirectoryReport,
    pub files: Vec<FileInfo>,
}

/// Why a scan call fails: its own listing page could not be fetched.
#[derive(Debug, Clone, PartialEq)]
pub enum ScanError {
    FetchFailed(String),
}

/// What the driver must do next.
#[derive(Debug, Clone, PartialEq)]
pub enum ScanRequest {
    Fetch(String),
    CheckImage(String),
    Step,
    Done,
}

pub enum ScanRequestView {
    Fetch(Seq<char>),
    CheckImage(Seq<char>),
    Step,
    Done,
}

impl View for ScanRequest {
    type V = ScanRequestView;

    open spec fn view(&self) -> ScanRequestView {
        match self {
            ScanRequest::Fetch(u) => ScanRequestView::Fetch(u@),
            ScanRequest::CheckImage(u) => ScanRequestView::CheckImage(u@),
            ScanRequest::Step => ScanRequestView::Step,
            ScanRequest::Done => ScanRequestView::Done,
        }
    }
}

/// The views of a record list.
pub open spec fn seq_views(s: Seq<FileInfo>) -> Seq<FileInfoView> {
    s.map_values(|x: FileInfo| x@)
}

/// How many records of the list are files (anything but a traversed
/// subdirectory).
pub open spec fn count_files(s: Seq<FileInfoView>) -> int
    decreases s.len(),
{
    if s.len() == 0 {
        0
    } else {
        count_files(s.drop_last()) + if s.last().file_type is Directory {
            0int
        } else {
            1int
        }
    }
}

/// Consistency of one frame: the report is well formed, its two totals
/// partition the record list into files and traversed directories, and the
/// pending marker matches the cursor.
pub open spec fn frame_wf(f: Frame) -> bool {
    &&& f.report.wf()
    &&& f.report.total_files + f.report.total_directories == f.files@.len()
    &&& f.report.total_files == count_files(seq_views(f.files@))
    &&& f.idx <= f.entries@.len()
    &&& (!f.fetched ==> f.idx == 0 && f.entries@.len() == 0 && f.pending is Idle
        && f.report@ == empty_report() && f.files@.len() == 0)
    &&& (match f.pending {
        Pending::Idle => true,
        Pending::Gate { info } => f.fetched && f.idx < f.entries@.len() && info.file_type@
            is Image && info.is_nsfw is None,
        Pending::Child { info } => f.fetched && f.idx < f.entries@.len() && info.file_type@
            is Directory && info.is_nsfw is None,
    })
}

/// The traversal state machine.
pub struct Scanner {
    pub max_depth: u32,
    pub stack: Vec<Frame>,
    pub finished: Option<Result<(DirectoryReport, Vec<FileInfo>), ScanError>>,
}

/// Consistency of the whole machine: while running, the stack is a chain of
/// frames each waiting on its child, every depth within the bound and
/// growing by one per level; once finished, the stack is empty and a
/// successful result satisfies the report invariants.
pub open spec fn scanner_wf(s: Scanner) -> bool {
    &&& (s.finished is Some <==> s.stack@.len() == 0)
    &&& (forall|i: int| 0 <= i < s.stack@.len() ==> frame_wf(#[trigger] s.stack@[i]))
    &&& (forall|i: int|
        0 <= i < s.stack@.len() - 1 ==> (#[trigger] s.stack@[i].pending) is Child
            && s.stack@[i].fetched)
    &&& (forall|i: int|
        0 <= i < s.stack@.len() - 1 ==> #[trigger] s.stack@[i + 1].depth == s.stack@[i].depth
            + 1)
    &&& (forall|i: int| 0 <= i < s.stack@.len() ==> #[trigger] s.stack@[i].depth <= s.max_depth)
    &&& (s.stack@.len() > 0 ==> !(s.stack@.last().pending is Child))
    &&& (match s.finished {
        Some(Ok((r, files))) => r.wf() && r.total_files + r.total_directories == files@.len()
            && r.total_files == count_files(seq_views(files@)),
        _ => true,
    })
}

/// What the machine asks of its driver, as a function of the state.
pub open spec fn request_view(s: Scanner) -> ScanRequestView {
    if s.finished is Some {
        ScanRequestView::Done
    } else {
        let top = s.stack@.last();
        if !top.fetched {
            ScanRequestView::Fetch(top.url@)
        } else {
            match top.pending {
                Pending::Gate { info } => ScanRequestView::CheckImage(info.url@),
                _ => ScanRequestView::Step,
            }
        }
    }
}

impl Scanner {
    /// Begin a scan of `url` at `depth`.  A start beyond the depth bound is
    /// already complete: it yields an empty report and empty record list
    /// without requesting a single fetch.
    pub fn new(url: String, depth: u32, max_depth: u32) -> (s: Scanner)
        ensures
            scanner_wf(s),
            s.max_depth == max_depth,
            depth > max_depth ==> request_view(s) is Done && (match s.finished {
                Some(Ok((r, files))) => r@ == empty_report() && files@.len() == 0,
                _ => false,
            }),
            depth <= max_depth ==> request_view(s) == ScanRequestView::Fetch(url@)
                && s.stack@.len() == 1 && s.stack@[0].url@ == url@ && s.stack@[0].depth == depth
                && s.finished is None,
    {
        if depth > max_depth {
            let r = DirectoryReport::new();
            let files: Vec<FileInfo> = Vec::new();
            Scanner { max_depth, stack: Vec::new(), finished: Some(Ok((r, files))) }
        } else {
            let frame = Frame {
                url,
                depth,
                fetched: false,
                entries: Vec::new(),
                idx: 0,
                pending: Pending::Idle,
                report: DirectoryReport::new(),
                files: Vec::new(),
            };
            let mut stack: Vec<Frame> = Vec::new();
            stack.push(frame);
            Scanner { max_depth, stack, finished: None }
        }
    }

    /// What the driver must do next.
    pub fn request(&self) -> (r: ScanRequest)
        requires
            scanner_wf(*self),
        ensures
            r@ == request_view(*self),
    {
        match &self.finished {
            Some(_) => ScanRequest::Done,
            None => {
                let top = &self.stack[self.stack.len() - 1];
                if !top.fetched {
                    ScanRequest::Fetch(top.url.clone())
                } else {
                    match &top.pending {
                        Pending::Gate { info } => ScanRequest::CheckImage(info.url.clone()),
                        _ => ScanRequest::Step,
                    }
                }
            },
        }
    }

    /// Install the extracted entries of the page this machine asked for.
    pub fn provide_page(&mut self, entries: Vec<Entry>)
        requires
            scanner_wf(*old(self)),
            request_view(*old(self)) is Fetch,
        ensures
            scanner_wf(*final(self)),
            final(self).finished is None,
            final(self).max_depth == old(self).max_depth,
            final(self).stack@.len() == old(self).stack@.len(),
            forall|i: int|
                0 <= i < final(self).stack@.len() - 1 ==> final(self).stack@[i] == old(
                    self,
                ).stack@[i],
            final(self).stack@.last() == (Frame {
                fetched: true,
                entries,
                ..old(self).stack@.last()
            }),
            request_view(*final(self)) is Step,
    {
        let mut top = self.stack.pop().unwrap();
        top.fetched = true;
        top.entries = entries;
        self.stack.push(top);
        proof {
            assert(self.stack@.last() == (Frame {
                fetched: true,
                entries,
                ..old(self).stack@.last()
            }));
            assert forall|i: int| 0 <= i < self.stack@.len() implies frame_wf(
                #[trigger] self.stack@[i],
            ) by {
                if i < self.stack@.len() - 1 {
                    assert(self.stack@[i] == old(self).stack@[i]);
                }
            }
        }
    }

    /// The page this machine asked for could not be fetched (transport
    /// failure or non-success status).  For the root listing the whole scan
    /// fails; a child listing is treated as an empty subtree — its record
    /// still counts, nothing else is folded in — and the parent goes on.
    pub fn page_failed(&mut self)
        requires
            scanner_wf(*old(self)),
            request_view(*old(self)) is Fetch,
        ensures
            scanner_wf(*final(self)),
            final(self).max_depth == old(self).max_depth,
            old(self).stack@.len() == 1 ==> (match final(self).finished {
                Some(Err(ScanError::FetchFailed(u))) => u@ == old(self).stack@.last().url@,
                _ => false,
            }) && request_view(*final(self)) is Done,
            old(self).stack@.len() > 1 ==> {
                let par = old(self).stack@[old(self).stack@.len() - 2];
                &&& final(self).finished is None
                &&& final(self).stack@.len() == old(self).stack@.len() - 1
                &&& (forall|i: int|
                    0 <= i < final(self).stack@.len() - 1 ==> final(self).stack@[i] == old(
                        self,
                    ).stack@[i])
                &&& (match par.pending {
                    Pending::Child { info } => {
                        &&& final(self).stack@.last().files@ == par.files@.push(info)
                        &&& final(self).stack@.last().idx == par.idx + 1
                        &&& final(self).stack@.last().pending is Idle
                        &&& final(self).stack@.last().url == par.url
                        &&& final(self).stack@.last().depth == par.depth
                        &&& final(self).stack@.last().fetched == par.fetched
                        &&& final(self).stack@.last().entries == par.entries
                        &&& final(self).stack@.last().report@ == (ReportView {
                            total_directories: par.report@.total_directories + 1,
                            ..par.report@
                        })
                    },
                    _ => false,
                })
            },
    {
        let child = self.stack.pop().unwrap();
        if self.stack.len() == 0 {
            self.finished = Some(Err(ScanError::FetchFailed(child.url)));
        } else {
            let mut par = self.stack.pop().unwrap();
            let ghost par0 = par;
            match par.pending {
                Pending::Child { info } => {
                    let dinfo = info;
                    par.files.push(dinfo);
                    proof {
                        vstd::std_specs::vec::axiom_spec_len(&par.entries);
                        vstd::std_specs::vec::axiom_spec_len(&par.files);
                    }
                    par.report.total_directories = par.report.total_directories + 1;
                    par.idx = par.idx + 1;
                    par.pending = Pending::Idle;
                },
                _ => {
                    proof {
                        assert(false);
                    }
                },
            }
            proof {
                let recs = seq_views(par.files@);
                assert(recs.drop_last() =~= seq_views(par0.files@));
                assert(recs.last().file_type is Directory);
            }
            self.stack.push(par);
            proof {
                assert forall|i: int| 0 <= i < self.stack@.len() implies frame_wf(
                    #[trigger] self.stack@[i],
                ) by {
                    if i < self.stack@.len() - 1 {
                        assert(self.stack@[i] == old(self).stack@[i]);
                    }
                }
            }
        }
    }
}

proof fn lemma_count_files_concat(a: Seq<FileInfoView>, b: Seq<FileInfoView>)
    ensures
        count_files(a + b) == count_files(a) + count_files(b),
    decreases b.len(),
{
    if b.len() == 0 {
        assert(a + b =~= a);
    } else {
        assert((a + b).drop_last() =~= a + b.drop_last());
        lemma_count_files_concat(a, b.drop_last());
        assert((a + b).last() == b.last());
    }
}

/// Everything `advance` guarantees, as a relation between the machine
/// before and after the step: a completed frame folds into its parent (or
/// finishes the scan), a skipped link moves the cursor, a subdirectory
/// within the depth bound opens a fresh frame, one at the bound contributes
/// its record alone, an image leaf awaits its content verdict, and any other leaf is
/// counted at once.
pub open spec fn advance_post(o: Scanner, s: Scanner) -> bool {
    let top = o.stack@.last();
    let len = o.stack@.len() as int;
    if top.idx == top.entries@.len() {
        if len == 1 {
            &&& s.stack@.len() == 0
            &&& (match s.finished {
                Some(Ok(pair)) => pair.0 == top.report && pair.1 == top.files,
                _ => false,
            })
        } else {
            let par = o.stack@[len - 2];
            match par.pending {
                Pending::Child { info } => {
                    &&& s.finished is None
                    &&& s.stack@.len() == len - 1
                    &&& (forall|i: int| 0 <= i < len - 2 ==> s.stack@[i] == o.stack@[i])
                    &&& ({
                        let np = s.stack@.last();
                        let merged = merge_view(par.report@, top.report@, info.url@);
                        &&& np.report@ == (ReportView {
                            total_directories: merged.total_directories + 1,
                            ..merged
                        })
                        &&& np.files@ == par.files@ + top.files@ + seq![info]
                        &&& np.idx == par.idx + 1
                        &&& np.pending is Idle
                        &&& np.url == par.url
                        &&& np.depth == par.depth
                        &&& np.fetched
                        &&& np.entries == par.entries
                    })
                },
                _ => false,
            }
        }
    } else {
        let ev = top.entries@[top.idx as int]@;
        let base = top.url@;
        &&& s.finished is None
        &&& (forall|i: int| 0 <= i < len - 1 ==> s.stack@[i] == o.stack@[i])
        &&& (if skip_href(ev.href) {
            &&& s.stack@.len() == len
            &&& ({
                let nt = s.stack@.last();
                &&& nt.idx == top.idx + 1
                &&& nt.pending is Idle
                &&& nt.report == top.report
                &&& nt.files == top.files
                &&& nt.url == top.url
                &&& nt.depth == top.depth
                &&& nt.fetched
                &&& nt.entries == top.entries
            })
        } else if is_dir_href(ev.href) {
            if top.depth < o.max_depth {
                &&& s.stack@.len() == len + 1
                &&& ({
                    let nt = s.stack@[len - 1];
                    &&& (match nt.pending {
                        Pending::Child { info } => info@ == dir_info(base, ev),
                        _ => false,
                    })
                    &&& nt.report == top.report
                    &&& nt.files == top.files
                    &&& nt.idx == top.idx
                    &&& nt.url == top.url
                    &&& nt.depth == top.depth
                    &&& nt.fetched
                    &&& nt.entries == top.entries
                })
                &&& ({
                    let cf = s.stack@.last();
                    &&& cf.url@ == resolve_url(base, ev.href)
                    &&& cf.depth == top.depth + 1
                    &&& !cf.fetched
                })
            } else {
                &&& s.stack@.len() == len
                &&& ({
                    let nt = s.stack@.last();
                    &&& seq_views(nt.files@) == seq_views(top.files@).push(dir_info(base, ev))
                    &&& nt.report@ == (ReportView {
                        total_directories: top.report@.total_directories + 1,
                        ..top.report@
                    })
                    &&& nt.idx == top.idx + 1
                    &&& nt.pending is Idle
                    &&& nt.url == top.url
                    &&& nt.depth == top.depth
                    &&& nt.fetched
                    &&& nt.entries == top.entries
                })
            }
        } else {
            let linfo = leaf_info(base, ev, None);
            if linfo.file_type is Image {
                &&& s.stack@.len() == len
                &&& ({
                    let nt = s.stack@.last();
                    &&& (match nt.pending {
                        Pending::Gate { info } => info@ == linfo,
                        _ => false,
                    })
                    &&& nt.report == top.report
                    &&& nt.files == top.files
                    &&& nt.idx == top.idx
                    &&& nt.url == top.url
                    &&& nt.depth == top.depth
                    &&& nt.fetched
                    &&& nt.entries == top.entries
                })
            } else {
                &&& s.stack@.len() == len
                &&& ({
                    let nt = s.stack@.last();
                    &&& nt.report@ == add_file_view(top.report@, linfo)
                    &&& seq_views(nt.files@) == seq_views(top.files@).push(linfo)
                    &&& nt.idx == top.idx + 1
                    &&& nt.pending is Idle
                    &&& nt.url == top.url
                    &&& nt.depth == top.depth
                    &&& nt.fetched
                    &&& nt.entries == top.entries
                })
            }
        })
    }
}

impl Scanner {
    /// The content verdict for the image this machine asked about: `Some`
    /// carries the explicit flag, `None` means no verdict could be obtained
    /// and the entry's status stays unknown.  Either way the entry still
    /// counts into every other statistic, and sibling processing goes on
    /// undisturbed.
    pub fn provide_gate(&mut self, verdict: Option<bool>)
        requires
            scanner_wf(*old(self)),
            request_view(*old(self)) is CheckImage,
        ensures
            scanner_wf(*final(self)),
            final(self).finished is None,
            final(self).max_depth == old(self).max_depth,
            final(self).stack@.len() == old(self).stack@.len(),
            forall|i: int|
                0 <= i < final(self).stack@.len() - 1 ==> final(self).stack@[i] == old(
                    self,
                ).stack@[i],
            ({
                let top = old(self).stack@.last();
                let ntop = final(self).stack@.last();
                match top.pending {
                    Pending::Gate { info } => {
                        let rec = FileInfo { is_nsfw: verdict, ..info };
                        &&& ntop.report@ == add_file_view(top.report@, rec@)
                        &&& ntop.files@ == top.files@.push(rec)
                        &&& ntop.idx == top.idx + 1
                        &&& ntop.pending is Idle
                        &&& ntop.url == top.url
                        &&& ntop.depth == top.depth
                        &&& ntop.fetched
                        &&& ntop.entries == top.entries
                    },
                    _ => false,
                }
            }),
            request_view(*final(self)) is Step,
    {
        let mut top = self.stack.pop().unwrap();
        let ghost top0 = top;
        match top.pending {
            Pending::Gate { info } => {
                let mut rec = info;
                rec.is_nsfw = verdict;
                let rec2 = clone_info(&rec);
                top.files.push(rec2);
                proof {
                    vstd::std_specs::vec::axiom_spec_len(&top.files);
                    vstd::std_specs::vec::axiom_spec_len(&top.entries);
                    let recs = seq_views(top.files@);
                    assert(recs.drop_last() =~= seq_views(top0.files@));
                    assert(!(recs.last().file_type is Directory));
                }
                top.report.add_file(rec);
                top.idx = top.idx + 1;
                top.pending = Pending::Idle;
            },
            _ => {
                proof {
                    assert(false);
                }
            },
        }
        self.stack.push(top);
        proof {
            assert forall|i: int| 0 <= i < self.stack@.len() implies frame_wf(
                #[trigger] self.stack@[i],
            ) by {
                if i < self.stack@.len() - 1 {
                    assert(self.stack@[i] == old(self).stack@[i]);
                }
            }
        }
    }

    /// Take one internal step: process the entry under the cursor, or close
    /// the finished frame and fold it into its parent.
    #[verifier::rlimit(100)]
    pub fn advance(&mut self)
        requires
            scanner_wf(*old(self)),
            request_view(*old(self)) is Step,
        ensures
            scanner_wf(*final(self)),
            final(self).max_depth == old(self).max_depth,
            advance_post(*old(self), *final(self)),
    {
        let mut top = self.stack.pop().unwrap();
        let ghost top0 = top;
        if top.idx == top.entries.len() {
            if self.stack.len() == 0 {
                self.finished = Some(Ok((top.report, top.files)));
            } else {
                let mut par = self.stack.pop().unwrap();
                let ghost par0 = par;
                match par.pending {
                    Pending::Child { info } => {
                        let curl = info.url.clone();
                        let mut cfiles = top.files;
                        par.files.append(&mut cfiles);
                        par.files.push(info);
                        proof {
                            vstd::std_specs::vec::axiom_spec_len(&par.files);
                            vstd::std_specs::vec::axiom_spec_len(&par.entries);
                            assert(seq_views(par0.files@ + top0.files@) =~= seq_views(
                                par0.files@,
                            ) + seq_views(top0.files@));
                            lemma_count_files_concat(
                                seq_views(par0.files@),
                                seq_views(top0.files@),
                            );
                            assert(seq_views(par.files@).drop_last() =~= seq_views(par0.files@)
                                + seq_views(top0.files@));
                            assert(par.files@.drop_last() =~= par0.files@ + top0.files@);
                            assert(seq_views(par.files@).last().file_type is Directory);
                        }
                        par.report.merge_child(curl, top.report);
                        par.report.total_directories = par.report.total_directories + 1;
                        par.idx = par.idx + 1;
                        par.pending = Pending::Idle;
                        proof {
                            assert(par.files@ =~= par0.files@ + top0.files@ + seq![
                                par.files@.last(),
                            ]);
                        }
                    },
                    _ => {
                        proof {
                            assert(false);
                        }
                    },
                }
                self.stack.push(par);
                proof {
                    assert forall|i: int| 0 <= i < self.stack@.len() implies frame_wf(
                        #[trigger] self.stack@[i],
                    ) by {
                        if i < self.stack@.len() - 1 {
                            assert(self.stack@[i] == old(self).stack@[i]);
                        }
                    }
                }
            }
        } else {
            let href_c = top.entries[top.idx].href.clone();
            let href = href_c.as_str();
            proof {
                assert(href@ == top0.entries@[top0.idx as int]@.href);
                vstd::std_specs::vec::axiom_spec_len(&top.entries);
            }
            if href_skip(href) {
                top.idx = top.idx + 1;
                self.stack.push(top);
                proof {
                    assert forall|i: int| 0 <= i < self.stack@.len() implies frame_wf(
                        #[trigger] self.stack@[i],
                    ) by {
                        if i < self.stack@.len() - 1 {
                            assert(self.stack@[i] == old(self).stack@[i]);
                        }
                    }
                }
            } else {
                let name_s = String::from_str(strip_trailing(href));
                let file_url = resolve(top.url.as_str(), href);
                if href_is_dir(href) {
                    let dinfo = FileInfo {
                        name: name_s,
                        url: file_url.clone(),
                        size: 0,
                        file_type: FileType::Directory,
                        is_nsfw: None,
                    };
                    proof {
                        assert(dinfo@ == dir_info(top0.url@, top0.entries@[top0.idx as int]@));
                    }
                    if top.depth < self.max_depth {
                        top.pending = Pending::Child { info: dinfo };
                        let child = Frame {
                            url: file_url,
                            depth: top.depth + 1,
                            fetched: false,
                            entries: Vec::new(),
                            idx: 0,
                            pending: Pending::Idle,
                            report: DirectoryReport::new(),
                            files: Vec::new(),
                        };
                        self.stack.push(top);
                        self.stack.push(child);
                        proof {
                            assert forall|i: int| 0 <= i < self.stack@.len() implies frame_wf(
                                #[trigger] self.stack@[i],
                            ) by {
                                if i < self.stack@.len() - 2 {
                                    assert(self.stack@[i] == old(self).stack@[i]);
                                }
                            }
                        }
                    } else {
                        top.files.push(dinfo);
                        proof {
                            vstd::std_specs::vec::axiom_spec_len(&top.files);
                            let recs = seq_views(top.files@);
                            assert(recs.drop_last() =~= seq_views(top0.files@));
                            assert(recs.last().file_type is Directory);
                            assert(recs =~= seq_views(top0.files@).push(
                                dir_info(top0.url@, top0.entries@[top0.idx as int]@),
                            ));
                        }
                        top.report.total_directories = top.report.total_directories + 1;
                        top.idx = top.idx + 1;
                        self.stack.push(top);
                        proof {
                            assert forall|i: int| 0 <= i < self.stack@.len() implies frame_wf(
                                #[trigger] self.stack@[i],
                            ) by {
                                if i < self.stack@.len() - 1 {
                                    assert(self.stack@[i] == old(self).stack@[i]);
                                }
                            }
                        }
                    }
                } else {
                    let size: u64 = match &top.entries[top.idx].size_text {
                        Some(t) => parse_size(t.as_str()),
                        None => 0,
                    };
                    let classified = get_file_type(name_s.as_str());
                    // a leaf is never a directory: the trailing-separator
                    // decision is authoritative, so an extensionless name
                    // is recorded as `Other` with the empty extension
                    let ftype = if matches!(classified, FileType::Directory) {
                        FileType::Other(String::new())
                    } else {
                        classified
                    };
                    let is_img = matches!(ftype, FileType::Image(_));
                    let linfo = FileInfo {
                        name: name_s,
                        url: file_url,
                        size,
                        file_type: ftype,
                        is_nsfw: None,
                    };
                    let ghost lv = linfo@;
                    proof {
                        assert(lv.file_type == leaf_type_of(strip_trailing_slashes(href@)));
                        assert(!(lv.file_type is Directory));
                        assert(lv == leaf_info(
                            top0.url@,
                            top0.entries@[top0.idx as int]@,
                            None,
                        ));
                    }
                    if is_img {
                        top.pending = Pending::Gate { info: linfo };
                        self.stack.push(top);
                        proof {
                            assert forall|i: int| 0 <= i < self.stack@.len() implies frame_wf(
                                #[trigger] self.stack@[i],
                            ) by {
                                if i < self.stack@.len() - 1 {
                                    assert(self.stack@[i] == old(self).stack@[i]);
                                }
                            }
                        }
                    } else {
                        let rec2 = clone_info(&linfo);
                        top.files.push(rec2);
                        proof {
                            vstd::std_specs::vec::axiom_spec_len(&top.files);
                            let recs = seq_views(top.files@);
                            assert(recs.drop_last() =~= seq_views(top0.files@));
                            assert(recs =~= seq_views(top0.files@).push(lv));
                        }
                        top.report.add_file(linfo);
                        top.idx = top.idx + 1;
                        self.stack.push(top);
                        proof {
                            assert forall|i: int| 0 <= i < self.stack@.len() implies frame_wf(
                                #[trigger] self.stack@[i],
                            ) by {
                                if i < self.stack@.len() - 1 {
                                    assert(self.stack@[i] == old(self).stack@[i]);
                                }
                            }
                        }
                    }
                }
            }
        }
    }

    /// Hand the machine the raw body of the page it asked for; the link
    /// extractor turns the HTML into entries.
    pub fn provide_page_body(&mut self, body: &str)
        requires
            scanner_wf(*old(self)),
            request_view(*old(self)) is Fetch,
        ensures
            scanner_wf(*final(self)),
            final(self).finished is None,
            final(self).max_depth == old(self).max_depth,
            final(self).stack@.len() == old(self).stack@.len(),
            forall|i: int|
                0 <= i < final(self).stack@.len() - 1 ==> final(self).stack@[i] == old(
                    self,
                ).stack@[i],
            ({
                let top = old(self).stack@.last();
                let ntop = final(self).stack@.last();
                &&& ntop.fetched
                &&& crate::extract::entry_views(ntop.entries@) == crate::extract::links_of(
                    body@,
                )
                &&& ntop.url == top.url
                &&& ntop.depth == top.depth
                &&& ntop.idx == top.idx
                &&& ntop.pending == top.pending
                &&& ntop.report == top.report
                &&& ntop.files == top.files
            }),
            request_view(*final(self)) is Step,
    {
        let entries = crate::extract::extract_links(body);
        self.provide_page(entries);
    }

    /// The scan's outcome, or the failure that stopped it.  On success the
    /// flat record list holds one record per counted entry, in depth-first
    /// order with each traversed directory's record following its subtree's
    /// records; the report's two totals partition it, and `total_files`
    /// counts exactly the records that are not directories.
    pub fn into_result(self) -> (r: Result<(DirectoryReport, Vec<FileInfo>), ScanError>)
        requires
            scanner_wf(self),
            request_view(self) is Done,
        ensures
            (match self.finished {
                Some(res) => r == res,
                None => false,
            }),
            (match r {
                Ok(pair) => {
                    &&& pair.0.wf()
                    &&& pair.0.total_files + pair.0.total_directories == pair.1@.len()
                    &&& pair.0.total_files == count_files(seq_views(pair.1@))
                },
                Err(_) => true,
            }),
    {
        match self.finished {
            Some(res) => res,
            None => {
                proof {
                    assert(false);
                }
                Err(ScanError::FetchFailed(String::new()))
            },
        }
    }
}

} // verus!
