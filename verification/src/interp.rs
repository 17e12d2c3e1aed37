//! The auxiliary-file command interpreter: `\bibdata`, `\bibstyle`,
//! `\citation` and `\@input`, with structured diagnostics, case-folded cite
//! keys, duplicate detection and the bounded input stack.

use crate::auxdata::{AuxData, AuxDataV, AUX_STACK_SIZE};
use crate::bytes::{bytes_eq, copy_bytes, copy_range, has_suffix, is_ws, lower, to_lower_vec};
use crate::index::find_byte;
use vstd::prelude::*;
use vstd::slice::slice_subrange;

verus! {

/// Which resolver a file is opened through.
#[derive(Clone, Copy, Debug, PartialEq, Eq, Structural)]
pub enum FileKind {
    Bib,
    Bst,
    Tex,
}

/// Which command a duplicate-command diagnostic names.
#[derive(Clone, Copy, Debug, PartialEq, Eq, Structural)]
pub enum AuxTy {
    Data,
    Style,
}

/// The names the host can open, per resolver. The interpreter consults this
/// in place of performing the opens itself; the host performs them.
pub struct FileSet {
    pub bib: Vec<Vec<u8>>,
    pub bst: Vec<Vec<u8>>,
    pub tex: Vec<Vec<u8>>,
}

/// The mathematical image of a [`FileSet`].
pub ghost struct FileSetV {
    pub bib: Seq<Seq<u8>>,
    pub bst: Seq<Seq<u8>>,
    pub tex: Seq<Seq<u8>>,
}

impl View for FileSet {
    type V = FileSetV;

    open spec fn view(&self) -> FileSetV {
        FileSetV {
            bib: self.bib.deep_view(),
            bst: self.bst.deep_view(),
            tex: self.tex.deep_view(),
        }
    }
}

/// Membership of a byte string in a list of byte strings.
pub open spec fn contains_seq(s: Seq<Seq<u8>>, x: Seq<u8>) -> bool {
    exists|j: int| 0 <= j < s.len() && s[j] == x
}

/// Whether the host can open `name` through the resolver for `kind`.
pub open spec fn openable(fs: FileSetV, kind: FileKind, name: Seq<u8>) -> bool {
    match kind {
        FileKind::Bib => contains_seq(fs.bib, name),
        FileKind::Bst => contains_seq(fs.bst, name),
        FileKind::Tex => contains_seq(fs.tex, name),
    }
}

impl FileSet {
    /// A host that can open nothing.
    pub fn new() -> (r: FileSet)
        ensures
            r@.bib.len() == 0,
            r@.bst.len() == 0,
            r@.tex.len() == 0,
    {
        let r = FileSet { bib: Vec::new(), bst: Vec::new(), tex: Vec::new() };
        proof {
            assert(r@.bib =~~= Seq::<Seq<u8>>::empty());
            assert(r@.bst =~~= Seq::<Seq<u8>>::empty());
            assert(r@.tex =~~= Seq::<Seq<u8>>::empty());
        }
        r
    }

    /// Declare one more name openable.
    pub fn allow(&mut self, kind: FileKind, name: Vec<u8>)
        ensures
            kind == FileKind::Bib ==> final(self)@ == (FileSetV {
                bib: old(self)@.bib.push(name@),
                ..old(self)@
            }),
            kind == FileKind::Bst ==> final(self)@ == (FileSetV {
                bst: old(self)@.bst.push(name@),
                ..old(self)@
            }),
            kind == FileKind::Tex ==> final(self)@ == (FileSetV {
                tex: old(self)@.tex.push(name@),
                ..old(self)@
            }),
    {
        broadcast use crate::bytes::lemma_vec_u8_deep_view;

        let ghost pre = self@;
        match kind {
            FileKind::Bib => {
                self.bib.push(name);
                proof {
                    assert(self@.bib =~~= pre.bib.push(name@));
                }
            },
            FileKind::Bst => {
                self.bst.push(name);
                proof {
                    assert(self@.bst =~~= pre.bst.push(name@));
                }
            },
            FileKind::Tex => {
                self.tex.push(name);
                proof {
                    assert(self@.tex =~~= pre.tex.push(name@));
                }
            },
        }
    }

    /// Whether `name` can be opened through the resolver for `kind`.
    pub fn can_open(&self, kind: FileKind, name: &[u8]) -> (r: bool)
        ensures
            r == openable(self@, kind, name@),
    {
        match kind {
            FileKind::Bib => contains_name(&self.bib, name),
            FileKind::Bst => contains_name(&self.bst, name),
            FileKind::Tex => contains_name(&self.tex, name),
        }
    }
}

/// Whether `x` occurs among `names`.
pub fn contains_name(names: &Vec<Vec<u8>>, x: &[u8]) -> (r: bool)
    ensures
        r == contains_seq(names.deep_view(), x@),
{
    broadcast use crate::bytes::lemma_vec_u8_deep_view;

    let mut j: usize = 0;
    while j < names.len()
        invariant
            j <= names@.len(),
            forall|k: int| 0 <= k < j ==> names.deep_view()[k] != x@,
        decreases names@.len() - j,
    {
        let hit = bytes_eq(names[j].as_slice(), x);
        assert(names.deep_view()[j as int] == names@[j as int]@);
        if hit {
            assert(names.deep_view()[j as int] == x@);
            return true;
        }
        j += 1;
    }
    false
}

/// One diagnostic of the interpreter or the completion check.
#[derive(Clone, Debug, PartialEq, Eq)]
pub enum Diag {
    IllegalAnother(AuxTy),
    NoRightBrace,
    WhitespaceInArgument,
    StuffAfterRightBrace,
    DuplicateBibFile(Vec<u8>),
    CantOpenBibFile(Vec<u8>),
    CantOpenStyleFile(Vec<u8>),
    MultipleStarInclusion,
    CaseMismatch(Vec<u8>, Vec<u8>),
    StackOverflow,
    WrongExtension(Vec<u8>),
    DuplicateAuxFile(Vec<u8>),
    CantOpenAuxFile(Vec<u8>),
    MissingCitations,
    NoCiteKeys,
    MissingBibdata,
    NoDatabaseFiles,
    MissingBibstyle,
    NoStyleFile,
}

/// The mathematical image of a [`Diag`].
pub ghost enum DiagV {
    IllegalAnother(AuxTy),
    NoRightBrace,
    WhitespaceInArgument,
    StuffAfterRightBrace,
    DuplicateBibFile(Seq<u8>),
    CantOpenBibFile(Seq<u8>),
    CantOpenStyleFile(Seq<u8>),
    MultipleStarInclusion,
    CaseMismatch(Seq<u8>, Seq<u8>),
    StackOverflow,
    WrongExtension(Seq<u8>),
    DuplicateAuxFile(Seq<u8>),
    CantOpenAuxFile(Seq<u8>),
    MissingCitations,
    NoCiteKeys,
    MissingBibdata,
    NoDatabaseFiles,
    MissingBibstyle,
    NoStyleFile,
}

impl DeepView for Diag {
    type V = DiagV;

    open spec fn deep_view(&self) -> DiagV {
        match self {
            Diag::IllegalAnother(t) => DiagV::IllegalAnother(*t),
            Diag::NoRightBrace => DiagV::NoRightBrace,
            Diag::WhitespaceInArgument => DiagV::WhitespaceInArgument,
            Diag::StuffAfterRightBrace => DiagV::StuffAfterRightBrace,
            Diag::DuplicateBibFile(n) => DiagV::DuplicateBibFile(n@),
            Diag::CantOpenBibFile(n) => DiagV::CantOpenBibFile(n@),
            Diag::CantOpenStyleFile(n) => DiagV::CantOpenStyleFile(n@),
            Diag::MultipleStarInclusion => DiagV::MultipleStarInclusion,
            Diag::CaseMismatch(a, b) => DiagV::CaseMismatch(a@, b@),
            Diag::StackOverflow => DiagV::StackOverflow,
            Diag::WrongExtension(n) => DiagV::WrongExtension(n@),
            Diag::DuplicateAuxFile(n) => DiagV::DuplicateAuxFile(n@),
            Diag::CantOpenAuxFile(n) => DiagV::CantOpenAuxFile(n@),
            Diag::MissingCitations => DiagV::MissingCitations,
            Diag::NoCiteKeys => DiagV::NoCiteKeys,
            Diag::MissingBibdata => DiagV::MissingBibdata,
            Diag::NoDatabaseFiles => DiagV::NoDatabaseFiles,
            Diag::MissingBibstyle => DiagV::MissingBibstyle,
            Diag::NoStyleFile => DiagV::NoStyleFile,
        }
    }
}

/// What interpreting one line yields: the diagnostics in order, and whether
/// the session must abort.
pub struct LineOutcome {
    pub diags: Vec<Diag>,
    pub fatal: bool,
}

/// An outcome with no diagnostics.
fn outcome0() -> (r: LineOutcome)
    ensures
        r.diags.deep_view() == Seq::<DiagV>::empty(),
        r.fatal == false,
{
    let r = LineOutcome { diags: Vec::new(), fatal: false };
    proof {
        assert(r.diags.deep_view() =~~= Seq::<DiagV>::empty());
    }
    r
}

/// A recoverable outcome with one diagnostic.
fn outcome1(d: Diag) -> (r: LineOutcome)
    ensures
        r.diags.deep_view() == seq![d.deep_view()],
        r.fatal == false,
{
    let ghost dv = d.deep_view();
    let mut diags: Vec<Diag> = Vec::new();
    diags.push(d);
    let r = LineOutcome { diags, fatal: false };
    proof {
        assert(r.diags.deep_view() =~~= seq![dv]);
    }
    r
}

/// A fatal outcome with one diagnostic.
fn outcome_fatal(d: Diag) -> (r: LineOutcome)
    ensures
        r.diags.deep_view() == seq![d.deep_view()],
        r.fatal == true,
{
    let ghost dv = d.deep_view();
    let mut diags: Vec<Diag> = Vec::new();
    diags.push(d);
    let r = LineOutcome { diags, fatal: true };
    proof {
        assert(r.diags.deep_view() =~~= seq![dv]);
    }
    r
}

// ---------------------------------------------------------------------------
// The argument scanner
// ---------------------------------------------------------------------------

/// Whether the scanner stops at `b`: a closing brace, a comma where commas
/// separate arguments, or whitespace.
pub open spec fn stop_char(b: u8, comma: bool) -> bool {
    b == 125 || (comma && b == 44) || is_ws(b)
}

/// The position of the first stop character at or after `i`, or the line
/// length.
pub open spec fn scan_end(line: Seq<u8>, i: int, comma: bool) -> int
    decreases line.len() - i,
{
    if i < 0 || i >= line.len() {
        line.len() as int
    } else if stop_char(line[i], comma) {
        i
    } else {
        scan_end(line, i + 1, comma)
    }
}

/// Advance from `from` to the first stop character.
pub fn scan_till(line: &[u8], from: usize, comma: bool) -> (r: usize)
    requires
        from <= line@.len(),
    ensures
        r == scan_end(line@, from as int, comma),
        from <= r <= line@.len(),
        r < line@.len() ==> stop_char(line@[r as int], comma),
        forall|k: int| from <= k < r ==> !stop_char(line@[k], comma),
{
    let mut i: usize = from;
    while i < line.len()
        invariant
            from <= i <= line@.len(),
            scan_end(line@, from as int, comma) == scan_end(line@, i as int, comma),
            forall|k: int| from <= k < i ==> !stop_char(line@[k], comma),
        decreases line.len() - i,
    {
        let b = line[i];
        if b == 125 || (comma && b == 44) || b == 9 || b == 10 || b == 11 || b == 12 || b == 13
            || b == 32 {
            return i;
        }
        i += 1;
    }
    i
}

/// How scanning one argument from the delimiter at `p` ends.
pub ghost enum ArgScanV {
    /// The line ended before a stop character.
    NoBrace,
    /// The scan stopped on whitespace.
    Whitespace,
    /// Characters follow the closing brace.
    StuffAfter,
    /// An argument: the bytes of `line` in `[lo, hi)`.
    Arg { lo: int, hi: int },
}

/// Scan the argument that begins after position `p`.
pub open spec fn arg_scan(line: Seq<u8>, p: int, comma: bool) -> ArgScanV {
    let lo = p + 1;
    let q = scan_end(line, lo, comma);
    if q >= line.len() {
        ArgScanV::NoBrace
    } else if is_ws(line[q]) {
        ArgScanV::Whitespace
    } else if line.len() > q + 1 && line[q] == 125 {
        ArgScanV::StuffAfter
    } else {
        ArgScanV::Arg { lo, hi: q }
    }
}

// ---------------------------------------------------------------------------
// Command names
// ---------------------------------------------------------------------------

/// The ASCII bytes of `\bibdata`.
pub open spec fn bibdata_cmd() -> Seq<u8> {
    seq![92u8, 98, 105, 98, 100, 97, 116, 97]
}

/// The ASCII bytes of `\bibstyle`.
pub open spec fn bibstyle_cmd() -> Seq<u8> {
    seq![92u8, 98, 105, 98, 115, 116, 121, 108, 101]
}

/// The ASCII bytes of `\citation`.
pub open spec fn citation_cmd() -> Seq<u8> {
    seq![92u8, 99, 105, 116, 97, 116, 105, 111, 110]
}

/// The ASCII bytes of `\@input`.
pub open spec fn input_cmd() -> Seq<u8> {
    seq![92u8, 64, 105, 110, 112, 117, 116]
}

fn bibdata_cmd_bytes() -> (r: Vec<u8>)
    ensures
        r@ == bibdata_cmd(),
{
    let mut v: Vec<u8> = Vec::new();
    v.push(92);
    v.push(98);
    v.push(105);
    v.push(98);
    v.push(100);
    v.push(97);
    v.push(116);
    v.push(97);
    assert(v@ =~= bibdata_cmd());
    v
}

fn bibstyle_cmd_bytes() -> (r: Vec<u8>)
    ensures
        r@ == bibstyle_cmd(),
{
    let mut v: Vec<u8> = Vec::new();
    v.push(92);
    v.push(98);
    v.push(105);
    v.push(98);
    v.push(115);
    v.push(116);
    v.push(121);
    v.push(108);
    v.push(101);
    assert(v@ =~= bibstyle_cmd());
    v
}

fn citation_cmd_bytes() -> (r: Vec<u8>)
    ensures
        r@ == citation_cmd(),
{
    let mut v: Vec<u8> = Vec::new();
    v.push(92);
    v.push(99);
    v.push(105);
    v.push(116);
    v.push(97);
    v.push(116);
    v.push(105);
    v.push(111);
    v.push(110);
    assert(v@ =~= citation_cmd());
    v
}

fn input_cmd_bytes() -> (r: Vec<u8>)
    ensures
        r@ == input_cmd(),
{
    let mut v: Vec<u8> = Vec::new();
    v.push(92);
    v.push(64);
    v.push(105);
    v.push(110);
    v.push(112);
    v.push(117);
    v.push(116);
    assert(v@ =~= input_cmd());
    v
}


// ---------------------------------------------------------------------------
// The session state
// ---------------------------------------------------------------------------

/// The mathematical image of a session.
pub ghost struct BibtexV {
    pub bib_seen: bool,
    pub bst_seen: bool,
    pub citation_seen: bool,
    pub all_entries: bool,
    pub bst_str: Option<Seq<u8>>,
    pub bib_files: Seq<Seq<u8>>,
    pub bib_names: Seq<Seq<u8>>,
    pub cites: Seq<Seq<u8>>,
    pub all_marker: Option<int>,
    pub aux: AuxDataV,
    pub aux_names: Seq<Seq<u8>>,
    pub aux_ext: Seq<u8>,
    pub num_cites: int,
    pub num_bib_files: int,
}

/// One session of the interpreter: the one-shot flags, the chosen style,
/// the opened database files, the cite table, the input stack, and the
/// interned names used for duplicate detection.
pub struct Bibtex {
    pub bib_seen: bool,
    pub bst_seen: bool,
    pub citation_seen: bool,
    pub all_entries: bool,
    pub bst_str: Option<Vec<u8>>,
    pub bib_files: Vec<Vec<u8>>,
    pub bib_names: Vec<Vec<u8>>,
    pub cites: Vec<Vec<u8>>,
    pub all_marker: Option<usize>,
    pub aux: AuxData,
    pub aux_names: Vec<Vec<u8>>,
    pub aux_extension: Vec<u8>,
    pub num_cites: usize,
    pub num_bib_files: usize,
}

impl View for Bibtex {
    type V = BibtexV;

    open spec fn view(&self) -> BibtexV {
        BibtexV {
            bib_seen: self.bib_seen,
            bst_seen: self.bst_seen,
            citation_seen: self.citation_seen,
            all_entries: self.all_entries,
            bst_str: match self.bst_str {
                Some(ref v) => Some(v@),
                None => None,
            },
            bib_files: self.bib_files.deep_view(),
            bib_names: self.bib_names.deep_view(),
            cites: self.cites.deep_view(),
            all_marker: match self.all_marker {
                Some(k) => Some(k as int),
                None => None,
            },
            aux: self.aux@,
            aux_names: self.aux_names.deep_view(),
            aux_ext: self.aux_extension@,
            num_cites: self.num_cites as int,
            num_bib_files: self.num_bib_files as int,
        }
    }
}

/// No two cite keys fold to the same lowercase form.
pub open spec fn distinct_lowers(cites: Seq<Seq<u8>>) -> bool {
    forall|i: int, j: int|
        0 <= i < j < cites.len() ==> lower(#[trigger] cites[i]) != lower(#[trigger] cites[j])
}

/// The ASCII bytes of `.aux`.
pub open spec fn aux_ext_default() -> Seq<u8> {
    seq![46u8, 97, 117, 120]
}

/// The state of a fresh session.
pub open spec fn initial_bibtex() -> BibtexV {
    BibtexV {
        bib_seen: false,
        bst_seen: false,
        citation_seen: false,
        all_entries: false,
        bst_str: None,
        bib_files: Seq::empty(),
        bib_names: Seq::empty(),
        cites: Seq::empty(),
        all_marker: None,
        aux: crate::auxdata::empty_aux(),
        aux_names: Seq::empty(),
        aux_ext: aux_ext_default(),
        num_cites: 0,
        num_bib_files: 0,
    }
}

impl Bibtex {
    /// The stack is well formed and the cite keys are pairwise distinct
    /// once case-folded.
    pub open spec fn wf(self) -> bool {
        &&& self.aux.wf()
        &&& distinct_lowers(self@.cites)
    }

    /// A fresh session.
    pub fn new() -> (r: Bibtex)
        ensures
            r.wf(),
            r@ == initial_bibtex(),
    {
        broadcast use crate::bytes::lemma_vec_u8_deep_view;

        let mut ext: Vec<u8> = Vec::new();
        ext.push(46);
        ext.push(97);
        ext.push(117);
        ext.push(120);
        let r = Bibtex {
            bib_seen: false,
            bst_seen: false,
            citation_seen: false,
            all_entries: false,
            bst_str: None,
            bib_files: Vec::new(),
            bib_names: Vec::new(),
            cites: Vec::new(),
            all_marker: None,
            aux: AuxData::new(),
            aux_names: Vec::new(),
            aux_extension: ext,
            num_cites: 0,
            num_bib_files: 0,
        };
        proof {
            assert(r@.bib_files =~~= Seq::<Seq<u8>>::empty());
            assert(r@.bib_names =~~= Seq::<Seq<u8>>::empty());
            assert(r@.cites =~~= Seq::<Seq<u8>>::empty());
            assert(r@.aux_names =~~= Seq::<Seq<u8>>::empty());
            assert(r@.aux_ext =~= aux_ext_default());
        }
        r
    }
}

/// A step of the interpreter: the state it leaves, the diagnostics it
/// emits, and whether it aborts the session.
pub ghost struct StepV {
    pub st: BibtexV,
    pub diags: Seq<DiagV>,
    pub fatal: bool,
}

/// The first cite whose lowercase form is `lc`, or `-1`.
pub open spec fn lc_index_of(cites: Seq<Seq<u8>>, lc: Seq<u8>) -> int
    decreases cites.len(),
{
    if cites.len() == 0 {
        -1
    } else if lower(cites[0]) == lc {
        0
    } else {
        let r = lc_index_of(cites.skip(1), lc);
        if r == -1 {
            -1
        } else {
            r + 1
        }
    }
}

// ---------------------------------------------------------------------------
// The command transitions
// ---------------------------------------------------------------------------

/// `\bibdata{db1,db2,...}`: refused outright after an earlier `\bibdata`;
/// otherwise each argument in turn is interned (a repeat is a recoverable
/// duplicate), opened through the host (a failure abandons the line), and
/// appended to the database list.
pub open spec fn step_bibdata(st: BibtexV, line: Seq<u8>, p: int, fs: FileSetV) -> StepV {
    if st.bib_seen {
        StepV { st, diags: seq![DiagV::IllegalAnother(AuxTy::Data)], fatal: false }
    } else {
        bibdata_loop(BibtexV { bib_seen: true, ..st }, line, p, fs)
    }
}

/// The argument loop of `\bibdata`.
pub open spec fn bibdata_loop(st: BibtexV, line: Seq<u8>, p: int, fs: FileSetV) -> StepV
    decreases line.len() - p,
{
    if p < 0 || p >= line.len() || line[p] == 125 {
        StepV { st, diags: Seq::empty(), fatal: false }
    } else {
        match arg_scan(line, p, true) {
            ArgScanV::NoBrace => StepV { st, diags: seq![DiagV::NoRightBrace], fatal: false },
            ArgScanV::Whitespace => StepV {
                st,
                diags: seq![DiagV::WhitespaceInArgument],
                fatal: false,
            },
            ArgScanV::StuffAfter => StepV {
                st,
                diags: seq![DiagV::StuffAfterRightBrace],
                fatal: false,
            },
            ArgScanV::Arg { lo, hi } => {
                let arg = line.subrange(lo, hi);
                if contains_seq(st.bib_names, arg) {
                    StepV { st, diags: seq![DiagV::DuplicateBibFile(arg)], fatal: false }
                } else {
                    let st1 = BibtexV { bib_names: st.bib_names.push(arg), ..st };
                    if !openable(fs, FileKind::Bib, arg) {
                        StepV { st: st1, diags: seq![DiagV::CantOpenBibFile(arg)], fatal: false }
                    } else if hi <= p {
                        StepV { st: st1, diags: Seq::empty(), fatal: false }
                    } else {
                        bibdata_loop(
                            BibtexV { bib_files: st1.bib_files.push(arg), ..st1 },
                            line,
                            hi,
                            fs,
                        )
                    }
                }
            },
        }
    }
}

/// `\bibstyle{name}`: refused after an earlier `\bibstyle`; the single
/// argument is recorded as the style, then cleared again if the host cannot
/// open it.
pub open spec fn step_bibstyle(st: BibtexV, line: Seq<u8>, p: int, fs: FileSetV) -> StepV {
    if st.bst_seen {
        StepV { st, diags: seq![DiagV::IllegalAnother(AuxTy::Style)], fatal: false }
    } else {
        let st1 = BibtexV { bst_seen: true, ..st };
        match arg_scan(line, p, false) {
            ArgScanV::NoBrace => StepV { st: st1, diags: seq![DiagV::NoRightBrace], fatal: false },
            ArgScanV::Whitespace => StepV {
                st: st1,
                diags: seq![DiagV::WhitespaceInArgument],
                fatal: false,
            },
            ArgScanV::StuffAfter => StepV {
                st: st1,
                diags: seq![DiagV::StuffAfterRightBrace],
                fatal: false,
            },
            ArgScanV::Arg { lo, hi } => {
                let arg = line.subrange(lo, hi);
                if !openable(fs, FileKind::Bst, arg) {
                    StepV {
                        st: BibtexV { bst_str: None, ..st1 },
                        diags: seq![DiagV::CantOpenStyleFile(arg)],
                        fatal: false,
                    }
                } else {
                    StepV { st: BibtexV { bst_str: Some(arg), ..st1 }, diags: Seq::empty(), fatal: false }
                }
            },
        }
    }
}

/// `\citation{k1,k2,...}`: each key is folded to lowercase; a key whose
/// fold is new is appended to the cite table, a key equal to a recorded one
/// is silently accepted, and a key that collides only after folding is a
/// case-mismatch naming both spellings. A `*` marks the whole database,
/// once.
pub open spec fn step_citation(st: BibtexV, line: Seq<u8>, p: int) -> StepV {
    citation_loop(BibtexV { citation_seen: true, ..st }, line, p)
}

/// The argument loop of `\citation`.
pub open spec fn citation_loop(st: BibtexV, line: Seq<u8>, p: int) -> StepV
    decreases line.len() - p,
{
    if p < 0 || p >= line.len() || line[p] == 125 {
        StepV { st, diags: Seq::empty(), fatal: false }
    } else {
        match arg_scan(line, p, true) {
            ArgScanV::NoBrace => StepV { st, diags: seq![DiagV::NoRightBrace], fatal: false },
            ArgScanV::Whitespace => StepV {
                st,
                diags: seq![DiagV::WhitespaceInArgument],
                fatal: false,
            },
            ArgScanV::StuffAfter => StepV {
                st,
                diags: seq![DiagV::StuffAfterRightBrace],
                fatal: false,
            },
            ArgScanV::Arg { lo, hi } => {
                let arg = line.subrange(lo, hi);
                if hi <= p {
                    StepV { st, diags: Seq::empty(), fatal: false }
                } else if arg == seq![42u8] {
                    if st.all_entries {
                        StepV { st, diags: seq![DiagV::MultipleStarInclusion], fatal: false }
                    } else {
                        citation_loop(
                            BibtexV {
                                all_entries: true,
                                all_marker: Some(st.cites.len() as int),
                                ..st
                            },
                            line,
                            hi,
                        )
                    }
                } else {
                    let lc = lower(arg);
                    let li = lc_index_of(st.cites, lc);
                    if li >= 0 {
                        if !contains_seq(st.cites, arg) {
                            StepV {
                                st,
                                diags: seq![DiagV::CaseMismatch(arg, st.cites[li])],
                                fatal: false,
                            }
                        } else {
                            citation_loop(st, line, hi)
                        }
                    } else {
                        citation_loop(BibtexV { cites: st.cites.push(arg), ..st }, line, hi)
                    }
                }
            },
        }
    }
}

/// `\@input{file.aux}`: push a frame (one past the bound is fatal), demand
/// the auxiliary extension, refuse a file input before, ask the host to
/// open it; only then does the new frame keep its handle and reset its line
/// number.
pub open spec fn step_input(st: BibtexV, line: Seq<u8>, p: int, fs: FileSetV) -> StepV {
    match arg_scan(line, p, false) {
        ArgScanV::NoBrace => StepV { st, diags: seq![DiagV::NoRightBrace], fatal: false },
        ArgScanV::Whitespace => StepV {
            st,
            diags: seq![DiagV::WhitespaceInArgument],
            fatal: false,
        },
        ArgScanV::StuffAfter => StepV {
            st,
            diags: seq![DiagV::StuffAfterRightBrace],
            fatal: false,
        },
        ArgScanV::Arg { lo, hi } => {
            let arg = line.subrange(lo, hi);
            if st.aux.ptr + 1 == AUX_STACK_SIZE {
                StepV {
                    st: BibtexV {
                        aux: AuxDataV { ptr: AUX_STACK_SIZE as int, ..st.aux },
                        ..st
                    },
                    diags: seq![DiagV::StackOverflow],
                    fatal: true,
                }
            } else if !has_suffix(arg, st.aux_ext) {
                StepV { st, diags: seq![DiagV::WrongExtension(arg)], fatal: false }
            } else {
                let listed = BibtexV {
                    aux: AuxDataV { list: st.aux.list.update(st.aux.ptr + 1, arg), ..st.aux },
                    ..st
                };
                if contains_seq(st.aux_names, arg) {
                    StepV { st: listed, diags: seq![DiagV::DuplicateAuxFile(arg)], fatal: false }
                } else {
                    let named = BibtexV { aux_names: listed.aux_names.push(arg), ..listed };
                    if !openable(fs, FileKind::Tex, arg) {
                        StepV { st: named, diags: seq![DiagV::CantOpenAuxFile(arg)], fatal: false }
                    } else {
                        StepV {
                            st: BibtexV {
                                aux: AuxDataV {
                                    ptr: st.aux.ptr + 1,
                                    file: named.aux.file.update(st.aux.ptr + 1, true),
                                    ln: named.aux.ln.update(st.aux.ptr + 1, 0i32),
                                    ..named.aux
                                },
                                ..named
                            },
                            diags: Seq::empty(),
                            fatal: false,
                        }
                    }
                }
            }
        },
    }
}

/// One line of an auxiliary file: the bytes before the first `{` name the
/// command; a line without a brace, or with an unknown command, does
/// nothing.
pub open spec fn step_line(st: BibtexV, line: Seq<u8>, fs: FileSetV) -> StepV {
    let b = find_byte(line, 123);
    if b < 0 || b >= line.len() {
        StepV { st, diags: Seq::empty(), fatal: false }
    } else {
        let cmd = line.take(b);
        if cmd == bibdata_cmd() {
            step_bibdata(st, line, b, fs)
        } else if cmd == bibstyle_cmd() {
            step_bibstyle(st, line, b, fs)
        } else if cmd == citation_cmd() {
            step_citation(st, line, b)
        } else if cmd == input_cmd() {
            step_input(st, line, b, fs)
        } else {
            StepV { st, diags: Seq::empty(), fatal: false }
        }
    }
}

/// The end-of-input check: finalise the counts and name each unmet
/// obligation, in the fixed order the checks run.
pub open spec fn last_check_spec(st: BibtexV) -> StepV {
    let st1 = BibtexV {
        num_cites: st.cites.len() as int,
        num_bib_files: st.bib_files.len() as int,
        ..st
    };
    let d1: Seq<DiagV> = if !st.citation_seen {
        seq![DiagV::MissingCitations]
    } else if st.cites.len() == 0 && !st.all_entries {
        seq![DiagV::NoCiteKeys]
    } else {
        Seq::empty()
    };
    let d2: Seq<DiagV> = if !st.bib_seen {
        seq![DiagV::MissingBibdata]
    } else if st.bib_files.len() == 0 {
        seq![DiagV::NoDatabaseFiles]
    } else {
        Seq::empty()
    };
    let d3: Seq<DiagV> = if !st.bst_seen {
        seq![DiagV::MissingBibstyle]
    } else if st.bst_str is None {
        seq![DiagV::NoStyleFile]
    } else {
        Seq::empty()
    };
    StepV { st: st1, diags: d1 + d2 + d3, fatal: false }
}


// ---------------------------------------------------------------------------
// The executable handlers
// ---------------------------------------------------------------------------

/// Interpret `\bibdata` with its brace at `p`.
pub fn aux_bib_data_command(ctx: &mut Bibtex, line: &[u8], p: usize, fs: &FileSet) -> (r:
    LineOutcome)
    requires
        old(ctx).wf(),
        p < line@.len(),
    ensures
        final(ctx).wf(),
        final(ctx)@ == step_bibdata(old(ctx)@, line@, p as int, fs@).st,
        r.diags.deep_view() == step_bibdata(old(ctx)@, line@, p as int, fs@).diags,
        r.fatal == step_bibdata(old(ctx)@, line@, p as int, fs@).fatal,
{
    broadcast use crate::bytes::lemma_vec_u8_deep_view;

    let ghost goal = step_bibdata(old(ctx)@, line@, p as int, fs@);
    if ctx.bib_seen {
        return outcome1(Diag::IllegalAnother(AuxTy::Data));
    }
    ctx.bib_seen = true;
    proof {
        assert(ctx@ == (BibtexV { bib_seen: true, ..old(ctx)@ }));
        assert(goal == bibdata_loop(ctx@, line@, p as int, fs@));
    }
    let mut cur: usize = p;
    while line[cur] != 125
        invariant
            cur < line@.len(),
            ctx.wf(),
            goal == step_bibdata(old(ctx)@, line@, p as int, fs@),
            goal == bibdata_loop(ctx@, line@, cur as int, fs@),
            ctx.aux == old(ctx).aux,
            ctx@.cites == old(ctx)@.cites,
        decreases line@.len() - cur,
    {
        let lo = cur + 1;
        let q = scan_till(line, lo, true);
        if q == line.len() {
            proof {
                assert(arg_scan(line@, cur as int, true) is NoBrace);
            }
            return outcome1(Diag::NoRightBrace);
        }
        let b = line[q];
        if b == 9 || b == 10 || b == 11 || b == 12 || b == 13 || b == 32 {
            proof {
                assert(arg_scan(line@, cur as int, true) is Whitespace);
            }
            return outcome1(Diag::WhitespaceInArgument);
        }
        if q + 1 < line.len() && b == 125 {
            proof {
                assert(arg_scan(line@, cur as int, true) is StuffAfter);
            }
            return outcome1(Diag::StuffAfterRightBrace);
        }
        proof {
            assert(arg_scan(line@, cur as int, true) == (ArgScanV::Arg {
                lo: cur + 1,
                hi: q as int,
            }));
        }
        let arg = copy_range(line, lo, q);
        if contains_name(&ctx.bib_names, arg.as_slice()) {
            return outcome1(Diag::DuplicateBibFile(arg));
        }
        let ghost pre = ctx@;
        ctx.bib_names.push(copy_bytes(arg.as_slice()));
        proof {
            assert(ctx@.bib_names =~~= pre.bib_names.push(arg@));
            assert(ctx@ == (BibtexV { bib_names: pre.bib_names.push(arg@), ..pre }));
        }
        if !fs.can_open(FileKind::Bib, arg.as_slice()) {
            return outcome1(Diag::CantOpenBibFile(arg));
        }
        let ghost pre2 = ctx@;
        ctx.bib_files.push(arg);
        proof {
            assert(ctx@.bib_files =~~= pre2.bib_files.push(line@.subrange(lo as int, q as int)));
            assert(ctx@ == (BibtexV {
                bib_files: pre2.bib_files.push(line@.subrange(lo as int, q as int)),
                ..pre2
            }));
            assert(goal == bibdata_loop(ctx@, line@, q as int, fs@));
        }
        cur = q;
    }
    proof {
        assert(bibdata_loop(ctx@, line@, cur as int, fs@) == (StepV {
            st: ctx@,
            diags: Seq::<DiagV>::empty(),
            fatal: false,
        }));
    }
    outcome0()
}

/// Interpret `\bibstyle` with its brace at `p`.
pub fn aux_bib_style_command(ctx: &mut Bibtex, line: &[u8], p: usize, fs: &FileSet) -> (r:
    LineOutcome)
    requires
        old(ctx).wf(),
        p < line@.len(),
    ensures
        final(ctx).wf(),
        final(ctx)@ == step_bibstyle(old(ctx)@, line@, p as int, fs@).st,
        r.diags.deep_view() == step_bibstyle(old(ctx)@, line@, p as int, fs@).diags,
        r.fatal == step_bibstyle(old(ctx)@, line@, p as int, fs@).fatal,
{
    broadcast use crate::bytes::lemma_vec_u8_deep_view;

    if ctx.bst_seen {
        return outcome1(Diag::IllegalAnother(AuxTy::Style));
    }
    ctx.bst_seen = true;
    proof {
        assert(ctx@ == (BibtexV { bst_seen: true, ..old(ctx)@ }));
    }
    let llen = line.len();
    assert(p < llen);
    let lo = p + 1;
    let q = scan_till(line, lo, false);
    if q == line.len() {
        proof {
            assert(arg_scan(line@, p as int, false) is NoBrace);
        }
        return outcome1(Diag::NoRightBrace);
    }
    let b = line[q];
    if b == 9 || b == 10 || b == 11 || b == 12 || b == 13 || b == 32 {
        proof {
            assert(arg_scan(line@, p as int, false) is Whitespace);
        }
        return outcome1(Diag::WhitespaceInArgument);
    }
    if q + 1 < line.len() {
        proof {
            assert(line@[q as int] == 125);
            assert(arg_scan(line@, p as int, false) is StuffAfter);
        }
        return outcome1(Diag::StuffAfterRightBrace);
    }
    proof {
        assert(arg_scan(line@, p as int, false) == (ArgScanV::Arg { lo: p + 1, hi: q as int }));
    }
    let arg = copy_range(line, lo, q);
    let ghost pre = ctx@;
    ctx.bst_str = Some(copy_bytes(arg.as_slice()));
    proof {
        assert(ctx@ == (BibtexV { bst_str: Some(arg@), ..pre }));
    }
    if !fs.can_open(FileKind::Bst, arg.as_slice()) {
        let ghost pre2 = ctx@;
        ctx.bst_str = None;
        proof {
            assert(ctx@ == (BibtexV { bst_str: None, ..pre2 }));
        }
        return outcome1(Diag::CantOpenStyleFile(arg));
    }
    outcome0()
}


proof fn lemma_lc_index(cites: Seq<Seq<u8>>, lc: Seq<u8>, j: int)
    requires
        0 <= j <= cites.len(),
        forall|k: int| 0 <= k < j ==> lower(#[trigger] cites[k]) != lc,
    ensures
        j < cites.len() && lower(cites[j]) == lc ==> lc_index_of(cites, lc) == j,
        j == cites.len() ==> lc_index_of(cites, lc) == -1,
    decreases j,
{
    if j > 0 {
        assert(lower(cites[0]) != lc);
        assert(forall|k: int| 0 <= k < j - 1 ==> cites.skip(1)[k] == cites[k + 1]);
        lemma_lc_index(cites.skip(1), lc, j - 1);
        if j < cites.len() {
            assert(cites.skip(1)[j - 1] == cites[j]);
        }
    }
}

proof fn lemma_lc_index_ge(cites: Seq<Seq<u8>>, lc: Seq<u8>)
    ensures
        lc_index_of(cites, lc) >= -1,
    decreases cites.len(),
{
    if cites.len() > 0 && lower(cites[0]) != lc {
        lemma_lc_index_ge(cites.skip(1), lc);
    }
}

proof fn lemma_lc_index_none(cites: Seq<Seq<u8>>, lc: Seq<u8>)
    requires
        lc_index_of(cites, lc) == -1,
    ensures
        forall|k: int| 0 <= k < cites.len() ==> lower(#[trigger] cites[k]) != lc,
    decreases cites.len(),
{
    if cites.len() > 0 {
        assert(lower(cites[0]) != lc);
        lemma_lc_index_ge(cites.skip(1), lc);
        assert(lc_index_of(cites.skip(1), lc) == -1);
        lemma_lc_index_none(cites.skip(1), lc);
        assert(forall|k: int| 1 <= k < cites.len() ==> cites.skip(1)[k - 1] == cites[k]);
    }
}

/// The first cite whose lowercase form is `lc`, if any.
fn find_lc(cites: &Vec<Vec<u8>>, lc: &[u8]) -> (r: Option<usize>)
    ensures
        r is Some ==> r->0 < cites@.len() && lc_index_of(cites.deep_view(), lc@) == r->0,
        r is None ==> lc_index_of(cites.deep_view(), lc@) == -1,
{
    broadcast use crate::bytes::lemma_vec_u8_deep_view;

    let mut j: usize = 0;
    while j < cites.len()
        invariant
            j <= cites@.len(),
            forall|k: int| 0 <= k < j ==> lower(#[trigger] cites.deep_view()[k]) != lc@,
        decreases cites@.len() - j,
    {
        let cl = to_lower_vec(cites[j].as_slice());
        let hit = bytes_eq(cl.as_slice(), lc);
        assert(cites.deep_view()[j as int] == cites@[j as int]@);
        if hit {
            proof {
                lemma_lc_index(cites.deep_view(), lc@, j as int);
            }
            return Some(j);
        }
        j += 1;
    }
    proof {
        lemma_lc_index(cites.deep_view(), lc@, cites@.len() as int);
    }
    None
}

/// Interpret `\citation` with its brace at `p`.
pub fn aux_citation_command(ctx: &mut Bibtex, line: &[u8], p: usize) -> (r: LineOutcome)
    requires
        old(ctx).wf(),
        p < line@.len(),
    ensures
        final(ctx).wf(),
        final(ctx)@ == step_citation(old(ctx)@, line@, p as int).st,
        r.diags.deep_view() == step_citation(old(ctx)@, line@, p as int).diags,
        r.fatal == step_citation(old(ctx)@, line@, p as int).fatal,
{
    broadcast use crate::bytes::lemma_vec_u8_deep_view;

    let ghost goal = step_citation(old(ctx)@, line@, p as int);
    ctx.citation_seen = true;
    proof {
        assert(ctx@ == (BibtexV { citation_seen: true, ..old(ctx)@ }));
        assert(goal == citation_loop(ctx@, line@, p as int));
    }
    let mut cur: usize = p;
    while line[cur] != 125
        invariant
            cur < line@.len(),
            ctx.wf(),
            goal == step_citation(old(ctx)@, line@, p as int),
            goal == citation_loop(ctx@, line@, cur as int),
        decreases line@.len() - cur,
    {
        let lo = cur + 1;
        let q = scan_till(line, lo, true);
        if q == line.len() {
            proof {
                assert(arg_scan(line@, cur as int, true) is NoBrace);
            }
            return outcome1(Diag::NoRightBrace);
        }
        let b = line[q];
        if b == 9 || b == 10 || b == 11 || b == 12 || b == 13 || b == 32 {
            proof {
                assert(arg_scan(line@, cur as int, true) is Whitespace);
            }
            return outcome1(Diag::WhitespaceInArgument);
        }
        if q + 1 < line.len() && b == 125 {
            proof {
                assert(arg_scan(line@, cur as int, true) is StuffAfter);
            }
            return outcome1(Diag::StuffAfterRightBrace);
        }
        proof {
            assert(arg_scan(line@, cur as int, true) == (ArgScanV::Arg {
                lo: cur + 1,
                hi: q as int,
            }));
        }
        let arg = copy_range(line, lo, q);
        if q - lo == 1 && line[lo] == 42 {
            proof {
                assert(arg@ =~= seq![42u8]);
            }
            if ctx.all_entries {
                return outcome1(Diag::MultipleStarInclusion);
            }
            let ghost pre = ctx@;
            let marker = ctx.cites.len();
            ctx.all_entries = true;
            ctx.all_marker = Some(marker);
            proof {
                assert(ctx@ == (BibtexV {
                    all_entries: true,
                    all_marker: Some(pre.cites.len() as int),
                    ..pre
                }));
                assert(goal == citation_loop(ctx@, line@, q as int));
            }
            cur = q;
        } else {
            proof {
                if arg@ == seq![42u8] {
                    assert(arg@.len() == 1 && arg@[0] == 42);
                    assert(false);
                }
            }
            let lc = to_lower_vec(arg.as_slice());
            match find_lc(&ctx.cites, lc.as_slice()) {
                Some(j) => {
                    if !contains_name(&ctx.cites, arg.as_slice()) {
                        let stored = copy_bytes(ctx.cites[j].as_slice());
                        proof {
                            assert(ctx.cites.deep_view()[j as int] == ctx.cites@[j as int]@);
                            assert(stored@ == ctx@.cites[lc_index_of(ctx@.cites, lower(arg@))]);
                        }
                        return outcome1(Diag::CaseMismatch(arg, stored));
                    }
                    proof {
                        assert(goal == citation_loop(ctx@, line@, q as int));
                    }
                    cur = q;
                },
                None => {
                    let ghost pre = ctx@;
                    proof {
                        lemma_lc_index_none(pre.cites, lc@);
                    }
                    ctx.cites.push(arg);
                    proof {
                        assert(ctx@.cites =~~= pre.cites.push(line@.subrange(lo as int, q as int)));
                        assert(ctx@ == (BibtexV {
                            cites: pre.cites.push(line@.subrange(lo as int, q as int)),
                            ..pre
                        }));
                        assert forall|i: int, j2: int| 0 <= i < j2 < ctx@.cites.len() implies lower(
                            #[trigger] ctx@.cites[i],
                        ) != lower(#[trigger] ctx@.cites[j2]) by {
                            if j2 == ctx@.cites.len() - 1 {
                                assert(lower(ctx@.cites[j2]) == lc@);
                                assert(lower(ctx@.cites[i]) != lc@);
                            }
                        }
                        assert(goal == citation_loop(ctx@, line@, q as int));
                    }
                    cur = q;
                },
            }
        }
    }
    proof {
        assert(citation_loop(ctx@, line@, cur as int) == (StepV {
            st: ctx@,
            diags: Seq::<DiagV>::empty(),
            fatal: false,
        }));
    }
    outcome0()
}

/// Interpret `\@input` with its brace at `p`; the cursor must stand below
/// the bound, as it does in any session that has not aborted.
pub fn aux_input_command(ctx: &mut Bibtex, line: &[u8], p: usize, fs: &FileSet) -> (r:
    LineOutcome)
    requires
        old(ctx).wf(),
        p < line@.len(),
        old(ctx)@.aux.ptr < AUX_STACK_SIZE,
    ensures
        final(ctx).wf(),
        final(ctx)@ == step_input(old(ctx)@, line@, p as int, fs@).st,
        r.diags.deep_view() == step_input(old(ctx)@, line@, p as int, fs@).diags,
        r.fatal == step_input(old(ctx)@, line@, p as int, fs@).fatal,
{
    broadcast use crate::bytes::lemma_vec_u8_deep_view;

    let llen = line.len();
    assert(p < llen);
    let lo = p + 1;
    let q = scan_till(line, lo, false);
    if q == line.len() {
        proof {
            assert(arg_scan(line@, p as int, false) is NoBrace);
        }
        return outcome1(Diag::NoRightBrace);
    }
    let b = line[q];
    if b == 9 || b == 10 || b == 11 || b == 12 || b == 13 || b == 32 {
        proof {
            assert(arg_scan(line@, p as int, false) is Whitespace);
        }
        return outcome1(Diag::WhitespaceInArgument);
    }
    if q + 1 < line.len() {
        proof {
            assert(line@[q as int] == 125);
            assert(arg_scan(line@, p as int, false) is StuffAfter);
        }
        return outcome1(Diag::StuffAfterRightBrace);
    }
    proof {
        assert(arg_scan(line@, p as int, false) == (ArgScanV::Arg { lo: p + 1, hi: q as int }));
    }
    let arg = copy_range(line, lo, q);
    let p1 = ctx.aux.ptr();
    ctx.aux.set_ptr(p1 + 1);
    proof {
        assert(ctx@ == (BibtexV {
            aux: AuxDataV { ptr: p1 + 1 as int, ..old(ctx)@.aux },
            ..old(ctx)@
        }));
    }
    if ctx.aux.ptr() == AUX_STACK_SIZE {
        return outcome_fatal(Diag::StackOverflow);
    }
    if !crate::bytes::bytes_has_suffix(arg.as_slice(), ctx.aux_extension.as_slice()) {
        ctx.aux.set_ptr(p1);
        proof {
            assert(ctx@.aux == old(ctx)@.aux);
            assert(ctx@ == old(ctx)@);
        }
        return outcome1(Diag::WrongExtension(arg));
    }
    ctx.aux.set_at_ptr(copy_bytes(arg.as_slice()));
    let ghost listed = BibtexV {
        aux: AuxDataV {
            list: old(ctx)@.aux.list.update(old(ctx)@.aux.ptr + 1, arg@),
            ..old(ctx)@.aux
        },
        ..old(ctx)@
    };
    proof {
        assert(ctx@ == (BibtexV {
            aux: AuxDataV { ptr: p1 + 1 as int, ..listed.aux },
            ..listed
        }));
    }
    if contains_name(&ctx.aux_names, arg.as_slice()) {
        ctx.aux.set_ptr(p1);
        proof {
            assert(ctx@ == listed);
        }
        return outcome1(Diag::DuplicateAuxFile(arg));
    }
    ctx.aux_names.push(copy_bytes(arg.as_slice()));
    let ghost named = BibtexV { aux_names: listed.aux_names.push(arg@), ..listed };
    proof {
        assert(ctx@.aux_names =~~= listed.aux_names.push(arg@));
        assert(ctx@ == (BibtexV { aux: AuxDataV { ptr: p1 + 1 as int, ..named.aux }, ..named }));
    }
    if !fs.can_open(FileKind::Tex, arg.as_slice()) {
        ctx.aux.set_ptr(p1);
        proof {
            assert(ctx@ == named);
        }
        return outcome1(Diag::CantOpenAuxFile(arg));
    }
    ctx.aux.set_file_at_ptr(true);
    ctx.aux.set_ln_at_ptr(0);
    proof {
        assert(ctx@ == (BibtexV {
            aux: AuxDataV {
                ptr: old(ctx)@.aux.ptr + 1,
                file: named.aux.file.update(old(ctx)@.aux.ptr + 1, true),
                ln: named.aux.ln.update(old(ctx)@.aux.ptr + 1, 0i32),
                ..named.aux
            },
            ..named
        }));
    }
    outcome0()
}

/// Read the command before the first `{` of `line` and run its handler; a
/// line without a brace or with an unregistered command does nothing. A
/// session whose stack has hit its bound has aborted and is not fed
/// further lines.
pub fn get_aux_command_and_process(ctx: &mut Bibtex, line: &[u8], fs: &FileSet) -> (r:
    LineOutcome)
    requires
        old(ctx).wf(),
        old(ctx)@.aux.ptr < AUX_STACK_SIZE,
    ensures
        final(ctx).wf(),
        final(ctx)@ == step_line(old(ctx)@, line@, fs@).st,
        r.diags.deep_view() == step_line(old(ctx)@, line@, fs@).diags,
        r.fatal == step_line(old(ctx)@, line@, fs@).fatal,
{
    let mut b: usize = 0;
    while b < line.len() && line[b] != 123
        invariant
            b <= line@.len(),
            forall|k: int| 0 <= k < b ==> line@[k] != 123,
        decreases line@.len() - b,
    {
        b += 1;
    }
    proof {
        crate::index::lemma_find_byte(line@, 123, b as int);
    }
    if b == line.len() {
        return outcome0();
    }
    let cmd = slice_subrange(line, 0, b);
    proof {
        assert(cmd@ =~= line@.take(b as int));
    }
    let c1 = bibdata_cmd_bytes();
    if bytes_eq(cmd, c1.as_slice()) {
        return aux_bib_data_command(ctx, line, b, fs);
    }
    let c2 = bibstyle_cmd_bytes();
    if bytes_eq(cmd, c2.as_slice()) {
        return aux_bib_style_command(ctx, line, b, fs);
    }
    let c3 = citation_cmd_bytes();
    if bytes_eq(cmd, c3.as_slice()) {
        return aux_citation_command(ctx, line, b);
    }
    let c4 = input_cmd_bytes();
    if bytes_eq(cmd, c4.as_slice()) {
        return aux_input_command(ctx, line, b, fs);
    }
    outcome0()
}

/// Run the end-of-input checks: finalise the counts and report each unmet
/// obligation.
pub fn last_check_for_aux_errors(ctx: &mut Bibtex) -> (r: LineOutcome)
    requires
        old(ctx).wf(),
    ensures
        final(ctx).wf(),
        final(ctx)@ == last_check_spec(old(ctx)@).st,
        r.diags.deep_view() == last_check_spec(old(ctx)@).diags,
        r.fatal == false,
{
    broadcast use crate::bytes::lemma_vec_u8_deep_view;

    ctx.num_cites = ctx.cites.len();
    ctx.num_bib_files = ctx.bib_files.len();
    proof {
        assert(ctx@ == last_check_spec(old(ctx)@).st);
    }
    let mut diags: Vec<Diag> = Vec::new();
    if !ctx.citation_seen {
        diags.push(Diag::MissingCitations);
    } else if ctx.cites.len() == 0 && !ctx.all_entries {
        diags.push(Diag::NoCiteKeys);
    }
    if !ctx.bib_seen {
        diags.push(Diag::MissingBibdata);
    } else if ctx.bib_files.len() == 0 {
        diags.push(Diag::NoDatabaseFiles);
    }
    if !ctx.bst_seen {
        diags.push(Diag::MissingBibstyle);
    } else if ctx.bst_str.is_none() {
        diags.push(Diag::NoStyleFile);
    }
    proof {
        assert(diags.deep_view() =~~= last_check_spec(old(ctx)@).diags);
    }
    LineOutcome { diags, fatal: false }
}

} // verus!
