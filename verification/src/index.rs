//! The bundle index: the sorted file table, the search rules, and the
//! name-lookup algorithm with its memoisation cache.

use crate::bytes::{
    bytes_eq, bytes_lt, copy_bytes, has_prefix, has_suffix, is_ws, lex_le, lex_lt,
};
use vstd::multiset::Multiset;
use vstd::prelude::*;
use vstd::slice::slice_subrange;

verus! {

broadcast use vstd::seq_lib::group_to_multiset_ensures;

/// One archived file: offsets and lengths in the bundle, the slash-separated
/// absolute path, the trailing path segment, and the optional content hash.
#[derive(Clone, Debug, PartialEq, Eq)]
pub struct TTBFileInfo {
    pub start: u64,
    pub real_len: u32,
    pub gzip_len: u32,
    pub path: Vec<u8>,
    pub name: Vec<u8>,
    pub hash: Option<Vec<u8>>,
}

/// The mathematical image of a [`TTBFileInfo`].
pub ghost struct FileInfoV {
    pub start: u64,
    pub real_len: u32,
    pub gzip_len: u32,
    pub path: Seq<u8>,
    pub name: Seq<u8>,
    pub hash: Option<Seq<u8>>,
}

impl DeepView for TTBFileInfo {
    type V = FileInfoV;

    open spec fn deep_view(&self) -> FileInfoV {
        FileInfoV {
            start: self.start,
            real_len: self.real_len,
            gzip_len: self.gzip_len,
            path: self.path@,
            name: self.name@,
            hash: match self.hash {
                Some(h) => Some(h@),
                None => None,
            },
        }
    }
}

/// The path ends in `/` followed by the name.
pub open spec fn wf_info(i: FileInfoV) -> bool {
    &&& i.name.len() < i.path.len()
    &&& i.path.subrange(i.path.len() - i.name.len(), i.path.len() as int) == i.name
    &&& i.path[i.path.len() - i.name.len() - 1] == 47
}

/// Adjacent entries are in lexicographic path order.
pub open spec fn sorted_by_path(s: Seq<FileInfoV>) -> bool {
    forall|i: int| 0 <= i < s.len() - 1 ==> lex_le(#[trigger] s[i].path, s[i + 1].path)
}

impl TTBFileInfo {
    /// A fresh copy with the same fields.
    pub fn dup(&self) -> (r: TTBFileInfo)
        ensures
            r.deep_view() == self.deep_view(),
    {
        TTBFileInfo {
            start: self.start,
            real_len: self.real_len,
            gzip_len: self.gzip_len,
            path: copy_bytes(self.path.as_slice()),
            name: copy_bytes(self.name.as_slice()),
            hash: match &self.hash {
                Some(h) => Some(copy_bytes(h.as_slice())),
                None => None,
            },
        }
    }
}

// ---------------------------------------------------------------------------
// Decimal fields
// ---------------------------------------------------------------------------

/// Every byte is an ASCII digit.
pub open spec fn all_digits(s: Seq<u8>) -> bool {
    forall|i: int| 0 <= i < s.len() ==> 48 <= #[trigger] s[i] <= 57
}

/// The value of a digit string, most significant digit first.
pub open spec fn dec_val(s: Seq<u8>) -> int
    decreases s.len(),
{
    if s.len() == 0 {
        0
    } else {
        dec_val(s.drop_last()) * 10 + (s.last() - 48)
    }
}

/// What `u64::from_str` yields on `s`: an optional `+`, then at least one
/// digit, with a value that fits.
pub open spec fn parse_u64_spec(s: Seq<u8>) -> Option<u64> {
    let t = if s.len() > 0 && s[0] == 43 {
        s.skip(1)
    } else {
        s
    };
    if t.len() > 0 && all_digits(t) && dec_val(t) <= u64::MAX {
        Some(dec_val(t) as u64)
    } else {
        None
    }
}

/// What `u32::from_str` yields on `s`.
pub open spec fn parse_u32_spec(s: Seq<u8>) -> Option<u32> {
    match parse_u64_spec(s) {
        Some(v) => if v <= u32::MAX {
            Some(v as u32)
        } else {
            None
        },
        None => None,
    }
}

proof fn lemma_dec_val_nonneg(s: Seq<u8>)
    requires
        all_digits(s),
    ensures
        dec_val(s) >= 0,
    decreases s.len(),
{
    if s.len() > 0 {
        assert(all_digits(s.drop_last()));
        lemma_dec_val_nonneg(s.drop_last());
    }
}

proof fn lemma_dec_val_mono(t: Seq<u8>, j: int)
    requires
        all_digits(t),
        0 <= j <= t.len(),
    ensures
        dec_val(t) >= dec_val(t.take(j)),
    decreases t.len() - j,
{
    if j < t.len() {
        assert(t.take(j + 1).drop_last() =~= t.take(j));
        assert(t.take(j + 1).last() == t[j]);
        assert(all_digits(t.take(j)));
        lemma_dec_val_nonneg(t.take(j));
        assert(dec_val(t.take(j + 1)) == dec_val(t.take(j)) * 10 + (t[j] - 48));
        lemma_dec_val_mono(t, j + 1);
    } else {
        assert(t.take(j) =~= t);
    }
}

/// Parse a decimal `u64` field.
pub fn parse_u64_bytes(s: &[u8]) -> (r: Option<u64>)
    ensures
        r == parse_u64_spec(s@),
{
    let t: &[u8] = if s.len() > 0 && s[0] == 43 {
        slice_subrange(s, 1, s.len())
    } else {
        s
    };
    proof {
        assert(t@ =~= if s@.len() > 0 && s@[0] == 43 {
            s@.skip(1)
        } else {
            s@
        });
    }
    if t.len() == 0 {
        return None;
    }
    let mut acc: u64 = 0;
    let mut i: usize = 0;
    while i < t.len()
        invariant
            0 < t@.len(),
            i <= t@.len(),
            t@ == (if s@.len() > 0 && s@[0] == 43 {
                s@.skip(1)
            } else {
                s@
            }),
            all_digits(t@.take(i as int)),
            acc == dec_val(t@.take(i as int)),
        decreases t.len() - i,
    {
        let b = t[i];
        if b < 48 || b > 57 {
            assert(!all_digits(t@));
            return None;
        }
        proof {
            assert(t@.take(i + 1).drop_last() =~= t@.take(i as int));
            assert(t@.take(i + 1).last() == t@[i as int]);
        }
        let d = (b - 48) as u64;
        match acc.checked_mul(10) {
            Some(m) => match m.checked_add(d) {
                Some(v) => {
                    acc = v;
                },
                None => {
                    proof {
                        assert(dec_val(t@.take(i + 1)) > u64::MAX);
                        if all_digits(t@) {
                            lemma_dec_val_mono(t@, i + 1);
                        }
                    }
                    return None;
                },
            },
            None => {
                proof {
                    assert(dec_val(t@.take(i + 1)) > u64::MAX);
                    if all_digits(t@) {
                        lemma_dec_val_mono(t@, i + 1);
                    }
                }
                return None;
            },
        }
        i += 1;
    }
    proof {
        assert(t@.take(t@.len() as int) =~= t@);
    }
    Some(acc)
}

/// Parse a decimal `u32` field.
pub fn parse_u32_bytes(s: &[u8]) -> (r: Option<u32>)
    ensures
        r == parse_u32_spec(s@),
{
    match parse_u64_bytes(s) {
        Some(v) => if v <= u32::MAX as u64 {
            Some(v as u32)
        } else {
            None
        },
        None => None,
    }
}

// ---------------------------------------------------------------------------
// Splitting into lines and fields
// ---------------------------------------------------------------------------

/// The first index holding `b`, or `-1`.
pub open spec fn find_byte(s: Seq<u8>, b: u8) -> int
    decreases s.len(),
{
    if s.len() == 0 {
        -1
    } else if s[0] == b {
        0
    } else {
        let r = find_byte(s.skip(1), b);
        if r == -1 {
            -1
        } else {
            r + 1
        }
    }
}

pub(crate) proof fn lemma_find_byte(s: Seq<u8>, b: u8, j: int)
    requires
        0 <= j <= s.len(),
        forall|k: int| 0 <= k < j ==> s[k] != b,
    ensures
        j < s.len() && s[j] == b ==> find_byte(s, b) == j,
        j == s.len() ==> find_byte(s, b) == -1,
    decreases j,
{
    if j == 0 {
    } else {
        assert(s[0] != b);
        assert(forall|k: int| 0 <= k < j - 1 ==> s.skip(1)[k] != b);
        lemma_find_byte(s.skip(1), b, j - 1);
        if j < s.len() {
            assert(s.skip(1)[j - 1] == s[j]);
        }
    }
}

/// A line with its trailing carriage return removed.
pub open spec fn strip_cr(l: Seq<u8>) -> Seq<u8> {
    if l.len() > 0 && l.last() == 13 {
        l.drop_last()
    } else {
        l
    }
}

/// The lines of `s`, split at line feeds, each stripped of a carriage
/// return before the line feed; a final fragment without a line feed is a
/// line of its own.
pub open spec fn split_lines(s: Seq<u8>) -> Seq<Seq<u8>>
    decreases s.len(),
{
    if s.len() == 0 {
        Seq::empty()
    } else {
        let i = find_byte(s, 10);
        if 0 <= i < s.len() {
            seq![strip_cr(s.take(i))] + split_lines(s.skip(i + 1))
        } else {
            seq![s]
        }
    }
}

/// Split `data` into lines.
pub fn split_lines_exec(data: &[u8]) -> (r: Vec<Vec<u8>>)
    ensures
        r.deep_view() == split_lines(data@),
{
    broadcast use crate::bytes::lemma_vec_u8_deep_view;

    let mut out: Vec<Vec<u8>> = Vec::new();
    let mut pos: usize = 0;
    proof {
        assert(data@.skip(0) =~= data@);
        assert(out.deep_view() + split_lines(data@) =~= split_lines(data@));
    }
    while pos < data.len()
        invariant
            pos <= data@.len(),
            out.deep_view() + split_lines(data@.skip(pos as int)) == split_lines(data@),
        decreases data.len() + 1 - pos,
    {
        let ghost rest = data@.skip(pos as int);
        let ghost prev = out.deep_view();
        let mut e: usize = pos;
        while e < data.len() && data[e] != 10
            invariant
                pos <= e <= data@.len(),
                forall|k: int| pos <= k < e ==> data@[k] != 10,
            decreases data.len() - e,
        {
            e += 1;
        }
        proof {
            assert(forall|k: int| 0 <= k < e - pos ==> rest[k] != 10);
            lemma_find_byte(rest, 10, e - pos);
        }
        // a carriage return is stripped only before a line feed; a final
        // fragment without one keeps its bytes
        if e < data.len() {
            let line;
            if e > pos && data[e - 1] == 13 {
                line = crate::bytes::copy_range(data, pos, e - 1);
            } else {
                line = crate::bytes::copy_range(data, pos, e);
            }
            proof {
                assert(rest.take(e - pos) =~= data@.subrange(pos as int, e as int));
                assert(strip_cr(rest.take(e - pos)) =~= line@);
                assert(split_lines(rest) =~= seq![line@] + split_lines(rest.skip(e - pos + 1)));
                assert(rest.skip(e - pos + 1) =~= data@.skip(e + 1));
            }
            out.push(line);
            pos = e + 1;
            proof {
                assert(out.deep_view() =~~= prev.push(line@));
                assert(out.deep_view() + split_lines(data@.skip(pos as int)) =~= prev + (
                seq![line@] + split_lines(data@.skip(pos as int))));
                assert(out.deep_view() + split_lines(data@.skip(pos as int)) =~= split_lines(
                    data@,
                ));
            }
        } else {
            let line = crate::bytes::copy_range(data, pos, e);
            proof {
                assert(rest =~= data@.subrange(pos as int, e as int));
                assert(split_lines(rest) =~= seq![line@]);
            }
            out.push(line);
            pos = data.len();
            proof {
                assert(data@.skip(pos as int).len() == 0);
                assert(split_lines(data@.skip(pos as int)) =~= Seq::<Seq<u8>>::empty());
                assert(out.deep_view() =~~= prev.push(line@));
                assert(out.deep_view() + split_lines(data@.skip(pos as int)) =~= prev + seq![
                    line@,
                ]);
                assert(out.deep_view() + split_lines(data@.skip(pos as int)) =~= split_lines(
                    data@,
                ));
            }
        }
    }
    proof {
        assert(data@.skip(pos as int).len() == 0);
        assert(split_lines(data@.skip(pos as int)) =~= Seq::<Seq<u8>>::empty());
        assert(out.deep_view() =~= out.deep_view() + split_lines(data@.skip(pos as int)));
    }
    out
}

/// The index of the first whitespace byte, or the length.
pub open spec fn find_ws(l: Seq<u8>) -> int
    decreases l.len(),
{
    if l.len() == 0 {
        0
    } else if is_ws(l[0]) {
        0
    } else {
        1 + find_ws(l.skip(1))
    }
}

proof fn lemma_find_ws(l: Seq<u8>, j: int)
    requires
        0 <= j <= l.len(),
        forall|k: int| 0 <= k < j ==> !is_ws(l[k]),
    ensures
        j < l.len() && is_ws(l[j]) ==> find_ws(l) == j,
        j == l.len() ==> find_ws(l) == l.len(),
    decreases j,
{
    if j > 0 {
        assert(!is_ws(l[0]));
        assert(forall|k: int| 0 <= k < j - 1 ==> !is_ws(l.skip(1)[k]));
        lemma_find_ws(l.skip(1), j - 1);
        if j < l.len() {
            assert(l.skip(1)[j - 1] == l[j]);
        }
    }
}

/// The whitespace-separated fields of `l`.
pub open spec fn split_ws(l: Seq<u8>) -> Seq<Seq<u8>>
    decreases l.len(),
{
    if l.len() == 0 {
        Seq::empty()
    } else if is_ws(l[0]) {
        split_ws(l.skip(1))
    } else {
        let e = find_ws(l);
        if 1 <= e <= l.len() {
            seq![l.take(e)] + split_ws(l.skip(e))
        } else {
            seq![l]
        }
    }
}

proof fn lemma_find_ws_pos(l: Seq<u8>)
    ensures
        0 <= find_ws(l) <= l.len(),
        l.len() > 0 && !is_ws(l[0]) ==> find_ws(l) >= 1,
    decreases l.len(),
{
    if l.len() > 0 && !is_ws(l[0]) {
        lemma_find_ws_pos(l.skip(1));
    }
}

/// Split `l` into whitespace-separated fields.
pub fn split_ws_exec(l: &[u8]) -> (r: Vec<Vec<u8>>)
    ensures
        r.deep_view() == split_ws(l@),
{
    broadcast use crate::bytes::lemma_vec_u8_deep_view;

    let mut out: Vec<Vec<u8>> = Vec::new();
    let mut pos: usize = 0;
    proof {
        assert(l@.skip(0) =~= l@);
        assert(out.deep_view() + split_ws(l@) =~= split_ws(l@));
    }
    while pos < l.len()
        invariant
            pos <= l@.len(),
            out.deep_view() + split_ws(l@.skip(pos as int)) == split_ws(l@),
        decreases l.len() - pos,
    {
        let ghost rest = l@.skip(pos as int);
        let ghost prev = out.deep_view();
        let b = l[pos];
        if b == 9 || b == 10 || b == 11 || b == 12 || b == 13 || b == 32 {
            proof {
                assert(is_ws(rest[0]));
                assert(rest.skip(1) =~= l@.skip(pos + 1));
                assert(split_ws(rest) == split_ws(rest.skip(1)));
                assert(out.deep_view() + split_ws(l@.skip(pos + 1)) =~= split_ws(l@));
            }
            pos += 1;
        } else {
            let mut e: usize = pos;
            while e < l.len() && !(l[e] == 9 || l[e] == 10 || l[e] == 11 || l[e] == 12 || l[e]
                == 13 || l[e] == 32)
                invariant
                    pos <= e <= l@.len(),
                    forall|k: int| pos <= k < e ==> !is_ws(l@[k]),
                decreases l.len() - e,
            {
                e += 1;
            }
            proof {
                assert(forall|k: int| 0 <= k < e - pos ==> !is_ws(rest[k]));
                lemma_find_ws(rest, e - pos);
                lemma_find_ws_pos(rest);
                assert(find_ws(rest) == e - pos);
            }
            let field = crate::bytes::copy_range(l, pos, e);
            proof {
                assert(!is_ws(rest[0]));
                assert(rest.take(e - pos) =~= field@);
                assert(split_ws(rest) == seq![rest.take(e - pos)] + split_ws(rest.skip(e - pos)));
                assert(rest.skip(e - pos) =~= l@.skip(e as int));
            }
            out.push(field);
            proof {
                assert(out.deep_view() =~~= prev.push(field@));
                assert(out.deep_view() + split_ws(l@.skip(e as int)) =~= prev + (seq![field@]
                    + split_ws(l@.skip(e as int))));
                assert(out.deep_view() + split_ws(l@.skip(e as int)) =~= split_ws(l@));
            }
            pos = e;
        }
    }
    proof {
        assert(l@.skip(pos as int).len() == 0);
        assert(split_ws(l@.skip(pos as int)) =~= Seq::<Seq<u8>>::empty());
        assert(out.deep_view() =~= split_ws(l@));
    }
    out
}


// ---------------------------------------------------------------------------
// FILELIST lines and sections
// ---------------------------------------------------------------------------

/// The last index holding `/`, or `-1`.
pub open spec fn find_last_slash(s: Seq<u8>) -> int
    decreases s.len(),
{
    if s.len() == 0 {
        -1
    } else if s.last() == 47 {
        s.len() - 1
    } else {
        find_last_slash(s.drop_last())
    }
}

proof fn lemma_find_last_slash(s: Seq<u8>, j: int)
    requires
        0 <= j <= s.len(),
        forall|m: int| j <= m < s.len() ==> s[m] != 47,
    ensures
        find_last_slash(s) == find_last_slash(s.take(j)),
    decreases s.len() - j,
{
    if j < s.len() {
        lemma_find_last_slash(s, j + 1);
        assert(s.take(j + 1).last() == s[j]);
        assert(s.take(j + 1).drop_last() =~= s.take(j));
    } else {
        assert(s.take(j) =~= s);
    }
}

proof fn lemma_find_last_slash_at(s: Seq<u8>)
    ensures
        find_last_slash(s) >= 0 ==> find_last_slash(s) < s.len() && s[find_last_slash(s)] == 47,
    decreases s.len(),
{
    if s.len() > 0 && s.last() != 47 {
        lemma_find_last_slash_at(s.drop_last());
    }
}

/// The last index of `/` in `s`, if any.
pub fn find_last_slash_exec(s: &[u8]) -> (r: Option<usize>)
    ensures
        r is Some ==> r->0 == find_last_slash(s@) && r->0 < s@.len(),
        r is None ==> find_last_slash(s@) == -1,
{
    let mut i: usize = s.len();
    while i > 0
        invariant
            i <= s@.len(),
            forall|m: int| i <= m < s@.len() ==> s@[m] != 47,
        decreases i,
    {
        if s[i - 1] == 47 {
            proof {
                lemma_find_last_slash(s@, i as int);
                assert(s@.take(i as int).last() == s@[i - 1]);
            }
            return Some(i - 1);
        }
        i -= 1;
    }
    proof {
        lemma_find_last_slash(s@, 0);
        assert(s@.take(0).len() == 0);
    }
    None
}

/// The ASCII bytes of `FILELIST`.
pub open spec fn filelist_name() -> Seq<u8> {
    seq![70u8, 73, 76, 69, 76, 73, 83, 84]
}

/// The ASCII bytes of `SEARCH:MAIN`.
pub open spec fn searchmain_name() -> Seq<u8> {
    seq![83u8, 69, 65, 82, 67, 72, 58, 77, 65, 73, 78]
}

/// The ASCII bytes of `nohash`.
pub open spec fn nohash_name() -> Seq<u8> {
    seq![110u8, 111, 104, 97, 115, 104]
}

fn filelist_bytes() -> (r: Vec<u8>)
    ensures
        r@ == filelist_name(),
{
    let mut v: Vec<u8> = Vec::new();
    v.push(70);
    v.push(73);
    v.push(76);
    v.push(69);
    v.push(76);
    v.push(73);
    v.push(83);
    v.push(84);
    assert(v@ =~= filelist_name());
    v
}

fn searchmain_bytes() -> (r: Vec<u8>)
    ensures
        r@ == searchmain_name(),
{
    let mut v: Vec<u8> = Vec::new();
    v.push(83);
    v.push(69);
    v.push(65);
    v.push(82);
    v.push(67);
    v.push(72);
    v.push(58);
    v.push(77);
    v.push(65);
    v.push(73);
    v.push(78);
    assert(v@ =~= searchmain_name());
    v
}

fn nohash_bytes() -> (r: Vec<u8>)
    ensures
        r@ == nohash_name(),
{
    let mut v: Vec<u8> = Vec::new();
    v.push(110);
    v.push(111);
    v.push(104);
    v.push(97);
    v.push(115);
    v.push(104);
    assert(v@ =~= nohash_name());
    v
}

/// Which section the parser is inside.
#[derive(Clone, Copy)]
pub enum Mode {
    NoMode,
    Filelist,
    SearchMain,
    OtherSection,
}

/// The section a bracketed line switches to: the bytes between the first
/// and last byte of the line name the section.
pub open spec fn mode_of_line(l: Seq<u8>) -> Mode {
    let nm = if l.len() >= 2 {
        l.subrange(1, l.len() - 1)
    } else {
        Seq::<u8>::empty()
    };
    if nm == filelist_name() {
        Mode::Filelist
    } else if nm == searchmain_name() {
        Mode::SearchMain
    } else {
        Mode::OtherSection
    }
}

/// What one `FILELIST` row means: five whitespace-separated fields holding
/// the start offset, the two lengths, a path with at least one slash, and a
/// hash, where `nohash` stands for none. Anything else is malformed.
pub open spec fn parse_filelist_line(l: Seq<u8>) -> Option<FileInfoV> {
    let f = split_ws(l);
    if f.len() == 5 {
        let st = parse_u64_spec(f[0]);
        let gz = parse_u32_spec(f[1]);
        let rl = parse_u32_spec(f[2]);
        let sl = find_last_slash(f[3]);
        if st is Some && gz is Some && rl is Some && sl >= 0 {
            Some(
                FileInfoV {
                    start: st->0,
                    gzip_len: gz->0,
                    real_len: rl->0,
                    path: f[3],
                    name: f[3].skip(sl + 1),
                    hash: if f[4] == nohash_name() {
                        None
                    } else {
                        Some(f[4])
                    },
                },
            )
        } else {
            None
        }
    } else {
        None
    }
}

/// Parse one `FILELIST` row.
fn parse_filelist_exec(l: &[u8]) -> (r: Option<TTBFileInfo>)
    ensures
        r is Some <==> parse_filelist_line(l@) is Some,
        r is Some ==> r->0.deep_view() == parse_filelist_line(l@)->0,
        r is Some ==> wf_info(r->0.deep_view()),
{
    broadcast use crate::bytes::lemma_vec_u8_deep_view;

    let fields = split_ws_exec(l);
    if fields.len() != 5 {
        return None;
    }
    proof {
        assert(fields.deep_view()[0] == fields@[0]@);
        assert(fields.deep_view()[1] == fields@[1]@);
        assert(fields.deep_view()[2] == fields@[2]@);
        assert(fields.deep_view()[3] == fields@[3]@);
        assert(fields.deep_view()[4] == fields@[4]@);
    }
    let st = parse_u64_bytes(fields[0].as_slice());
    let gz = parse_u32_bytes(fields[1].as_slice());
    let rl = parse_u32_bytes(fields[2].as_slice());
    let sl = find_last_slash_exec(fields[3].as_slice());
    if st.is_none() || gz.is_none() || rl.is_none() || sl.is_none() {
        return None;
    }
    let start = st.unwrap();
    let gzip_len = gz.unwrap();
    let real_len = rl.unwrap();
    let slash = sl.unwrap();
    let flen = fields[3].len();
    assert(slash < fields@[3]@.len());
    let path = copy_bytes(fields[3].as_slice());
    let name = crate::bytes::copy_range(fields[3].as_slice(), slash + 1, flen);
    let nh = nohash_bytes();
    let hash = if bytes_eq(fields[4].as_slice(), nh.as_slice()) {
        None
    } else {
        Some(copy_bytes(fields[4].as_slice()))
    };
    let info = TTBFileInfo { start, real_len, gzip_len, path, name, hash };
    proof {
        let fv = parse_filelist_line(l@)->0;
        lemma_find_last_slash_at(fields@[3]@);
        assert(info.deep_view().name =~= fv.name);
        assert(info.deep_view() == fv);
        assert(info.deep_view().path.subrange(
            info.deep_view().path.len() - info.deep_view().name.len(),
            info.deep_view().path.len() as int,
        ) =~= info.deep_view().name);
        assert(wf_info(info.deep_view()));
    }
    Some(info)
}

/// The content rows and search rules of an index body, or nothing when a
/// `FILELIST` row is malformed.
pub ghost struct ParsedIndex {
    pub content: Seq<FileInfoV>,
    pub rules: Seq<Seq<u8>>,
}

/// Fold the lines of the index body in order: bracketed lines switch
/// sections, `FILELIST` rows append files, non-empty `SEARCH:MAIN` rows
/// append rules, and lines outside a known section are dropped.
pub open spec fn parse_lines(
    lines: Seq<Seq<u8>>,
    mode: Mode,
    content: Seq<FileInfoV>,
    rules: Seq<Seq<u8>>,
) -> Option<ParsedIndex>
    decreases lines.len(),
{
    if lines.len() == 0 {
        Some(ParsedIndex { content, rules })
    } else {
        let l = lines[0];
        if l.len() >= 1 && l[0] == 91 {
            parse_lines(lines.skip(1), mode_of_line(l), content, rules)
        } else {
            match mode {
                Mode::NoMode => parse_lines(lines.skip(1), mode, content, rules),
                Mode::OtherSection => parse_lines(lines.skip(1), mode, content, rules),
                Mode::Filelist => match parse_filelist_line(l) {
                    Some(fi) => parse_lines(lines.skip(1), mode, content.push(fi), rules),
                    None => None,
                },
                Mode::SearchMain => if l.len() > 0 {
                    parse_lines(lines.skip(1), mode, content, rules.push(l))
                } else {
                    parse_lines(lines.skip(1), mode, content, rules)
                },
            }
        }
    }
}

/// What an index body means.
pub open spec fn index_parse(data: Seq<u8>) -> Option<ParsedIndex> {
    parse_lines(split_lines(data), Mode::NoMode, Seq::empty(), Seq::empty())
}

// ---------------------------------------------------------------------------
// Lexicographic order lemmas and sorting
// ---------------------------------------------------------------------------

pub proof fn lemma_lex_le_refl(a: Seq<u8>)
    ensures
        lex_le(a, a),
    decreases a.len(),
{
    if a.len() > 0 {
        lemma_lex_le_refl(a.skip(1));
    }
}

pub proof fn lemma_lex_le_total(a: Seq<u8>, b: Seq<u8>)
    ensures
        lex_le(a, b) || lex_le(b, a),
    decreases a.len(),
{
    if a.len() > 0 && b.len() > 0 && a[0] == b[0] {
        lemma_lex_le_total(a.skip(1), b.skip(1));
    }
}

pub proof fn lemma_lex_le_trans(a: Seq<u8>, b: Seq<u8>, c: Seq<u8>)
    requires
        lex_le(a, b),
        lex_le(b, c),
    ensures
        lex_le(a, c),
    decreases a.len(),
{
    if a.len() > 0 {
        if a[0] == b[0] && b[0] == c[0] {
            lemma_lex_le_trans(a.skip(1), b.skip(1), c.skip(1));
        }
    }
}

/// Order the entries by path, keeping the multiset of entries.
fn sort_by_path_exec(v: Vec<TTBFileInfo>) -> (r: Vec<TTBFileInfo>)
    ensures
        r.deep_view().to_multiset() == v.deep_view().to_multiset(),
        sorted_by_path(r.deep_view()),
        forall|i: int| 0 <= i < r.deep_view().len() ==> v.deep_view().contains(
            #[trigger] r.deep_view()[i],
        ),
{
    let mut src = v;
    let mut out: Vec<TTBFileInfo> = Vec::new();
    proof {
        assert(out.deep_view().len() == 0);
        assert(out.deep_view().to_multiset() =~= Multiset::<FileInfoV>::empty());
        assert(out.deep_view().to_multiset().add(src.deep_view().to_multiset()) =~= v.deep_view()
            .to_multiset());
        assert(forall|k: int|
            0 <= k < src.deep_view().len() ==> v.deep_view().contains(#[trigger] src.deep_view()[k]));
    }
    while src.len() > 0
        invariant
            out.deep_view().to_multiset().add(src.deep_view().to_multiset()) == v.deep_view()
                .to_multiset(),
            sorted_by_path(out.deep_view()),
            forall|a: int, b: int|
                0 <= a < out.deep_view().len() && 0 <= b < src.deep_view().len() ==> lex_le(
                    #[trigger] out.deep_view()[a].path,
                    #[trigger] src.deep_view()[b].path,
                ),
            forall|k: int|
                0 <= k < src.deep_view().len() ==> v.deep_view().contains(
                    #[trigger] src.deep_view()[k],
                ),
            forall|k: int|
                0 <= k < out.deep_view().len() ==> v.deep_view().contains(
                    #[trigger] out.deep_view()[k],
                ),
        decreases src.len(),
    {
        let mut mi: usize = 0;
        let mut j: usize = 1;
        proof {
            lemma_lex_le_refl(src.deep_view()[0].path);
        }
        while j < src.len()
            invariant
                src.len() > 0,
                mi < j <= src.len(),
                forall|k: int|
                    0 <= k < j ==> lex_le(
                        src.deep_view()[mi as int].path,
                        #[trigger] src.deep_view()[k].path,
                    ),
            decreases src.len() - j,
        {
            if bytes_lt(src[j].path.as_slice(), src[mi].path.as_slice()) {
                proof {
                    let sj = src.deep_view()[j as int].path;
                    let sm = src.deep_view()[mi as int].path;
                    assert forall|k: int| 0 <= k < j + 1 implies lex_le(
                        sj,
                        #[trigger] src.deep_view()[k].path,
                    ) by {
                        if k < j {
                            lemma_lex_le_trans(sj, sm, src.deep_view()[k].path);
                        } else {
                            lemma_lex_le_refl(sj);
                        }
                    }
                }
                mi = j;
            } else {
                proof {
                    let sj = src.deep_view()[j as int].path;
                    let sm = src.deep_view()[mi as int].path;
                    lemma_lex_le_total(sm, sj);
                    if !lex_le(sm, sj) {
                        assert(lex_le(sj, sm) && sj != sm);
                        assert(false);
                    }
                }
            }
            j += 1;
        }
        let ghost pre_src = src.deep_view();
        let ghost pre_out = out.deep_view();
        let m = src.remove(mi);
        out.push(m);
        proof {
            assert(src.deep_view() =~= pre_src.remove(mi as int));
            assert(out.deep_view() =~= pre_out.push(pre_src[mi as int]));
            assert(out.deep_view().to_multiset().add(src.deep_view().to_multiset()) =~= v
                .deep_view().to_multiset());
            assert(forall|a: int|
                0 <= a < out.deep_view().len() - 1 ==> lex_le(
                    #[trigger] out.deep_view()[a].path,
                    out.deep_view()[out.deep_view().len() - 1].path,
                ));
            assert(sorted_by_path(out.deep_view()));
        }
    }
    proof {
        assert(src.deep_view().to_multiset() =~= Multiset::<FileInfoV>::empty());
        assert(out.deep_view().to_multiset() =~= out.deep_view().to_multiset().add(src.deep_view()
            .to_multiset()));
    }
    out
}


// ---------------------------------------------------------------------------
// The search algorithm, as a mathematical function
// ---------------------------------------------------------------------------

/// The longest prefix of `content` whose entries all carry `leaf` as name.
pub open spec fn run_prefix(content: Seq<FileInfoV>, leaf: Seq<u8>) -> Seq<FileInfoV>
    decreases content.len(),
{
    if content.len() == 0 {
        Seq::empty()
    } else if content[0].name == leaf {
        seq![content[0]] + run_prefix(content.skip(1), leaf)
    } else {
        Seq::empty()
    }
}

/// The entries of the first maximal run of `leaf`-named entries: the scan
/// stops at the first non-match after a match.
pub open spec fn first_run(content: Seq<FileInfoV>, leaf: Seq<u8>) -> Seq<FileInfoV>
    decreases content.len(),
{
    if content.len() == 0 {
        Seq::empty()
    } else if content[0].name == leaf {
        seq![content[0]] + run_prefix(content.skip(1), leaf)
    } else {
        first_run(content.skip(1), leaf)
    }
}

/// The entries whose path ends with `name`, in order.
pub open spec fn suffix_filter(infos: Seq<FileInfoV>, name: Seq<u8>) -> Seq<FileInfoV>
    decreases infos.len(),
{
    if infos.len() == 0 {
        Seq::empty()
    } else {
        suffix_filter(infos.drop_last(), name) + (if has_suffix(infos.last().path, name) {
            seq![infos.last()]
        } else {
            Seq::empty()
        })
    }
}

/// Whether a search rule admits an entry: a rule ending in `//` is a prefix
/// match on the path with one trailing slash cut off; any other rule must
/// equal the whole parent directory, trailing slash included.
pub open spec fn rule_matches(rule: Seq<u8>, info: FileInfoV, name: Seq<u8>) -> bool {
    if rule.len() >= 2 && rule[rule.len() - 1] == 47 && rule[rule.len() - 2] == 47 {
        has_prefix(info.path, rule.take(rule.len() - 1))
    } else {
        info.path.take(info.path.len() - name.len()) == rule
    }
}

/// The entries a single rule admits, in order.
pub open spec fn rule_filter(rule: Seq<u8>, infos: Seq<FileInfoV>, name: Seq<u8>) -> Seq<
    FileInfoV,
>
    decreases infos.len(),
{
    if infos.len() == 0 {
        Seq::empty()
    } else {
        rule_filter(rule, infos.drop_last(), name) + (if rule_matches(rule, infos.last(), name) {
            seq![infos.last()]
        } else {
            Seq::empty()
        })
    }
}

/// What the first rule that admits anything admits: earlier rules preempt
/// later ones.
pub open spec fn picked_rules(rules: Seq<Seq<u8>>, infos: Seq<FileInfoV>, name: Seq<u8>) -> Seq<
    FileInfoV,
>
    decreases rules.len(),
{
    if rules.len() == 0 {
        Seq::empty()
    } else {
        let p = rule_filter(rules[0], infos, name);
        if p.len() > 0 {
            p
        } else {
            picked_rules(rules.skip(1), infos, name)
        }
    }
}

/// The earliest entry with the lexicographically least path.
pub open spec fn min_by_path(s: Seq<FileInfoV>) -> FileInfoV
    decreases s.len(),
{
    if s.len() <= 1 {
        s[0]
    } else {
        let m = min_by_path(s.drop_last());
        if lex_lt(s.last().path, m.path) {
            s.last()
        } else {
            m
        }
    }
}

/// What a lookup of `name` yields. A name with a slash must match the path
/// suffix of exactly one entry of the collected run; a bare name goes
/// through the search rules in order, and within the winning rule the least
/// path wins.
pub open spec fn search_spec(
    content: Seq<FileInfoV>,
    rules: Seq<Seq<u8>>,
    name: Seq<u8>,
) -> Option<FileInfoV> {
    let fls = find_last_slash(name);
    let leaf = if fls >= 0 {
        name.skip(fls + 1)
    } else {
        name
    };
    let infos = first_run(content, leaf);
    if fls >= 0 {
        let m = suffix_filter(infos, name);
        if m.len() == 1 {
            Some(m[0])
        } else {
            None
        }
    } else {
        let p = picked_rules(rules, infos, name);
        if p.len() == 0 {
            None
        } else {
            Some(min_by_path(p))
        }
    }
}

// ---------------------------------------------------------------------------
// The index structure
// ---------------------------------------------------------------------------

/// Why an index body was rejected.
#[derive(Clone, Copy, Debug, PartialEq, Eq, Structural)]
pub enum IndexError {
    /// A `FILELIST` row did not have the required shape.
    Malformed,
}

/// One memoised lookup.
pub struct CacheEntry {
    pub query: Vec<u8>,
    pub result: Option<TTBFileInfo>,
}

/// The file table (sorted by path once initialised), the search rules in
/// file order, and the memoisation cache of past lookups.
pub struct TTBFileIndex {
    pub content: Vec<TTBFileInfo>,
    pub search: Vec<Vec<u8>>,
    pub search_cache: Vec<CacheEntry>,
}

impl TTBFileIndex {
    /// Every entry is well formed, the table is sorted by path, and every
    /// cached lookup agrees with what a fresh search would yield.
    pub open spec fn wf(self) -> bool {
        &&& forall|i: int|
            0 <= i < self.content.deep_view().len() ==> wf_info(
                #[trigger] self.content.deep_view()[i],
            )
        &&& sorted_by_path(self.content.deep_view())
        &&& forall|k: int|
            0 <= k < self.search_cache@.len() ==> (
            #[trigger] self.search_cache@[k].result).deep_view() == search_spec(
                self.content.deep_view(),
                self.search.deep_view(),
                self.search_cache@[k].query@,
            )
    }

    /// An empty index.
    pub fn new() -> (r: Self)
        ensures
            r.wf(),
            r.content@.len() == 0,
            r.search@.len() == 0,
            r.search_cache@.len() == 0,
    {
        TTBFileIndex { content: Vec::new(), search: Vec::new(), search_cache: Vec::new() }
    }

    /// How many files the index holds.
    pub fn len(&self) -> (r: usize)
        ensures
            r == self.content@.len(),
    {
        self.content.len()
    }

    /// Parse a decompressed index body: afterwards the table holds exactly
    /// the `FILELIST` rows sorted by path, the rules the non-empty
    /// `SEARCH:MAIN` rows in order, and the cache is empty. A malformed row
    /// rejects the body and leaves the index empty.
    pub fn initialize(&mut self, data: &[u8]) -> (r: Result<(), IndexError>)
        ensures
            final(self).wf(),
            final(self).search_cache@.len() == 0,
            r is Ok <==> index_parse(data@) is Some,
            r is Ok ==> final(self).search.deep_view() == index_parse(data@)->0.rules,
            r is Ok ==> final(self).content.deep_view().to_multiset() == index_parse(
                data@,
            )->0.content.to_multiset(),
            r is Ok ==> sorted_by_path(final(self).content.deep_view()),
            r is Err ==> final(self).content@.len() == 0 && final(self).search@.len() == 0,
    {
        broadcast use crate::bytes::lemma_vec_u8_deep_view;

        let lines = split_lines_exec(data);
        let mut content: Vec<TTBFileInfo> = Vec::new();
        let mut rules: Vec<Vec<u8>> = Vec::new();
        let mut mode = Mode::NoMode;
        let fl = filelist_bytes();
        let sm = searchmain_bytes();
        let mut i: usize = 0;
        proof {
            assert(lines.deep_view().skip(0) =~= lines.deep_view());
            assert(content.deep_view() =~= Seq::<FileInfoV>::empty());
            assert(rules.deep_view() =~= Seq::<Seq<u8>>::empty());
        }
        while i < lines.len()
            invariant
                i <= lines@.len(),
                lines.deep_view() == split_lines(data@),
                fl@ == filelist_name(),
                sm@ == searchmain_name(),
                parse_lines(
                    lines.deep_view().skip(i as int),
                    mode,
                    content.deep_view(),
                    rules.deep_view(),
                ) == index_parse(data@),
                forall|k: int|
                    0 <= k < content.deep_view().len() ==> wf_info(
                        #[trigger] content.deep_view()[k],
                    ),
            decreases lines.len() - i,
        {
            let ghost rest = lines.deep_view().skip(i as int);
            let ghost pre_c = content.deep_view();
            let ghost pre_r = rules.deep_view();
            let ghost pre_m = mode;
            let l = &lines[i];
            proof {
                assert(rest[0] == lines.deep_view()[i as int]);
                assert(lines.deep_view()[i as int] == lines@[i as int]@);
                assert(rest.skip(1) =~= lines.deep_view().skip(i + 1));
            }
            if l.len() >= 1 && l[0] == 91 {
                let nm: Vec<u8> = if l.len() >= 2 {
                    crate::bytes::copy_range(l.as_slice(), 1, l.len() - 1)
                } else {
                    Vec::new()
                };
                proof {
                    assert(nm@ =~= (if l@.len() >= 2 {
                        l@.subrange(1, l@.len() - 1)
                    } else {
                        Seq::<u8>::empty()
                    }));
                }
                if bytes_eq(nm.as_slice(), fl.as_slice()) {
                    mode = Mode::Filelist;
                } else if bytes_eq(nm.as_slice(), sm.as_slice()) {
                    mode = Mode::SearchMain;
                } else {
                    mode = Mode::OtherSection;
                }
                proof {
                    assert(mode == mode_of_line(rest[0]));
                    assert(parse_lines(rest, pre_m, pre_c, pre_r) == parse_lines(
                        rest.skip(1),
                        mode,
                        pre_c,
                        pre_r,
                    ));
                }
            } else {
                match mode {
                    Mode::NoMode => {
                        proof {
                            assert(parse_lines(rest, pre_m, pre_c, pre_r) == parse_lines(
                                rest.skip(1),
                                pre_m,
                                pre_c,
                                pre_r,
                            ));
                        }
                    },
                    Mode::OtherSection => {
                        proof {
                            assert(parse_lines(rest, pre_m, pre_c, pre_r) == parse_lines(
                                rest.skip(1),
                                pre_m,
                                pre_c,
                                pre_r,
                            ));
                        }
                    },
                    Mode::Filelist => {
                        match parse_filelist_exec(l.as_slice()) {
                            Some(fi) => {
                                let ghost fiv = fi.deep_view();
                                content.push(fi);
                                proof {
                                    assert(content.deep_view() =~= pre_c.push(fiv));
                                    assert(parse_lines(rest, pre_m, pre_c, pre_r) == parse_lines(
                                        rest.skip(1),
                                        pre_m,
                                        pre_c.push(fiv),
                                        pre_r,
                                    ));
                                }
                            },
                            None => {
                                proof {
                                    assert(parse_lines(rest, pre_m, pre_c, pre_r) is None);
                                }
                                self.content = Vec::new();
                                self.search = Vec::new();
                                self.search_cache = Vec::new();
                                return Err(IndexError::Malformed);
                            },
                        }
                    },
                    Mode::SearchMain => {
                        if l.len() > 0 {
                            let cp = copy_bytes(l.as_slice());
                            rules.push(cp);
                            proof {
                                assert(rules.deep_view() =~~= pre_r.push(rest[0]));
                                assert(parse_lines(rest, pre_m, pre_c, pre_r) == parse_lines(
                                    rest.skip(1),
                                    pre_m,
                                    pre_c,
                                    pre_r.push(rest[0]),
                                ));
                            }
                        } else {
                            proof {
                                assert(parse_lines(rest, pre_m, pre_c, pre_r) == parse_lines(
                                    rest.skip(1),
                                    pre_m,
                                    pre_c,
                                    pre_r,
                                ));
                            }
                        }
                    },
                }
            }
            i += 1;
        }
        proof {
            assert(lines.deep_view().skip(i as int).len() == 0);
            assert(parse_lines(
                lines.deep_view().skip(i as int),
                mode,
                content.deep_view(),
                rules.deep_view(),
            ) == Some(ParsedIndex { content: content.deep_view(), rules: rules.deep_view() }));
        }
        let sorted = sort_by_path_exec(content);
        self.content = sorted;
        self.search = rules;
        self.search_cache = Vec::new();
        Ok(())
    }
}


// ---------------------------------------------------------------------------
// The executable search
// ---------------------------------------------------------------------------

proof fn lemma_suffix_filter_mono(s: Seq<FileInfoV>, name: Seq<u8>, j: int)
    requires
        0 <= j <= s.len(),
    ensures
        suffix_filter(s, name).len() >= suffix_filter(s.take(j), name).len(),
    decreases s.len() - j,
{
    if j < s.len() {
        assert(s.take(j + 1).drop_last() =~= s.take(j));
        assert(s.take(j + 1).last() == s[j]);
        lemma_suffix_filter_mono(s, name, j + 1);
    } else {
        assert(s.take(j) =~= s);
    }
}

/// A fresh copy of a memoised result.
fn clone_result(r: &Option<TTBFileInfo>) -> (c: Option<TTBFileInfo>)
    ensures
        c.deep_view() == r.deep_view(),
{
    match r {
        Some(i) => Some(i.dup()),
        None => None,
    }
}

impl TTBFileIndex {
    /// Resolve `name`: split off its leaf, scan the sorted table for the
    /// first run of entries with that leaf name, then disambiguate by path
    /// suffix (parent-qualified names) or by the search rules (bare names).
    /// The outcome is memoised; the table and the rules are left untouched.
    pub fn search(&mut self, name: &[u8]) -> (r: Option<TTBFileInfo>)
        requires
            old(self).wf(),
        ensures
            final(self).wf(),
            final(self).content == old(self).content,
            final(self).search == old(self).search,
            r.deep_view() == search_spec(
                old(self).content.deep_view(),
                old(self).search.deep_view(),
                name@,
            ),
    {
        broadcast use crate::bytes::lemma_vec_u8_deep_view;

        let ghost c0 = old(self).content.deep_view();
        let ghost r0 = old(self).search.deep_view();

        // a memoised outcome is returned as it was recorded
        let mut ci: usize = 0;
        while ci < self.search_cache.len()
            invariant
                ci <= self.search_cache@.len(),
                *self == *old(self),
                old(self).wf(),
                c0 == old(self).content.deep_view(),
                r0 == old(self).search.deep_view(),
            decreases self.search_cache@.len() - ci,
        {
            if bytes_eq(self.search_cache[ci].query.as_slice(), name) {
                let res = clone_result(&self.search_cache[ci].result);
                return res;
            }
            ci += 1;
        }

        // split the query at its last slash, if any
        let fls = find_last_slash_exec(name);
        let nlen = name.len();
        let leaf: Vec<u8> = match fls {
            Some(k) => crate::bytes::copy_range(name, k + 1, nlen),
            None => copy_bytes(name),
        };
        let ghost lf = if find_last_slash(name@) >= 0 {
            name@.skip(find_last_slash(name@) + 1)
        } else {
            name@
        };
        proof {
            assert(leaf@ =~= lf);
        }

        // collect the first run of entries named like the leaf
        let mut infos: Vec<TTBFileInfo> = Vec::new();
        let mut idx: usize = 0;
        let mut done: bool = false;
        proof {
            assert(c0.skip(0) =~= c0);
            assert(infos.deep_view() =~= Seq::<FileInfoV>::empty());
        }
        while idx < self.content.len() && !done
            invariant
                idx <= self.content@.len(),
                *self == *old(self),
                old(self).wf(),
                c0 == old(self).content.deep_view(),
                r0 == old(self).search.deep_view(),
                leaf@ == lf,
                !done && infos.deep_view().len() == 0 ==> first_run(c0, lf) == first_run(
                    c0.skip(idx as int),
                    lf,
                ),
                !done && infos.deep_view().len() > 0 ==> first_run(c0, lf) == infos.deep_view()
                    + run_prefix(c0.skip(idx as int), lf),
                done ==> first_run(c0, lf) == infos.deep_view(),
                forall|k: int|
                    0 <= k < infos.deep_view().len() ==> (#[trigger] infos.deep_view()[k]).name
                        == lf && wf_info(infos.deep_view()[k]),
            decreases self.content@.len() - idx + (if done { 0int } else { 1int }),
        {
            let ghost pre = infos.deep_view();
            proof {
                assert(c0.skip(idx as int)[0] == c0[idx as int]);
                assert(c0.skip(idx as int).skip(1) =~= c0.skip(idx + 1));
            }
            if bytes_eq(self.content[idx].name.as_slice(), leaf.as_slice()) {
                let e = self.content[idx].dup();
                infos.push(e);
                proof {
                    assert(infos.deep_view() =~= pre.push(c0[idx as int]));
                    if pre.len() == 0 {
                        assert(first_run(c0.skip(idx as int), lf) == seq![c0[idx as int]]
                            + run_prefix(c0.skip(idx + 1), lf));
                        assert(first_run(c0, lf) =~= infos.deep_view() + run_prefix(
                            c0.skip(idx + 1),
                            lf,
                        ));
                    } else {
                        assert(run_prefix(c0.skip(idx as int), lf) == seq![c0[idx as int]]
                            + run_prefix(c0.skip(idx + 1), lf));
                        assert(pre + (seq![c0[idx as int]] + run_prefix(c0.skip(idx + 1), lf))
                            =~= infos.deep_view() + run_prefix(c0.skip(idx + 1), lf));
                    }
                }
                idx += 1;
            } else if infos.len() != 0 {
                proof {
                    assert(run_prefix(c0.skip(idx as int), lf) =~= Seq::<FileInfoV>::empty());
                    assert(infos.deep_view() + run_prefix(c0.skip(idx as int), lf) =~= infos
                        .deep_view());
                }
                done = true;
            } else {
                proof {
                    assert(first_run(c0.skip(idx as int), lf) == first_run(c0.skip(idx + 1), lf));
                }
                idx += 1;
            }
        }
        proof {
            if !done && infos.deep_view().len() == 0 {
                assert(c0.skip(idx as int).len() == 0);
                assert(first_run(c0.skip(idx as int), lf) == Seq::<FileInfoV>::empty());
                assert(first_run(c0, lf) =~= infos.deep_view());
            }
            if !done && infos.deep_view().len() > 0 {
                assert(c0.skip(idx as int).len() == 0);
                assert(run_prefix(c0.skip(idx as int), lf) == Seq::<FileInfoV>::empty());
                assert(first_run(c0, lf) =~= infos.deep_view());
            }
            assert(first_run(c0, lf) == infos.deep_view());
        }
        let ghost iv = infos.deep_view();

        if fls.is_some() {
            // a parent-qualified name must be the path suffix of exactly one
            // collected entry; misses and ambiguities are not memoised
            let mut found: Option<usize> = None;
            let mut j: usize = 0;
            proof {
                assert(suffix_filter(iv.take(0), name@) =~= Seq::<FileInfoV>::empty());
            }
            while j < infos.len()
                invariant
                    j <= iv.len(),
                    iv == infos.deep_view(),
                    *self == *old(self),
                    old(self).wf(),
                    c0 == old(self).content.deep_view(),
                    r0 == old(self).search.deep_view(),
                    first_run(c0, lf) == iv,
                    find_last_slash(name@) >= 0,
                    lf == name@.skip(find_last_slash(name@) + 1),
                    found is None ==> suffix_filter(iv.take(j as int), name@) == Seq::<
                        FileInfoV,
                    >::empty(),
                    found is Some ==> found->0 < j && suffix_filter(iv.take(j as int), name@)
                        == seq![iv[found->0 as int]],
                decreases iv.len() - j,
            {
                proof {
                    assert(iv.take(j + 1).drop_last() =~= iv.take(j as int));
                    assert(iv.take(j + 1).last() == iv[j as int]);
                }
                if crate::bytes::bytes_has_suffix(infos[j].path.as_slice(), name) {
                    if found.is_some() {
                        proof {
                            assert(suffix_filter(iv.take(j + 1), name@).len() == 2);
                            lemma_suffix_filter_mono(iv, name@, j + 1);
                            assert(suffix_filter(iv, name@).len() >= 2);
                        }
                        return None;
                    }
                    found = Some(j);
                    proof {
                        assert(suffix_filter(iv.take(j + 1), name@) =~= seq![iv[j as int]]);
                    }
                } else {
                    proof {
                        assert(suffix_filter(iv.take(j + 1), name@) =~= suffix_filter(
                            iv.take(j as int),
                            name@,
                        ));
                    }
                }
                j += 1;
            }
            proof {
                assert(iv.take(iv.len() as int) =~= iv);
            }
            match found {
                None => {
                    proof {
                        assert(suffix_filter(iv, name@).len() == 0);
                    }
                    None
                },
                Some(fi) => {
                    let res = infos[fi].dup();
                    let entry = CacheEntry { query: copy_bytes(name), result: Some(res) };
                    let ghost pre_cache = self.search_cache@;
                    self.search_cache.push(entry);
                    proof {
                        assert(suffix_filter(iv, name@) == seq![iv[fi as int]]);
                        assert(search_spec(c0, r0, name@) == Some(iv[fi as int]));
                        assert(forall|k: int|
                            0 <= k < pre_cache.len() ==> self.search_cache@[k] == pre_cache[k]);
                    }
                    let out = infos[fi].dup();
                    Some(out)
                },
            }
        } else {
            // a bare name goes through the rules in order; the first rule
            // that admits anything wins, and the least path wins within it
            proof {
                assert(lf == name@);
            }
            let mut picked: Vec<TTBFileInfo> = Vec::new();
            let mut ri: usize = 0;
            proof {
                assert(r0.skip(0) =~= r0);
            }
            while ri < self.search.len() && picked.len() == 0
                invariant
                    ri <= r0.len(),
                    iv == infos.deep_view(),
                    *self == *old(self),
                    old(self).wf(),
                    c0 == old(self).content.deep_view(),
                    r0 == old(self).search.deep_view(),
                    first_run(c0, lf) == iv,
                    find_last_slash(name@) == -1,
                    lf == name@,
                    forall|k: int|
                        0 <= k < iv.len() ==> (#[trigger] iv[k]).name == lf && wf_info(iv[k]),
                    picked.deep_view().len() == 0 ==> picked_rules(r0, iv, name@) == picked_rules(
                        r0.skip(ri as int),
                        iv,
                        name@,
                    ),
                    picked.deep_view().len() > 0 ==> picked_rules(r0, iv, name@) == picked
                        .deep_view(),
                decreases r0.len() - ri,
            {
                let ghost rl = r0[ri as int];
                proof {
                    assert(self.search@[ri as int]@ == r0[ri as int]);
                    assert(r0.skip(ri as int)[0] == r0[ri as int]);
                    assert(r0.skip(ri as int).skip(1) =~= r0.skip(ri + 1));
                    assert(picked.deep_view() =~= Seq::<FileInfoV>::empty());
                    assert(iv.take(0) =~= Seq::<FileInfoV>::empty());
                    assert(rule_filter(rl, iv.take(0), name@) =~= Seq::<FileInfoV>::empty());
                }
                let mut j: usize = 0;
                while j < infos.len()
                    invariant
                        j <= iv.len(),
                        iv == infos.deep_view(),
                        *self == *old(self),
                        old(self).wf(),
                        r0 == old(self).search.deep_view(),
                        ri < r0.len(),
                        rl == r0[ri as int],
                        self.search@[ri as int]@ == rl,
                        lf == name@,
                        forall|k: int|
                            0 <= k < iv.len() ==> (#[trigger] iv[k]).name == lf && wf_info(iv[k]),
                        picked.deep_view() == rule_filter(rl, iv.take(j as int), name@),
                    decreases iv.len() - j,
                {
                    proof {
                        assert(iv.take(j + 1).drop_last() =~= iv.take(j as int));
                        assert(iv.take(j + 1).last() == iv[j as int]);
                    }
                    let ghost pre_p = picked.deep_view();
                    let rule = &self.search[ri];
                    let rlen = rule.len();
                    let hit;
                    if rlen >= 2 && rule[rlen - 1] == 47 && rule[rlen - 2] == 47 {
                        hit = crate::bytes::bytes_has_prefix(
                            infos[j].path.as_slice(),
                            slice_subrange(rule.as_slice(), 0, rlen - 1),
                        );
                        proof {
                            assert(rl.take(rlen - 1) =~= rule@.subrange(0, rlen - 1));
                            assert(hit == rule_matches(rl, iv[j as int], name@));
                        }
                    } else {
                        proof {
                            assert(wf_info(iv[j as int]));
                            assert(iv[j as int].name == name@);
                            assert(name@.len() < iv[j as int].path.len());
                            assert(infos@[j as int].path@.len() > name@.len());
                        }
                        let plen = infos[j].path.len();
                        hit = bytes_eq(
                            slice_subrange(infos[j].path.as_slice(), 0, plen - name.len()),
                            rule.as_slice(),
                        );
                        proof {
                            assert(iv[j as int].path.take(iv[j as int].path.len() - name@.len())
                                =~= infos@[j as int].path@.subrange(0, plen - name@.len()));
                            assert(hit == rule_matches(rl, iv[j as int], name@));
                        }
                    }
                    if hit {
                        let e = infos[j].dup();
                        picked.push(e);
                        proof {
                            assert(picked.deep_view() =~= pre_p.push(iv[j as int]));
                            assert(rule_filter(rl, iv.take(j + 1), name@) =~= pre_p.push(
                                iv[j as int],
                            ));
                        }
                    } else {
                        proof {
                            assert(rule_filter(rl, iv.take(j + 1), name@) =~= pre_p);
                        }
                    }
                    j += 1;
                }
                proof {
                    assert(iv.take(iv.len() as int) =~= iv);
                    assert(picked.deep_view() == rule_filter(rl, iv, name@));
                    if picked.deep_view().len() > 0 {
                        assert(picked_rules(r0.skip(ri as int), iv, name@) == rule_filter(
                            rl,
                            iv,
                            name@,
                        ));
                    } else {
                        assert(picked_rules(r0.skip(ri as int), iv, name@) == picked_rules(
                            r0.skip(ri + 1),
                            iv,
                            name@,
                        ));
                    }
                }
                ri += 1;
            }
            proof {
                if picked.deep_view().len() == 0 {
                    assert(ri == r0.len());
                    assert(r0.skip(ri as int).len() == 0);
                    assert(picked_rules(r0.skip(ri as int), iv, name@) == Seq::<
                        FileInfoV,
                    >::empty());
                    assert(picked_rules(r0, iv, name@).len() == 0);
                }
            }
            if picked.len() == 0 {
                let entry = CacheEntry { query: copy_bytes(name), result: None };
                let ghost pre_cache = self.search_cache@;
                self.search_cache.push(entry);
                proof {
                    assert(search_spec(c0, r0, name@) is None);
                    assert(forall|k: int|
                        0 <= k < pre_cache.len() ==> self.search_cache@[k] == pre_cache[k]);
                }
                None
            } else {
                let ghost pv = picked.deep_view();
                let mut mi: usize = 0;
                let mut j: usize = 1;
                proof {
                    assert(pv.take(1).len() == 1);
                    assert(pv.take(1)[0] == pv[0]);
                    assert(min_by_path(pv.take(1)) == pv[0]);
                }
                while j < picked.len()
                    invariant
                        1 <= j <= pv.len(),
                        mi < j,
                        pv == picked.deep_view(),
                        pv[mi as int] == min_by_path(pv.take(j as int)),
                    decreases pv.len() - j,
                {
                    proof {
                        assert(pv.take(j + 1).drop_last() =~= pv.take(j as int));
                        assert(pv.take(j + 1).last() == pv[j as int]);
                    }
                    if bytes_lt(picked[j].path.as_slice(), picked[mi].path.as_slice()) {
                        mi = j;
                    }
                    j += 1;
                }
                proof {
                    assert(pv.take(pv.len() as int) =~= pv);
                    assert(pv[mi as int] == min_by_path(pv));
                }
                let res = picked[mi].dup();
                let entry = CacheEntry { query: copy_bytes(name), result: Some(res) };
                let ghost pre_cache = self.search_cache@;
                self.search_cache.push(entry);
                proof {
                    assert(search_spec(c0, r0, name@) == Some(min_by_path(pv)));
                    assert(forall|k: int|
                        0 <= k < pre_cache.len() ==> self.search_cache@[k] == pre_cache[k]);
                }
                let out = picked[mi].dup();
                Some(out)
            }
        }
    }
}

} // verus!
