//! The general laws of the two cores, stated and proved once over the
//! specification functions that the executable contracts use.

use crate::auxdata::AUX_STACK_SIZE;
use crate::bytes::{has_suffix, lex_le, lex_lt, lower};
use crate::header::{header_ok, le32_at, le64_at, sig_ok, signature};
use crate::index::{
    find_last_slash, first_run, lemma_lex_le_refl, lemma_lex_le_total, lemma_lex_le_trans,
    min_by_path, picked_rules, rule_filter, search_spec, suffix_filter, FileInfoV,
};
use crate::interp::{
    arg_scan, bibdata_loop, citation_loop, contains_seq, last_check_spec, lc_index_of, openable,
    scan_end, step_bibdata, step_input, ArgScanV, AuxTy, BibtexV, DiagV, FileKind, FileSetV,
    StepV,
};
use vstd::prelude::*;

verus! {

/// The scanner never moves backwards.
pub proof fn lemma_scan_end_ge(line: Seq<u8>, i: int, comma: bool)
    requires
        0 <= i <= line.len(),
    ensures
        scan_end(line, i, comma) >= i,
    decreases line.len() - i,
{
    if i < line.len() && !crate::interp::stop_char(line[i], comma) {
        lemma_scan_end_ge(line, i + 1, comma);
    }
}

/// Every 70-byte prefix that encodes a header under the TTB v1 convention
/// is accepted, and the parsed fields are exactly the encoded ones: the
/// offset and the two lengths from their little-endian bytes, the digest
/// bits verbatim.
pub proof fn lemma_header_round_trip(
    s: Seq<u8>,
    start: u64,
    gz: u32,
    rl: u32,
    digest: Seq<u8>,
)
    requires
        s.len() >= 70,
        s.subrange(0, 14) == signature(),
        le64_at(s, 14) == 1,
        le64_at(s, 22) == start,
        le32_at(s, 30) == gz,
        le32_at(s, 34) == rl,
        s.subrange(38, 70) == digest,
    ensures
        header_ok(s),
        forall|h: crate::header::TTBv1Header|
            #[trigger] h.parsed_from(s) ==> h.index_start == start && h.index_gzip_len == gz
                && h.index_real_len == rl && h.digest@ == digest,
{
}

/// A prefix whose first 14 bytes differ from the signature, or whose
/// version is not 1, is never a valid header.
pub proof fn lemma_signature_rejection(s: Seq<u8>)
    requires
        s.subrange(0, 14) != signature() || le64_at(s, 14) != 1,
    ensures
        !header_ok(s),
{
}

/// The earliest rule that admits any candidate decides the search: what it
/// admits is what later rules never see.
pub proof fn lemma_rule_priority(
    rules: Seq<Seq<u8>>,
    infos: Seq<FileInfoV>,
    name: Seq<u8>,
    k: int,
)
    requires
        0 <= k < rules.len(),
        forall|j: int| 0 <= j < k ==> rule_filter(#[trigger] rules[j], infos, name).len() == 0,
        rule_filter(rules[k], infos, name).len() > 0,
    ensures
        picked_rules(rules, infos, name) == rule_filter(rules[k], infos, name),
    decreases k,
{
    if k > 0 {
        assert(rule_filter(rules[0], infos, name).len() == 0);
        assert(forall|j: int|
            0 <= j < k - 1 ==> rules.skip(1)[j] == #[trigger] rules[j + 1]);
        lemma_rule_priority(rules.skip(1), infos, name, k - 1);
        assert(rules.skip(1)[k - 1] == rules[k]);
    }
}

/// The entry the tie-break picks is one of the candidates, and no
/// candidate's path precedes its path.
pub proof fn lemma_min_by_path(s: Seq<FileInfoV>)
    requires
        s.len() > 0,
    ensures
        s.contains(min_by_path(s)),
        forall|i: int| 0 <= i < s.len() ==> lex_le(min_by_path(s).path, #[trigger] s[i].path),
    decreases s.len(),
{
    if s.len() == 1 {
        lemma_lex_le_refl(s[0].path);
        assert(s.contains(s[0]));
    } else {
        lemma_min_by_path(s.drop_last());
        let m = min_by_path(s.drop_last());
        let lst = s.last();
        assert(forall|i: int| 0 <= i < s.len() - 1 ==> s.drop_last()[i] == #[trigger] s[i]);
        if lex_lt(lst.path, m.path) {
            assert(min_by_path(s) == lst);
            assert forall|i: int| 0 <= i < s.len() implies lex_le(
                min_by_path(s).path,
                #[trigger] s[i].path,
            ) by {
                if i < s.len() - 1 {
                    lemma_lex_le_trans(lst.path, m.path, s[i].path);
                } else {
                    lemma_lex_le_refl(lst.path);
                }
            }
            assert(s[s.len() - 1] == lst);
            assert(s.contains(lst));
        } else {
            assert(min_by_path(s) == m);
            lemma_lex_le_total(lst.path, m.path);
            if !lex_le(m.path, lst.path) {
                assert(lex_le(lst.path, m.path) && lst.path != m.path);
                assert(false);
            }
            assert forall|i: int| 0 <= i < s.len() implies lex_le(
                min_by_path(s).path,
                #[trigger] s[i].path,
            ) by {
                if i == s.len() - 1 {
                    assert(lex_le(m.path, lst.path));
                }
            }
            let j = choose|j: int| 0 <= j < s.drop_last().len() && s.drop_last()[j] == m;
            assert(s[j] == m);
            assert(s.contains(m));
        }
    }
}

/// Within the winning rule the candidate with the lexicographically least
/// path is returned: the alphabetic tie-break.
pub proof fn lemma_alphabetic_tie_break(c: Seq<FileInfoV>, ru: Seq<Seq<u8>>, name: Seq<u8>)
    requires
        find_last_slash(name) == -1,
        picked_rules(ru, first_run(c, name), name).len() > 0,
    ensures
        ({
            let p = picked_rules(ru, first_run(c, name), name);
            search_spec(c, ru, name) == Some(min_by_path(p)) && p.contains(min_by_path(p))
                && forall|i: int|
                0 <= i < p.len() ==> lex_le(min_by_path(p).path, #[trigger] p[i].path)
        }),
{
    let p = picked_rules(ru, first_run(c, name), name);
    lemma_min_by_path(p);
}

/// Every entry the suffix filter keeps carries the queried suffix and was
/// among the candidates.
pub proof fn lemma_suffix_filter_elems(infos: Seq<FileInfoV>, name: Seq<u8>)
    ensures
        forall|i: int|
            0 <= i < suffix_filter(infos, name).len() ==> has_suffix(
                (#[trigger] suffix_filter(infos, name)[i]).path,
                name,
            ) && infos.contains(suffix_filter(infos, name)[i]),
    decreases infos.len(),
{
    if infos.len() > 0 {
        lemma_suffix_filter_elems(infos.drop_last(), name);
        assert(forall|i: int|
            0 <= i < infos.len() - 1 ==> infos.drop_last()[i] == #[trigger] infos[i]);
        assert forall|i: int| 0 <= i < suffix_filter(infos, name).len() implies has_suffix(
            (#[trigger] suffix_filter(infos, name)[i]).path,
            name,
        ) && infos.contains(suffix_filter(infos, name)[i]) by {
            let pre = suffix_filter(infos.drop_last(), name);
            if i < pre.len() {
                assert(suffix_filter(infos, name)[i] == pre[i]);
                let j = choose|j: int|
                    0 <= j < infos.drop_last().len() && infos.drop_last()[j] == pre[i];
                assert(infos[j] == pre[i]);
            } else {
                assert(suffix_filter(infos, name)[i] == infos.last());
                assert(infos[infos.len() - 1] == infos.last());
            }
        }
    }
}

/// A parent-qualified query answers with the unique candidate whose path
/// ends in the query, and misses when none or more than one does.
pub proof fn lemma_parent_qualified_unique(c: Seq<FileInfoV>, ru: Seq<Seq<u8>>, name: Seq<u8>)
    requires
        find_last_slash(name) >= 0,
    ensures
        ({
            let infos = first_run(c, name.skip(find_last_slash(name) + 1));
            let m = suffix_filter(infos, name);
            (search_spec(c, ru, name) is Some <==> m.len() == 1) && (m.len() == 1
                ==> search_spec(c, ru, name) == Some(m[0]) && has_suffix(m[0].path, name))
        }),
{
    let infos = first_run(c, name.skip(find_last_slash(name) + 1));
    lemma_suffix_filter_elems(infos, name);
}

/// Pushing the auxiliary stack past its bound is fatal: an `\@input` whose
/// argument scans cleanly, issued with the stack one frame short of the
/// bound, aborts with the overflow diagnostic.
pub proof fn lemma_aux_stack_overflow(st: BibtexV, line: Seq<u8>, p: int, fs: FileSetV)
    requires
        arg_scan(line, p, false) is Arg,
        st.aux.ptr + 1 == AUX_STACK_SIZE,
    ensures
        step_input(st, line, p, fs).fatal,
        step_input(st, line, p, fs).diags == seq![DiagV::StackOverflow],
        step_input(st, line, p, fs).st.aux.ptr == AUX_STACK_SIZE,
{
}

/// Below the bound, a clean `\@input` of an openable, properly suffixed,
/// fresh file succeeds: the cursor moves up one frame, the frame holds the
/// file's name with an open handle at line zero, and nothing is reported.
pub proof fn lemma_aux_stack_push(st: BibtexV, line: Seq<u8>, p: int, fs: FileSetV)
    requires
        0 <= p,
        0 <= st.aux.ptr,
        arg_scan(line, p, false) matches ArgScanV::Arg { lo, hi },
        st.aux.ptr + 1 < AUX_STACK_SIZE,
        has_suffix(line.subrange(arg_scan(line, p, false)->lo, arg_scan(line, p, false)->hi),
            st.aux_ext),
        !contains_seq(st.aux_names, line.subrange(arg_scan(line, p, false)->lo,
            arg_scan(line, p, false)->hi)),
        openable(fs, FileKind::Tex, line.subrange(arg_scan(line, p, false)->lo,
            arg_scan(line, p, false)->hi)),
    ensures
        !step_input(st, line, p, fs).fatal,
        step_input(st, line, p, fs).diags == Seq::<DiagV>::empty(),
        step_input(st, line, p, fs).st.aux.ptr == st.aux.ptr + 1,
        st.aux.ptr + 1 < st.aux.list.len() ==> step_input(st, line, p, fs).st.aux.list[st.aux.ptr
            + 1] == line.subrange(arg_scan(line, p, false)->lo, arg_scan(line, p, false)->hi),
        st.aux.ptr + 1 < st.aux.file.len() ==> step_input(st, line, p, fs).st.aux.file[st.aux.ptr
            + 1],
        st.aux.ptr + 1 < st.aux.ln.len() ==> step_input(st, line, p, fs).st.aux.ln[st.aux.ptr + 1]
            == 0i32,
{
}

/// A second `\bibdata` in one session is refused outright with the
/// illegal-another diagnostic and changes nothing.
pub proof fn lemma_second_bibdata(st: BibtexV, line: Seq<u8>, p: int, fs: FileSetV)
    requires
        st.bib_seen,
    ensures
        step_bibdata(st, line, p, fs) == (StepV {
            st,
            diags: seq![DiagV::IllegalAnother(AuxTy::Data)],
            fatal: false,
        }),
{
}

/// A database file named a second time within one session is a recoverable
/// duplicate: the line is abandoned and the file list does not grow.
pub proof fn lemma_duplicate_bib_file(st: BibtexV, line: Seq<u8>, p: int, fs: FileSetV)
    requires
        0 <= p < line.len(),
        line[p] != 125,
        arg_scan(line, p, true) matches ArgScanV::Arg { lo, hi },
        contains_seq(st.bib_names, line.subrange(arg_scan(line, p, true)->lo,
            arg_scan(line, p, true)->hi)),
    ensures
        bibdata_loop(st, line, p, fs) == (StepV {
            st,
            diags: seq![DiagV::DuplicateBibFile(line.subrange(arg_scan(line, p, true)->lo,
            arg_scan(line, p, true)->hi))],
            fatal: false,
        }),
{
}

/// An auxiliary file input a second time is a recoverable duplicate: the
/// pushed frame is taken back and the cursor stands where it stood.
pub proof fn lemma_duplicate_aux_file(st: BibtexV, line: Seq<u8>, p: int, fs: FileSetV)
    requires
        arg_scan(line, p, false) matches ArgScanV::Arg { lo, hi },
        st.aux.ptr + 1 != AUX_STACK_SIZE,
        has_suffix(line.subrange(arg_scan(line, p, false)->lo, arg_scan(line, p, false)->hi),
            st.aux_ext),
        contains_seq(st.aux_names, line.subrange(arg_scan(line, p, false)->lo,
            arg_scan(line, p, false)->hi)),
    ensures
        !step_input(st, line, p, fs).fatal,
        step_input(st, line, p, fs).diags == seq![DiagV::DuplicateAuxFile(line.subrange(
            arg_scan(line, p, false)->lo,
            arg_scan(line, p, false)->hi,
        ))],
        step_input(st, line, p, fs).st.aux.ptr == st.aux.ptr,
        step_input(st, line, p, fs).st.aux_names == st.aux_names,
{
}

/// A cite key that collides with a recorded key only after ASCII folding
/// is reported as a case mismatch naming both spellings, and the cite
/// table is left as it was.
pub proof fn lemma_case_mismatch(st: BibtexV, line: Seq<u8>, p: int)
    requires
        0 <= p < line.len(),
        line[p] != 125,
        arg_scan(line, p, true) matches ArgScanV::Arg { lo, hi },
        line.subrange(arg_scan(line, p, true)->lo, arg_scan(line, p, true)->hi) != seq![42u8],
        lc_index_of(st.cites, lower(line.subrange(arg_scan(line, p, true)->lo,
            arg_scan(line, p, true)->hi))) >= 0,
        !contains_seq(st.cites, line.subrange(arg_scan(line, p, true)->lo,
            arg_scan(line, p, true)->hi)),
    ensures
        ({
            let arg = line.subrange(arg_scan(line, p, true)->lo, arg_scan(line, p, true)->hi);
            citation_loop(st, line, p) == (StepV {
                st,
                diags: seq![DiagV::CaseMismatch(arg, st.cites[lc_index_of(st.cites, lower(arg))])],
                fatal: false,
            })
        }),
{
    let lo = arg_scan(line, p, true)->lo;
    lemma_scan_end_ge(line, p + 1, true);
}

/// A second `\citation{*}` in one session reports a multiple inclusion and
/// leaves the whole-database flag set.
pub proof fn lemma_multiple_star(st: BibtexV, line: Seq<u8>, p: int)
    requires
        0 <= p < line.len(),
        line[p] != 125,
        arg_scan(line, p, true) matches ArgScanV::Arg { lo, hi },
        line.subrange(arg_scan(line, p, true)->lo, arg_scan(line, p, true)->hi) == seq![42u8],
        st.all_entries,
    ensures
        citation_loop(st, line, p) == (StepV {
            st,
            diags: seq![DiagV::MultipleStarInclusion],
            fatal: false,
        }),
        citation_loop(st, line, p).st.all_entries,
{
    lemma_scan_end_ge(line, p + 1, true);
}

/// A session that saw none of the three commands ends with exactly the
/// three missing-command diagnostics, and its final counts are the sizes
/// of its (empty) tables.
pub proof fn lemma_end_check_empty(st: BibtexV)
    requires
        !st.citation_seen,
        !st.bib_seen,
        !st.bst_seen,
    ensures
        last_check_spec(st).diags =~= seq![
            DiagV::MissingCitations,
            DiagV::MissingBibdata,
            DiagV::MissingBibstyle,
        ],
        last_check_spec(st).st.num_cites == st.cites.len(),
        last_check_spec(st).st.num_bib_files == st.bib_files.len(),
        !last_check_spec(st).fatal,
{
}


/// A memoised lookup answers exactly as a fresh search over the same table
/// and rules would: searching one name repeatedly yields one result.
pub proof fn lemma_search_idempotent(idx: crate::index::TTBFileIndex, k: int)
    requires
        idx.wf(),
        0 <= k < idx.search_cache@.len(),
    ensures
        idx.search_cache@[k].result.deep_view() == search_spec(
            idx.content.deep_view(),
            idx.search.deep_view(),
            idx.search_cache@[k].query@,
        ),
{
}

} // verus!
