use ttb_aux::auxdata::{cur_aux_file, cur_aux_ln, pop_the_aux_stack, reset, set_cur_aux_ln,
    AuxData, AUX_STACK_SIZE};
use ttb_aux::interp::{get_aux_command_and_process, last_check_for_aux_errors, AuxTy, Bibtex,
    Diag, FileKind, FileSet};

fn fs_with(bibs: &[&str], bsts: &[&str], texs: &[&str]) -> FileSet {
    let mut fs = FileSet::new();
    for b in bibs {
        fs.allow(FileKind::Bib, b.as_bytes().to_vec());
    }
    for b in bsts {
        fs.allow(FileKind::Bst, b.as_bytes().to_vec());
    }
    for t in texs {
        fs.allow(FileKind::Tex, t.as_bytes().to_vec());
    }
    fs
}

fn run(ctx: &mut Bibtex, fs: &FileSet, line: &str) -> ttb_aux::interp::LineOutcome {
    get_aux_command_and_process(ctx, line.as_bytes(), fs)
}

#[test]
fn full_session_scenario() {
    let fs = fs_with(&["refs"], &["plain"], &[]);
    let mut ctx = Bibtex::new();
    assert!(run(&mut ctx, &fs, "\\bibdata{refs}").diags.is_empty());
    assert!(run(&mut ctx, &fs, "\\bibstyle{plain}").diags.is_empty());
    assert!(run(&mut ctx, &fs, "\\citation{A,b}").diags.is_empty());
    let out = run(&mut ctx, &fs, "\\citation{a}");
    assert_eq!(
        out.diags,
        vec![Diag::CaseMismatch(b"a".to_vec(), b"A".to_vec())]
    );
    assert!(!out.fatal);
    assert!(ctx.bib_seen && ctx.bst_seen && ctx.citation_seen);
    assert_eq!(ctx.bib_files, vec![b"refs".to_vec()]);
    assert_eq!(ctx.bst_str, Some(b"plain".to_vec()));
    assert_eq!(ctx.cites, vec![b"A".to_vec(), b"b".to_vec()]);
}

#[test]
fn nested_input_scenario() {
    let fs = fs_with(&[], &[], &["sub.aux"]);
    let mut ctx = Bibtex::new();
    let out = run(&mut ctx, &fs, "\\@input{sub.aux}");
    assert!(out.diags.is_empty());
    assert_eq!(ctx.aux.ptr(), 1);
    assert_eq!(ctx.aux.at_ptr(), &b"sub.aux".to_vec());
    assert!(cur_aux_file(&ctx.aux));
    assert_eq!(cur_aux_ln(&ctx.aux), 0);
    // the nested file contributes its citation before it is popped
    assert!(run(&mut ctx, &fs, "\\citation{x}").diags.is_empty());
    assert!(!pop_the_aux_stack(&mut ctx.aux));
    assert_eq!(ctx.aux.ptr(), 0);
    assert_eq!(ctx.cites, vec![b"x".to_vec()]);
    // popping the base frame reports the stack exhausted
    assert!(pop_the_aux_stack(&mut ctx.aux));
}

#[test]
fn second_bibdata_is_illegal_another() {
    let fs = fs_with(&["a", "b"], &[], &[]);
    let mut ctx = Bibtex::new();
    assert!(run(&mut ctx, &fs, "\\bibdata{a}").diags.is_empty());
    let out = run(&mut ctx, &fs, "\\bibdata{b}");
    assert_eq!(out.diags, vec![Diag::IllegalAnother(AuxTy::Data)]);
    assert!(!out.fatal);
    assert!(ctx.bib_seen);
    assert_eq!(ctx.bib_files, vec![b"a".to_vec()]);
    assert!(ctx.cites.is_empty());
}

#[test]
fn duplicate_bib_file_within_one_command() {
    let fs = fs_with(&["a"], &[], &[]);
    let mut ctx = Bibtex::new();
    let out = run(&mut ctx, &fs, "\\bibdata{a,a}");
    assert_eq!(out.diags, vec![Diag::DuplicateBibFile(b"a".to_vec())]);
    assert_eq!(ctx.bib_files, vec![b"a".to_vec()]);
}

#[test]
fn duplicate_aux_file_is_recoverable() {
    let fs = fs_with(&[], &[], &["s.aux"]);
    let mut ctx = Bibtex::new();
    assert!(run(&mut ctx, &fs, "\\@input{s.aux}").diags.is_empty());
    assert!(!pop_the_aux_stack(&mut ctx.aux));
    let out = run(&mut ctx, &fs, "\\@input{s.aux}");
    assert_eq!(out.diags, vec![Diag::DuplicateAuxFile(b"s.aux".to_vec())]);
    assert!(!out.fatal);
    assert_eq!(ctx.aux.ptr(), 0);
}

#[test]
fn case_folding_records_one_key() {
    let fs = FileSet::new();
    let mut ctx = Bibtex::new();
    assert!(run(&mut ctx, &fs, "\\citation{Foo}").diags.is_empty());
    let out = run(&mut ctx, &fs, "\\citation{foo}");
    assert_eq!(
        out.diags,
        vec![Diag::CaseMismatch(b"foo".to_vec(), b"Foo".to_vec())]
    );
    assert_eq!(ctx.cites, vec![b"Foo".to_vec()]);
}

#[test]
fn repeated_identical_key_is_silent() {
    let fs = FileSet::new();
    let mut ctx = Bibtex::new();
    assert!(run(&mut ctx, &fs, "\\citation{Foo}").diags.is_empty());
    assert!(run(&mut ctx, &fs, "\\citation{Foo}").diags.is_empty());
    assert_eq!(ctx.cites, vec![b"Foo".to_vec()]);
}

#[test]
fn star_expansion_once_only() {
    let fs = FileSet::new();
    let mut ctx = Bibtex::new();
    assert!(run(&mut ctx, &fs, "\\citation{*}").diags.is_empty());
    assert!(ctx.all_entries);
    assert_eq!(ctx.all_marker, Some(0));
    let out = run(&mut ctx, &fs, "\\citation{*}");
    assert_eq!(out.diags, vec![Diag::MultipleStarInclusion]);
    assert!(ctx.all_entries);
}

#[test]
fn end_check_on_empty_aux() {
    let fs = FileSet::new();
    let mut ctx = Bibtex::new();
    assert!(run(&mut ctx, &fs, "just text, no command").diags.is_empty());
    assert!(run(&mut ctx, &fs, "\\unknown{arg}").diags.is_empty());
    let out = last_check_for_aux_errors(&mut ctx);
    assert_eq!(
        out.diags,
        vec![Diag::MissingCitations, Diag::MissingBibdata, Diag::MissingBibstyle]
    );
    assert!(!out.fatal);
    assert_eq!(ctx.num_cites, 0);
    assert_eq!(ctx.num_bib_files, 0);
}

#[test]
fn end_check_after_full_session_is_silent() {
    let fs = fs_with(&["refs"], &["plain"], &[]);
    let mut ctx = Bibtex::new();
    run(&mut ctx, &fs, "\\bibdata{refs}");
    run(&mut ctx, &fs, "\\bibstyle{plain}");
    run(&mut ctx, &fs, "\\citation{A}");
    let out = last_check_for_aux_errors(&mut ctx);
    assert!(out.diags.is_empty());
    assert_eq!(ctx.num_cites, 1);
    assert_eq!(ctx.num_bib_files, 1);
}

#[test]
fn aux_stack_depth_bound() {
    let names: Vec<String> = (1..AUX_STACK_SIZE + 1).map(|i| format!("a{}.aux", i)).collect();
    let mut fs = FileSet::new();
    for n in &names {
        fs.allow(FileKind::Tex, n.as_bytes().to_vec());
    }
    let mut ctx = Bibtex::new();
    for (k, n) in names.iter().enumerate().take(AUX_STACK_SIZE - 1) {
        let out = run(&mut ctx, &fs, &format!("\\@input{{{}}}", n));
        assert!(out.diags.is_empty(), "push {} failed: {:?}", k, out.diags);
        assert_eq!(ctx.aux.ptr(), k + 1);
    }
    // the push that would reach the bound is fatal
    let out = run(&mut ctx, &fs, &format!("\\@input{{{}}}", names[AUX_STACK_SIZE - 1]));
    assert_eq!(out.diags, vec![Diag::StackOverflow]);
    assert!(out.fatal);
}

#[test]
fn structural_errors_abandon_the_line() {
    let fs = fs_with(&["a"], &["sty"], &[]);
    let mut ctx = Bibtex::new();
    let out = run(&mut ctx, &fs, "\\citation{abc");
    assert_eq!(out.diags, vec![Diag::NoRightBrace]);
    let out = run(&mut ctx, &fs, "\\citation{a b}");
    assert_eq!(out.diags, vec![Diag::WhitespaceInArgument]);
    let out = run(&mut ctx, &fs, "\\bibstyle{sty}x");
    assert_eq!(out.diags, vec![Diag::StuffAfterRightBrace]);
    assert!(ctx.cites.is_empty());
}

#[test]
fn wrong_extension_is_recoverable() {
    let fs = fs_with(&[], &[], &["f.tex"]);
    let mut ctx = Bibtex::new();
    let out = run(&mut ctx, &fs, "\\@input{f.tex}");
    assert_eq!(out.diags, vec![Diag::WrongExtension(b"f.tex".to_vec())]);
    assert!(!out.fatal);
    assert_eq!(ctx.aux.ptr(), 0);
}

#[test]
fn open_failures_are_recoverable() {
    let fs = FileSet::new();
    let mut ctx = Bibtex::new();
    let out = run(&mut ctx, &fs, "\\bibdata{missing}");
    assert_eq!(out.diags, vec![Diag::CantOpenBibFile(b"missing".to_vec())]);
    assert!(ctx.bib_files.is_empty());
    let out = run(&mut ctx, &fs, "\\bibstyle{missing}");
    assert_eq!(out.diags, vec![Diag::CantOpenStyleFile(b"missing".to_vec())]);
    assert_eq!(ctx.bst_str, None);
    let out = run(&mut ctx, &fs, "\\@input{m.aux}");
    assert_eq!(out.diags, vec![Diag::CantOpenAuxFile(b"m.aux".to_vec())]);
    assert_eq!(ctx.aux.ptr(), 0);
    let out = last_check_for_aux_errors(&mut ctx);
    assert_eq!(out.diags, vec![Diag::MissingCitations, Diag::NoDatabaseFiles, Diag::NoStyleFile]);
}

#[test]
fn line_counters_and_reset() {
    let mut aux = AuxData::new();
    assert_eq!(cur_aux_ln(&aux), 0);
    set_cur_aux_ln(&mut aux, 7);
    assert_eq!(cur_aux_ln(&aux), 7);
    aux.set_at_ptr(b"base.aux".to_vec());
    assert_eq!(aux.at_ptr(), &b"base.aux".to_vec());
    aux.set_ptr(3);
    assert_eq!(aux.ptr(), 3);
    aux.set_file_at_ptr(true);
    assert!(aux.file_at_ptr());
    reset(&mut aux);
    assert_eq!(aux.ptr(), 0);
    assert_eq!(cur_aux_ln(&aux), 0);
    assert!(!cur_aux_file(&aux));
}

#[test]
fn second_bibstyle_is_illegal_another() {
    let fs = fs_with(&[], &["a", "b"], &[]);
    let mut ctx = Bibtex::new();
    assert!(run(&mut ctx, &fs, "\\bibstyle{a}").diags.is_empty());
    let out = run(&mut ctx, &fs, "\\bibstyle{b}");
    assert_eq!(out.diags, vec![Diag::IllegalAnother(AuxTy::Style)]);
    assert_eq!(ctx.bst_str, Some(b"a".to_vec()));
}

#[test]
fn bib_files_register_left_to_right() {
    let fs = fs_with(&["a", "b", "c"], &[], &[]);
    let mut ctx = Bibtex::new();
    assert!(run(&mut ctx, &fs, "\\bibdata{a,b,c}").diags.is_empty());
    assert_eq!(
        ctx.bib_files,
        vec![b"a".to_vec(), b"b".to_vec(), b"c".to_vec()]
    );
}

#[test]
fn end_check_reports_no_cite_keys() {
    let fs = FileSet::new();
    let mut ctx = Bibtex::new();
    // the command is seen, but its malformed line records no key
    let out = run(&mut ctx, &fs, "\\citation{x");
    assert_eq!(out.diags, vec![Diag::NoRightBrace]);
    assert!(ctx.citation_seen);
    let out = last_check_for_aux_errors(&mut ctx);
    assert_eq!(
        out.diags,
        vec![Diag::NoCiteKeys, Diag::MissingBibdata, Diag::MissingBibstyle]
    );
    assert_eq!(ctx.num_cites, 0);
}
