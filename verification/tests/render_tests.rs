use cargo_show_asm::demangle::demangle_contents;
use cargo_show_asm::parse::parse_file;
use cargo_show_asm::render::{render_range_lines, Format, SourceCache, SourceFile, RenderError};
use cargo_show_asm::statements::Statement;

fn fmt_plain() -> Format {
    Format { rust: false, simplify: false, keep_labels: false, full_name: false, verbosity: 0 }
}

fn parse(src: &str) -> Vec<Statement> {
    parse_file(src).unwrap()
}

#[test]
fn referenced_label_is_kept() {
    let src = ".LBB0_1:\n\
               \tjmp .LBB0_1\n";
    let stmts = parse(src);
    let cache = SourceCache::new();
    let out = render_range_lines(&stmts, None, &fmt_plain(), &cache).unwrap();
    assert_eq!(out, vec![".LBB0_1:".to_string(), "\tjmp .LBB0_1".to_string()]);
}

#[test]
fn unreferenced_label_becomes_one_blank_line() {
    let src = ".LBB0_1:\n\
               .LBB0_2:\n\
               \tret\n";
    let stmts = parse(src);
    let cache = SourceCache::new();
    let out = render_range_lines(&stmts, None, &fmt_plain(), &cache).unwrap();
    // two consecutive pruned labels collapse into a single blank line
    assert_eq!(out, vec!["".to_string(), "\tret".to_string()]);
}

#[test]
fn temp_labels_vanish_without_blank() {
    let src = "Ltmp4:\n\
               \tret\n";
    let stmts = parse(src);
    let cache = SourceCache::new();
    let out = render_range_lines(&stmts, None, &fmt_plain(), &cache).unwrap();
    assert_eq!(out, vec!["\tret".to_string()]);
}

#[test]
fn keep_labels_keeps_everything() {
    let src = ".LBB0_1:\n\
               \tret\n";
    let stmts = parse(src);
    let cache = SourceCache::new();
    let mut fmt = fmt_plain();
    fmt.keep_labels = true;
    let out = render_range_lines(&stmts, None, &fmt, &cache).unwrap();
    assert_eq!(out, vec![".LBB0_1:".to_string(), "\tret".to_string()]);
}

fn cache_with_lines() -> SourceCache {
    let mut cache = SourceCache::new();
    cache.insert(
        0,
        "lib.rs".to_string(),
        Some(vec![
            "fn one() {}".to_string(),
            "fn two() {}".to_string(),
            "fn ten() {}".to_string(),
            "fn four() {}".to_string(),
            "fn five() {}".to_string(),
            "fn six() {}".to_string(),
            "fn seven() {}".to_string(),
            "fn eight() {}".to_string(),
            "fn nine() {}".to_string(),
            "    let x = 10;".to_string(),
        ]),
    );
    cache
}

#[test]
fn identical_locations_collapse() {
    let src = "\t.loc 0 10 0\n\
               \tnop\n\
               \t.loc 0 10 0\n\
               \tret\n";
    let stmts = parse(src);
    let cache = cache_with_lines();
    let mut fmt = fmt_plain();
    fmt.rust = true;
    let out = render_range_lines(&stmts, None, &fmt, &cache).unwrap();
    // the second identical location produces no second marker
    assert_eq!(
        out,
        vec![
            "\t\t// lib.rs : 10".to_string(),
            "\t\tlet x = 10;".to_string(),
            "\tnop".to_string(),
            "\tret".to_string(),
        ],
    );
}

#[test]
fn zero_line_location_is_never_emitted() {
    let src = "\t.loc 0 0\n\
               \tret\n";
    let stmts = parse(src);
    let cache = cache_with_lines();
    let mut fmt = fmt_plain();
    fmt.rust = true;
    let out = render_range_lines(&stmts, None, &fmt, &cache).unwrap();
    assert_eq!(out, vec!["\tret".to_string()]);
}

#[test]
fn locations_are_suppressed_without_source_interleaving() {
    let src = "\t.loc 0 10 0\n\
               \tret\n";
    let stmts = parse(src);
    let cache = SourceCache::new();
    let out = render_range_lines(&stmts, None, &fmt_plain(), &cache).unwrap();
    assert_eq!(out, vec!["\tret".to_string()]);
}

#[test]
fn unresolved_location_is_reported() {
    let src = "\t.loc 9 10 0\n";
    let stmts = parse(src);
    let cache = SourceCache::new();
    let mut fmt = fmt_plain();
    fmt.rust = true;
    assert_eq!(
        render_range_lines(&stmts, None, &fmt, &cache),
        Err(RenderError::UnresolvedLoc),
    );
}

#[test]
fn simplify_drops_directives_and_unknown_lines() {
    let src = "\t.section .text.x\n\
               \tret\n";
    let stmts = parse(src);
    let cache = SourceCache::new();
    let mut fmt = fmt_plain();
    fmt.simplify = true;
    let out = render_range_lines(&stmts, None, &fmt, &cache).unwrap();
    assert_eq!(out, vec!["\tret".to_string()]);
}

#[test]
fn used_labels_collects_referenced_local_labels() {
    let src = "\tjmp .LBB0_1\n\
               \tcall _ZN3foo3barE\n\
               \tleaq Ltmp7(%rip), %rax\n";
    let stmts = parse(src);
    let used = cargo_show_asm::render::used_labels(&stmts);
    assert!(used.contains(&".LBB0_1".to_string()));
    assert!(used.contains(&"Ltmp7".to_string()));
    // global symbols are not local-label-shaped
    assert!(!used.contains(&"_ZN3foo3barE".to_string()));
}

#[test]
fn mca_input_filters_and_wraps() {
    let lines = vec![
        "\t.loc 1 2 3".to_string(),
        "\tmovq %rax, %rbx".to_string(),
        "\t.file 1 \"x.rs\"".to_string(),
        "\tret".to_string(),
    ];
    let out = cargo_show_asm::mca::mca_input(&lines, 0, 4, true);
    assert_eq!(
        out,
        vec![
            ".intel_syntax".to_string(),
            "movq %rax, %rbx".to_string(),
            "ret".to_string(),
            ".cfi_endproc".to_string(),
        ],
    );
}

#[test]
fn analysis_output_lines_are_demangled() {
    let line = "\tcallq _ZN5crate3one17h0000000000000001E";
    assert_eq!(demangle_contents(line, false), "\tcallq crate::one");
    assert_eq!(
        demangle_contents(line, true),
        "\tcallq crate::one::h0000000000000001",
    );
    // a line without mangled symbols passes through unchanged
    assert_eq!(demangle_contents("\tret", false), "\tret");
}
