use cargo_show_asm::parse::parse_file;
use cargo_show_asm::statements::{render_statement, Directive, Statement};

fn render_all(stmts: &Vec<Statement>) -> String {
    let mut out = String::new();
    for st in stmts {
        out.push_str(render_statement(st).as_str());
        out.push('\n');
    }
    out
}

#[test]
fn parses_each_line_class() {
    let src = "\t.section .text.foo,\"ax\",@progbits\n\
               \t.globl _ZN3foo3bar17h0123456789abcdefE\n\
               _ZN3foo3bar17h0123456789abcdefE:\n\
               \t.file 1 \"src/lib.rs\"\n\
               \t.loc 1 10 5\n\
               \tmovq %rdi, %rax\n\
               \tret\n\
               .Lfunc_end0:\n\
               \t.subsections_via_symbols\n\
               \t.set foo, bar\n\
               \n";
    let stmts = parse_file(src).unwrap();
    assert_eq!(stmts.len(), 11);
    assert!(matches!(&stmts[0], Statement::Directive(Directive::SectionStart(s)) if s == ".text.foo,\"ax\",@progbits"));
    assert!(matches!(&stmts[1], Statement::Directive(Directive::Generic(g)) if g.starts_with("globl")));
    assert!(matches!(&stmts[2], Statement::Label(l) if l.id == "_ZN3foo3bar17h0123456789abcdefE"));
    match &stmts[3] {
        Statement::Directive(Directive::File(f)) => {
            assert_eq!(f.index, 1);
            assert_eq!(f.path, "src/lib.rs");
        },
        other => panic!("expected file directive, got {:?}", other),
    }
    match &stmts[4] {
        Statement::Directive(Directive::Loc(l)) => {
            assert_eq!(l.file, 1);
            assert_eq!(l.line, 10);
            assert_eq!(l.column, 5);
        },
        other => panic!("expected loc directive, got {:?}", other),
    }
    assert!(matches!(&stmts[5], Statement::Instruction(i) if i.mnemonic == "movq"
        && i.args.as_deref() == Some("%rdi, %rax")));
    assert!(matches!(&stmts[6], Statement::Instruction(i) if i.mnemonic == "ret"
        && i.args.is_none()));
    assert!(matches!(&stmts[7], Statement::Label(l) if l.id == ".Lfunc_end0"));
    assert!(matches!(&stmts[8], Statement::Directive(Directive::SubsectionsViaSym)));
    match &stmts[9] {
        Statement::Directive(Directive::SetDir(s)) => {
            assert_eq!(s.name, "foo");
            assert_eq!(s.value, "bar");
        },
        other => panic!("expected set directive, got {:?}", other),
    }
    assert!(matches!(&stmts[10], Statement::Nothing));
}

#[test]
fn rejects_unterminated_input() {
    let err = parse_file("\tret\nleftover text").unwrap_err();
    assert_eq!(err.leftover, "leftover text");
}

#[test]
fn empty_input_parses_to_nothing() {
    let stmts = parse_file("").unwrap();
    assert_eq!(stmts.len(), 0);
}

#[test]
fn round_trip_is_idempotent() {
    // whitespace may be normalized, but re-parsing the rendering gives
    // the same statement sequence
    let src = "  .section   .text.main  \n\
               main:\n\
               \t.loc  2   7\n\
               \t  addq   %rbx ,  %rcx  \n\
               weird line: with colon\n\
               \t.unknown_directive args here\n";
    let first = parse_file(src).unwrap();
    let rendered = render_all(&first);
    let second = parse_file(rendered.as_str()).unwrap();
    let rendered_again = render_all(&second);
    assert_eq!(rendered, rendered_again);
    assert_eq!(first.len(), second.len());
    for (a, b) in first.iter().zip(second.iter()) {
        assert_eq!(render_statement(a), render_statement(b));
    }
}

#[test]
fn loc_without_column_keeps_annotations() {
    let stmts = parse_file("\t.loc 3 42 prologue_end\n").unwrap();
    match &stmts[0] {
        Statement::Directive(Directive::Loc(l)) => {
            assert_eq!(l.file, 3);
            assert_eq!(l.line, 42);
            assert_eq!(l.column, 0);
            assert_eq!(l.extra, "prologue_end");
        },
        other => panic!("expected loc directive, got {:?}", other),
    }
}

#[test]
fn two_part_file_paths_are_joined() {
    let stmts = parse_file("\t.file 2 \"/tmp/dir\" \"mod.rs\"\n").unwrap();
    match &stmts[0] {
        Statement::Directive(Directive::File(f)) => {
            assert_eq!(f.index, 2);
            assert_eq!(f.path, "/tmp/dir/mod.rs");
        },
        other => panic!("expected file directive, got {:?}", other),
    }
}
