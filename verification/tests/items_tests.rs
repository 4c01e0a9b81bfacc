use cargo_show_asm::items::find_items;
use cargo_show_asm::{suggest_name, Item};
use cargo_show_asm::parse::parse_file;
use cargo_show_asm::render::Format;
use cargo_show_asm::{get_dump_range, DumpSelection, StmtRange, ToDump};

fn plain_format() -> Format {
    Format { rust: false, simplify: false, keep_labels: false, full_name: false, verbosity: 0 }
}

#[test]
fn extracts_demangled_items_with_disjoint_ranges() {
    let src = "\t.section .text.one,\"ax\"\n\
               \t.globl _ZN5crate3one17h0000000000000001E\n\
               _ZN5crate3one17h0000000000000001E:\n\
               \tret\n\
               .Lfunc_end0:\n\
               \t.section .text.two,\"ax\"\n\
               \t.globl _ZN5crate3two17h0000000000000002E\n\
               _ZN5crate3two17h0000000000000002E:\n\
               \tnop\n\
               \tret\n\
               .Lfunc_end1:\n";
    let stmts = parse_file(src).unwrap();
    let items = find_items(&stmts);
    assert_eq!(items.len(), 2);
    let first = items.get(0);
    let second = items.get(1);
    // enumeration order is by demangled name
    assert_eq!(first.0.name, "crate::one");
    assert_eq!(first.0.hashed, "crate::one::h0000000000000001");
    assert_eq!(second.0.name, "crate::two");
    // the ranges start at the section boundary and are disjoint
    assert_eq!(first.1, StmtRange { start: 0, end: 4 });
    assert_eq!(second.1, StmtRange { start: 5, end: 10 });
    assert_eq!(first.0.index, 0);
    assert_eq!(second.0.index, 0);
}

#[test]
fn synthesizes_item_for_private_text_section_label() {
    let src = "\t.section .text.unknown_sym\n\
               unknown_sym:\n\
               \tret\n\
               .Lfunc_end0:\n";
    let stmts = parse_file(src).unwrap();
    let items = find_items(&stmts);
    assert_eq!(items.len(), 1);
    let only = items.get(0);
    assert_eq!(only.0.name, "unknown_sym");
    assert_eq!(only.0.hashed, "unknown_sym");
    assert_eq!(only.1, StmtRange { start: 0, end: 3 });
}

#[test]
fn single_item_is_selected_without_prompting() {
    let src = "\t.section .text.one,\"ax\"\n\
               _ZN5crate3one17h0000000000000001E:\n\
               \tret\n\
               .Lfunc_end0:\n";
    let stmts = parse_file(src).unwrap();
    let items = find_items(&stmts);
    assert_eq!(items.len(), 1);
    // an ambiguous or interactive goal still resolves directly to the
    // one item, with no prompt
    let fmt = plain_format();
    match get_dump_range(&ToDump::Unspecified, &fmt, &items) {
        DumpSelection::Selected(r) => assert_eq!(r, StmtRange { start: 0, end: 3 }),
        other => panic!("expected direct selection, got a different outcome: {}", kind_of(&other)),
    }
    match get_dump_range(&ToDump::Interactive, &fmt, &items) {
        DumpSelection::Selected(r) => assert_eq!(r, StmtRange { start: 0, end: 3 }),
        other => panic!("expected direct selection, got a different outcome: {}", kind_of(&other)),
    }
}

fn kind_of(s: &DumpSelection) -> &'static str {
    match s {
        DumpSelection::All => "all",
        DumpSelection::Selected(_) => "selected",
        DumpSelection::BadIndex { .. } => "bad index",
        DumpSelection::NoMatches => "no matches",
        DumpSelection::Suggest { .. } => "suggest",
        DumpSelection::RunInteractive => "run interactive",
    }
}

#[test]
fn selection_by_index_and_filter() {
    let src = "\t.section .text.one,\"ax\"\n\
               _ZN5crate3one17h0000000000000001E:\n\
               .Lfunc_end0:\n\
               \t.section .text.two,\"ax\"\n\
               _ZN5crate3two17h0000000000000002E:\n\
               .Lfunc_end1:\n";
    let stmts = parse_file(src).unwrap();
    let items = find_items(&stmts);
    assert_eq!(items.len(), 2);
    let fmt = plain_format();
    match get_dump_range(&ToDump::ByIndex { value: 1 }, &fmt, &items) {
        DumpSelection::Selected(r) => assert_eq!(r, StmtRange { start: 3, end: 5 }),
        other => panic!("unexpected outcome: {}", kind_of(&other)),
    }
    match get_dump_range(&ToDump::ByIndex { value: 9 }, &fmt, &items) {
        DumpSelection::BadIndex { asked, available } => {
            assert_eq!(asked, 9);
            assert_eq!(available, 2);
        },
        other => panic!("unexpected outcome: {}", kind_of(&other)),
    }
    match get_dump_range(
        &ToDump::Function { function: "two".to_string(), nth: None },
        &fmt,
        &items,
    ) {
        DumpSelection::Selected(r) => assert_eq!(r, StmtRange { start: 3, end: 5 }),
        other => panic!("unexpected outcome: {}", kind_of(&other)),
    }
    match get_dump_range(
        &ToDump::Function { function: "absent".to_string(), nth: None },
        &fmt,
        &items,
    ) {
        DumpSelection::NoMatches => {},
        other => panic!("unexpected outcome: {}", kind_of(&other)),
    }
    match get_dump_range(&ToDump::Everything, &fmt, &items) {
        DumpSelection::All => {},
        other => panic!("unexpected outcome: {}", kind_of(&other)),
    }
}

#[test]
fn suggestions_group_lengths_by_name() {
    let items = vec![
        Item { name: "a".to_string(), hashed: "a::h1".to_string(), index: 0, len: 5 },
        Item { name: "a".to_string(), hashed: "a::h2".to_string(), index: 1, len: 7 },
        Item { name: "b".to_string(), hashed: "b::h3".to_string(), index: 0, len: 2 },
    ];
    let s = suggest_name("", false, &items);
    assert_eq!(s.count, 3);
    assert_eq!(s.width, 1);
    assert!(!s.no_functions);
    assert!(!s.no_matches);
    assert_eq!(s.groups.len(), 2);
    assert_eq!(s.groups[0].0, "a");
    assert_eq!(s.groups[0].1, vec![5, 7]);
    assert_eq!(s.groups[1].0, "b");
    assert_eq!(s.groups[1].1, vec![2]);

    let none = suggest_name("", false, &Vec::new());
    assert!(none.no_functions);
    let none2 = suggest_name("zzz", false, &Vec::new());
    assert!(none2.no_matches);
}
