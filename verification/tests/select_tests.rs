use cargo_show_asm::select::{deserialize, preview_command, serialize, DeserializeError, Finder};
use cargo_show_asm::{Item, ItemMap, StmtRange};

#[test]
fn test_finder_format() {
    let item = Item {
        name: ":20pefhn4gt0ph/üde".to_string(),
        hashed: ":20pefhn4gt0ph/üde".to_string(),
        len: 0,
        index: 0,
    };
    let mut items = ItemMap::new();
    items.insert(item, StmtRange { start: 0, end: 0 });

    let out = serialize(&items);

    // In this test only the first item gets checked
    let index = deserialize(out.as_str()).unwrap();
    assert_eq!(index, 0);
}

#[test]
fn serialize_lists_items_in_order() {
    let mut items = ItemMap::new();
    items.insert(
        Item { name: "beta".to_string(), hashed: "beta".to_string(), index: 0, len: 3 },
        StmtRange { start: 4, end: 7 },
    );
    items.insert(
        Item { name: "alpha".to_string(), hashed: "alpha".to_string(), index: 0, len: 2 },
        StmtRange { start: 0, end: 2 },
    );
    let out = serialize(&items);
    assert_eq!(out, "0: alpha\n1: beta\n");
}

#[test]
fn deserialize_reads_padded_index() {
    assert_eq!(deserialize("  7: some::name\n").unwrap(), 7);
}

#[test]
fn deserialize_reports_missing_delimiter() {
    assert_eq!(deserialize("no delimiter here"), Err(DeserializeError::NoDelimiter));
}

#[test]
fn deserialize_reports_bad_number() {
    assert_eq!(deserialize("x1: name\n"), Err(DeserializeError::BadNumber));
}

#[test]
fn finder_executables() {
    assert_eq!(Finder::Fzf.get_executable(), "fzf");
    assert_eq!(Finder::Skim.get_executable(), "sk");
    assert_eq!(Finder::Fzy.get_executable(), "fzy");
    let custom = Finder::Custom {
        command: vec!["my-finder".to_string(), "--flag".to_string()],
        preview: vec![],
    };
    assert_eq!(custom.get_executable(), "my-finder");
    assert!(!custom.has_preview_support());
    assert!(Finder::Fzf.has_preview_support());
    assert!(!Finder::Fzy.has_preview_support());
}

#[test]
fn preview_command_format() {
    let c = preview_command("prog", "/tmp/x.sock");
    assert_eq!(c, "prog --client --server-name=\"/tmp/x.sock\" --select {1}");
}
