use cargo_show_asm::ipc::{parse_request, respond, server_address, Reply, Request};
use cargo_show_asm::{Item, ItemMap, StmtRange};

fn three_items() -> ItemMap {
    let mut items = ItemMap::new();
    items.insert(
        Item {
            name: "first()".to_string(),
            hashed: "first154232".to_string(),
            len: 0,
            index: 0,
        },
        StmtRange { start: 0, end: 1 },
    );
    items.insert(
        Item {
            name: "second()".to_string(),
            hashed: "second63452".to_string(),
            len: 0,
            index: 1,
        },
        StmtRange { start: 1, end: 2 },
    );
    items.insert(
        Item {
            name: "third()".to_string(),
            hashed: "third43534".to_string(),
            len: 0,
            index: 2,
        },
        StmtRange { start: 2, end: 3 },
    );
    items
}

#[test]
fn request_parsing() {
    assert_eq!(parse_request("Stop\n"), Request::Stop);
    assert_eq!(parse_request("Request: 1\n"), Request::Render { index: 1 });
    assert_eq!(parse_request("Request: 5\n"), Request::Render { index: 5 });
    assert_eq!(parse_request("Request: \n"), Request::Malformed);
    assert_eq!(parse_request("Request: x\n"), Request::Malformed);
    assert_eq!(parse_request("nonsense\n"), Request::Malformed);
}

#[test]
fn server_answers_held_index_with_its_range() {
    let items = three_items();
    // index 1 in enumeration order is second()
    match respond("Request: 1\n", &items) {
        Reply::Dump(r) => assert_eq!(r, StmtRange { start: 1, end: 2 }),
        _ => panic!("expected a dump reply"),
    }
}

#[test]
fn server_reports_out_of_range_index_and_keeps_serving() {
    let items = three_items();
    match respond("Request: 5\n", &items) {
        Reply::ErrorLine(msg) => {
            assert_eq!(msg, "Error: the requested index 5 is not found\n");
        },
        _ => panic!("expected an error line"),
    }
    // a later valid request still works: the server never crashes
    match respond("Request: 0\n", &items) {
        Reply::Dump(r) => assert_eq!(r, StmtRange { start: 0, end: 1 }),
        _ => panic!("expected a dump reply"),
    }
}

#[test]
fn server_reports_malformed_request() {
    let items = three_items();
    match respond("gibberish\n", &items) {
        Reply::ErrorLine(msg) => {
            assert_eq!(msg, "Error: Malformed Message Expected:\nRequest: idx\n");
        },
        _ => panic!("expected an error line"),
    }
}

#[test]
fn stop_ends_the_loop() {
    let items = three_items();
    assert!(matches!(respond("Stop\n", &items), Reply::Stop));
}

#[test]
fn addresses_are_derived_from_the_process_id() {
    assert_eq!(server_address(42, false), "/tmp/cargo_show_asm/server42.sock");
    assert_eq!(server_address(42, true), "@cargo_show_asm.server42.sock");
    assert_ne!(server_address(1, false), server_address(2, false));
}
