use cargo_show_asm::locate::{classify_path, resolve_decision, PathClass, Resolution};

#[test]
fn existing_path_resolves_to_itself_unchanged() {
    let path = "/some/project/src/main.rs".to_string();
    // even with a rewrite candidate at hand, a path that exists verbatim
    // is returned exactly as given
    let class = PathClass::RustcStyle { candidate: "/elsewhere/main.rs".to_string() };
    match resolve_decision(&path, &class, true, true) {
        Resolution::Found(p) => assert_eq!(p, path),
        _ => panic!("expected the path itself"),
    }
}

#[test]
fn rustc_reference_is_rewritten_under_the_sysroot() {
    let class = classify_path(
        "/rustc/a55dd71d5fb0ec5a6a3a9e8c27b2127ba491ce52/library/core/src/iter/range.rs",
        "/sysroot",
        "/home/user",
    );
    match class {
        PathClass::RustcStyle { candidate } => {
            assert_eq!(candidate, "/sysroot/lib/rustlib/src/rust/library/core/src/iter/range.rs");
        },
        _ => panic!("expected a compiler source tree classification"),
    }
}

#[test]
fn registry_reference_is_rewritten_under_the_home_cache() {
    let class = classify_path(
        "/Users/runner/.cargo/registry/src/github.com-1ecc6299db9ec823/hashbrown-0.12.3/src/map.rs",
        "/sysroot",
        "/home/user",
    );
    match class {
        PathClass::Registry { candidate } => {
            assert_eq!(
                candidate,
                "/home/user/.cargo/registry/src/github.com-1ecc6299db9ec823/hashbrown-0.12.3/src/map.rs",
            );
        },
        _ => panic!("expected a registry classification"),
    }
}

#[test]
fn missing_candidates_are_fatal_by_kind() {
    let path = "/rustc/abc/library/core/src/option.rs".to_string();
    let rustc = PathClass::RustcStyle { candidate: "/sysroot/x".to_string() };
    assert!(matches!(
        resolve_decision(&path, &rustc, false, false),
        Resolution::MissingRustSrc
    ));
    let reg = PathClass::Registry { candidate: "/home/x".to_string() };
    assert!(matches!(
        resolve_decision(&path, &reg, false, false),
        Resolution::RegistryMissing
    ));
    assert!(matches!(
        resolve_decision(&path, &PathClass::Verbatim, false, false),
        Resolution::NotFound
    ));
    match resolve_decision(&path, &rustc, false, true) {
        Resolution::Found(p) => assert_eq!(p, "/sysroot/x"),
        _ => panic!("expected the candidate"),
    }
}
