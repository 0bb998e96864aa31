use cobertura::demangle::{choose_name, is_msvc_like, method_name};

#[test]
fn rust_symbols_are_made_readable() {
    let symbol = "_ZN8cov_test4main17h7eb435a3fb3e6f20E".to_string();
    assert_eq!(method_name(&symbol, true), "cov_test::main");
    let closure =
        "_ZN8cov_test7test_fn28_$u7b$$u7b$closure$u7d$$u7d$17hab7a162ac9b573fcE".to_string();
    assert_eq!(method_name(&closure, true), "cov_test::test_fn::{{closure}}");
}

#[test]
fn cpp_symbols_are_made_readable() {
    assert_eq!(method_name(&"_ZN3foo3barEv".to_string(), true), "foo::bar");
}

#[test]
fn symbols_stay_as_they_are_where_demangling_is_off() {
    let symbol = "_ZN8cov_test4main17h7eb435a3fb3e6f20E".to_string();
    assert_eq!(method_name(&symbol, false), symbol);
}

#[test]
fn names_that_are_no_symbols_stay_as_they_are() {
    assert_eq!(method_name(&"main".to_string(), true), "main");
    assert_eq!(method_name(&String::new(), true), "");
}

#[test]
fn the_readable_name_is_taken_where_asked_for_and_found() {
    let name = "raw".to_string();
    assert_eq!(choose_name(&name, true, Some("readable".to_string())), "readable");
    assert_eq!(choose_name(&name, true, None), "raw");
    assert_eq!(choose_name(&name, false, Some("readable".to_string())), "raw");
    assert_eq!(choose_name(&name, false, None), "raw");
}

#[test]
fn symbols_of_the_microsoft_compiler_are_told_by_their_start() {
    assert!(is_msvc_like("?foo@@YAXXZ"));
    assert!(is_msvc_like("?"));
    assert!(is_msvc_like("@?x"));
    assert!(is_msvc_like("??@0123456789abcdef0123456789abcdef@"));
    assert!(!is_msvc_like(""));
    assert!(!is_msvc_like("@"));
    assert!(!is_msvc_like("@x?"));
    assert!(!is_msvc_like("_ZN3foo3barEv"));
    assert!(!is_msvc_like("é?"));
}

#[test]
fn symbols_of_the_microsoft_compiler_are_shown_as_they_are() {
    for symbol in ["?$TSS99999999999@", "?foo@@YAXXZ", "@?", "?", "??_0klass@@QEAAHH@Z"] {
        assert_eq!(method_name(&symbol.to_string(), true), symbol);
        assert_eq!(method_name(&symbol.to_string(), false), symbol);
    }
}
