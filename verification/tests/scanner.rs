use meta_ast::lang::LangId;
use meta_ast::scanner::{scan_file, CallSiteVariant};

#[test]
fn test_scan_python() {
    let source = b"metacall_load_from_file('node', ['sum.js'])";
    let sites = scan_file(LangId::Python, source, "test.py");
    assert_eq!(sites.len(), 1);
    assert_eq!(sites[0].variant, CallSiteVariant::LoadFromFile);
    assert_eq!(sites[0].target_lang.as_deref(), Some("node"));
    assert_eq!(sites[0].scripts, vec!["sum.js"]);
    assert_eq!(sites[0].confidence, 1000);
}

#[test]
fn test_scan_javascript() {
    let source = b"metacall_load_from_file('py', ['sum.py'])";
    let sites = scan_file(LangId::JavaScript, source, "test.js");
    assert_eq!(sites.len(), 1);
    assert_eq!(sites[0].variant, CallSiteVariant::LoadFromFile);
    assert_eq!(sites[0].target_lang.as_deref(), Some("py"));
    assert_eq!(sites[0].scripts, vec!["sum.py"]);
}

#[test]
fn test_scan_rust() {
    let source = b"metacall::load_from_file(\"py\", [\"sum.py\"])";
    let sites = scan_file(LangId::Rust, source, "lib.rs");
    assert_eq!(sites.len(), 1);
    assert_eq!(sites[0].variant, CallSiteVariant::LoadFromFile);
    assert_eq!(sites[0].target_lang.as_deref(), Some("py"));
    assert_eq!(sites[0].scripts, vec!["sum.py"]);
}

#[test]
fn test_scan_computed_args() {
    let source = b"metacall_load_from_file(LANG, ['sum.js'])";
    let sites = scan_file(LangId::Python, source, "test.py");
    assert_eq!(sites.len(), 1);
    assert_eq!(sites[0].confidence, 400);
    assert_eq!(sites[0].target_lang.as_deref(), Some("LANG"));
}

#[test]
fn test_scan_rust_bare_name() {
    // After `use metacall::metacall_load_from_file`, the call is bare.
    let source = b"metacall_load_from_file(\"py\", [\"sum.py\"])";
    let sites = scan_file(LangId::Rust, source, "lib.rs");
    assert_eq!(sites.len(), 1);
    assert_eq!(sites[0].variant, CallSiteVariant::LoadFromFile);
    assert_eq!(sites[0].target_lang.as_deref(), Some("py"));
    assert_eq!(sites[0].scripts, vec!["sum.py"]);
}

#[test]
fn test_scan_python_load_from_memory() {
    let source = b"metacall_load_from_memory('node', 'console.log(\"hi\")')";
    let sites = scan_file(LangId::Python, source, "test.py");
    assert_eq!(sites.len(), 1);
    assert_eq!(sites[0].variant, CallSiteVariant::LoadFromMemory);
    assert_eq!(sites[0].target_lang.as_deref(), Some("node"));
}

#[test]
fn test_scan_python_load_from_package() {
    let source = b"metacall_load_from_package('node', 'express')";
    let sites = scan_file(LangId::Python, source, "test.py");
    assert_eq!(sites.len(), 1);
    assert_eq!(sites[0].variant, CallSiteVariant::LoadFromPackage);
    assert_eq!(sites[0].target_lang.as_deref(), Some("node"));
    assert_eq!(sites[0].scripts, vec!["express"]);
}

#[test]
fn test_scan_go_load_from_memory() {
    let source = b"metacall.LoadFromMemory(\"node\", []string{\"const x = 1;\"})";
    let sites = scan_file(LangId::Go, source, "main.go");
    assert_eq!(sites.len(), 1);
    assert_eq!(sites[0].variant, CallSiteVariant::LoadFromMemory);
    assert_eq!(sites[0].target_lang.as_deref(), Some("node"));
}

#[test]
fn test_scan_python_client_call() {
    let source = b"metacall('sum', 1, 2)";
    let sites = scan_file(LangId::Python, source, "test.py");
    assert_eq!(sites.len(), 1);
    assert_eq!(sites[0].variant, CallSiteVariant::ClientCall);
    assert_eq!(sites[0].function_name.as_deref(), Some("sum"));
    assert!(!sites[0].is_async);
    assert!(sites[0].scripts.is_empty());
    assert_eq!(sites[0].confidence, 1000);
    assert!(sites[0].source_range.is_some());
}

#[test]
fn test_scan_python_client_await() {
    let source = b"metacall_await('sum', 1)";
    let sites = scan_file(LangId::Python, source, "test.py");
    assert_eq!(sites.len(), 1);
    assert_eq!(sites[0].variant, CallSiteVariant::ClientCall);
    assert!(sites[0].is_async);
    assert_eq!(sites[0].function_name.as_deref(), Some("sum"));
}

#[test]
fn test_scan_python_computed_function_name() {
    let source = b"metacall(fn_name, 1)";
    let sites = scan_file(LangId::Python, source, "test.py");
    assert_eq!(sites.len(), 1);
    assert_eq!(sites[0].variant, CallSiteVariant::ClientCall);
    assert_eq!(sites[0].function_name.as_deref(), Some("fn_name"));
    assert_eq!(sites[0].confidence, 400);
}

#[test]
fn test_scan_javascript_client_call() {
    let source = b"metacall('sum', 1, 2)";
    let sites = scan_file(LangId::JavaScript, source, "test.js");
    assert_eq!(sites.len(), 1);
    assert_eq!(sites[0].variant, CallSiteVariant::ClientCall);
    assert_eq!(sites[0].function_name.as_deref(), Some("sum"));
}

#[test]
fn test_scan_c_load_from_file() {
    let source = b"metacall_load_from_file(\"node\", paths, size, &handle);";
    let sites = scan_file(LangId::C, source, "test.c");
    assert_eq!(sites.len(), 1);
    assert_eq!(sites[0].variant, CallSiteVariant::LoadFromFile);
    assert_eq!(sites[0].target_lang.as_deref(), Some("node"));
}

#[test]
fn test_scan_c_client_call() {
    let source = b"metacall(\"sum\", 1, 2);\nmetacallv(\"sum\", args);";
    let sites = scan_file(LangId::C, source, "test.c");
    assert_eq!(sites.len(), 2);
    assert_eq!(sites[0].variant, CallSiteVariant::ClientCall);
    assert_eq!(sites[1].variant, CallSiteVariant::ClientCall);
    assert_eq!(sites[0].function_name.as_deref(), Some("sum"));
}

#[test]
fn test_scan_go_client_call() {
    let source = b"metacall.Call(\"sum\", 1, 2)";
    let sites = scan_file(LangId::Go, source, "main.go");
    assert_eq!(sites.len(), 1);
    assert_eq!(sites[0].variant, CallSiteVariant::ClientCall);
    assert_eq!(sites[0].function_name.as_deref(), Some("sum"));
}

#[test]
fn test_scan_go_client_await() {
    let source = b"metacall.Await(\"sum\", resolve, reject, ctx, 1)";
    let sites = scan_file(LangId::Go, source, "main.go");
    assert_eq!(sites.len(), 1);
    assert_eq!(sites[0].variant, CallSiteVariant::ClientCall);
    assert!(sites[0].is_async);
}

#[test]
fn test_scan_typescript_client_call() {
    let source = b"metacall('sum', 1, 2)";
    let sites = scan_file(LangId::TypeScript, source, "test.ts");
    assert_eq!(sites.len(), 1);
    assert_eq!(sites[0].variant, CallSiteVariant::ClientCall);
    assert_eq!(sites[0].function_name.as_deref(), Some("sum"));
}

#[test]
fn test_scan_tsx_client_call() {
    let source = b"metacall('sum', 1, 2)";
    let sites = scan_file(LangId::Tsx, source, "test.tsx");
    assert_eq!(sites.len(), 1);
    assert_eq!(sites[0].variant, CallSiteVariant::ClientCall);
    assert_eq!(sites[0].function_name.as_deref(), Some("sum"));
}

#[test]
fn test_scan_cpp_client_call() {
    let source = b"metacall(\"sum\", 1, 2);";
    let sites = scan_file(LangId::Cpp, source, "test.cpp");
    assert_eq!(sites.len(), 1);
    assert_eq!(sites[0].variant, CallSiteVariant::ClientCall);
    assert_eq!(sites[0].function_name.as_deref(), Some("sum"));
}

#[test]
fn test_scan_node_metacallfms() {
    let source = b"metacallfms('sum', '{\"a\":1}')";
    let sites = scan_file(LangId::JavaScript, source, "test.js");
    assert_eq!(sites.len(), 1);
    assert_eq!(sites[0].variant, CallSiteVariant::ClientCall);
    assert_eq!(sites[0].function_name.as_deref(), Some("sum"));
}

#[test]
fn test_scan_rust_metacall_no_arg() {
    let source = b"metacall::metacall_no_arg(\"greet\")";
    let sites = scan_file(LangId::Rust, source, "lib.rs");
    assert_eq!(sites.len(), 1);
    assert_eq!(sites[0].variant, CallSiteVariant::ClientCall);
    assert_eq!(sites[0].function_name.as_deref(), Some("greet"));
}

#[test]
fn test_scan_rust_metacall_untyped_no_arg() {
    let source = b"metacall::metacall_untyped_no_arg(\"greet\")";
    let sites = scan_file(LangId::Rust, source, "lib.rs");
    assert_eq!(sites.len(), 1);
    assert_eq!(sites[0].variant, CallSiteVariant::ClientCall);
    assert_eq!(sites[0].function_name.as_deref(), Some("greet"));
    assert!(!sites[0].is_async);
}

#[test]
fn test_scan_go_call_unsafe() {
    let source = b"metacall.CallUnsafe(\"sum\", 1, 2)";
    let sites = scan_file(LangId::Go, source, "main.go");
    assert_eq!(sites.len(), 1);
    assert_eq!(sites[0].variant, CallSiteVariant::ClientCall);
    assert_eq!(sites[0].function_name.as_deref(), Some("sum"));
    assert!(!sites[0].is_async);
}

#[test]
fn test_scan_go_await_unsafe_is_async() {
    let source = b"metacall.AwaitUnsafe(\"sum\", resolve, reject, ctx)";
    let sites = scan_file(LangId::Go, source, "main.go");
    assert_eq!(sites.len(), 1);
    assert_eq!(sites[0].variant, CallSiteVariant::ClientCall);
    assert!(sites[0].is_async);
}

#[test]
fn test_scan_c_metacallv_s() {
    let source = b"metacallv_s(\"sum\", args, size);";
    let sites = scan_file(LangId::C, source, "test.c");
    assert_eq!(sites.len(), 1);
    assert_eq!(sites[0].variant, CallSiteVariant::ClientCall);
    assert_eq!(sites[0].function_name.as_deref(), Some("sum"));
}

#[test]
fn test_scan_c_metacall_await_s_is_async() {
    let source = b"metacall_await_s(\"sum\", args, size, resolve, reject, data);";
    let sites = scan_file(LangId::C, source, "test.c");
    assert_eq!(sites.len(), 1);
    assert_eq!(sites[0].variant, CallSiteVariant::ClientCall);
    assert!(sites[0].is_async);
}

#[test]
fn test_scan_python_fstring_is_computed_name() {
    // An f-string is not a plain literal: the runtime name is computed,
    // so confidence must drop to 0.4.
    let source = b"metacall(f'fn_{suffix}', 1)";
    let sites = scan_file(LangId::Python, source, "test.py");
    assert_eq!(sites.len(), 1);
    assert_eq!(sites[0].variant, CallSiteVariant::ClientCall);
    assert!(sites[0].function_name.as_deref().unwrap().contains("fn_"));
    assert_eq!(sites[0].confidence, 400);
}

#[test]
fn test_scan_javascript_template_string_is_computed_name() {
    let source = b"metacall(`fn_${suffix}`, 1)";
    let sites = scan_file(LangId::JavaScript, source, "test.js");
    assert_eq!(sites.len(), 1);
    assert_eq!(sites[0].variant, CallSiteVariant::ClientCall);
    assert_eq!(sites[0].confidence, 400);
}

#[test]
fn test_scan_metacall_handle_not_matched() {
    // metacall_handle(tag, name) has a per-port argument layout (tag
    // first in C/Node, handle first in Rust), so it is not matched.
    let py_source = b"metacall_handle('node', 'sum')";
    let py_sites = scan_file(LangId::Python, py_source, "test.py");
    assert!(py_sites.is_empty());

    let c_source = b"metacall_handle(\"node\", \"sum\");";
    let c_sites = scan_file(LangId::C, c_source, "test.c");
    assert!(c_sites.is_empty());
}

#[test]
fn test_scan_rust_client_call() {
    let source = b"metacall::metacall(\"sum\", &[1, 2])";
    let sites = scan_file(LangId::Rust, source, "lib.rs");
    assert_eq!(sites.len(), 1);
    assert_eq!(sites[0].variant, CallSiteVariant::ClientCall);
    assert_eq!(sites[0].function_name.as_deref(), Some("sum"));
}

#[test]
fn test_scan_rust_from_single_file() {
    let source = b"metacall::load::from_single_file(\"py\", \"x.py\")";
    let sites = scan_file(LangId::Rust, source, "lib.rs");
    assert_eq!(sites.len(), 1);
    assert_eq!(sites[0].variant, CallSiteVariant::LoadFromFile);
    assert_eq!(sites[0].scripts, vec!["x.py"]);
}

#[test]
fn test_scan_ignores_metacall_inspect() {
    let source = b"metacall_inspect()";
    let sites = scan_file(LangId::Python, source, "test.py");
    assert!(sites.is_empty());
}

/// Rust classification must not accept a look-alike helper name, and the
/// genuine `metacall::load::*` names must still be detected.
#[test]
fn test_scan_rust_rejects_lookalike_helpers() {
    let source = br#"
fn f() { let a = reader.read_from_file("a"); }
fn g() { let b = loader.load_from_memory_cache("b"); }
fn h() { let c = copy_from_file_buffer("c"); }
fn i() { let d = cache_from_configuration("d"); }
"#;
    let sites = scan_file(LangId::Rust, source, "lib.rs");
    assert!(
        sites.is_empty(),
        "look-alike helpers must not be MetaCall sites: {:?}",
        sites
            .iter()
            .map(|s| (&s.variant, &s.scripts))
            .collect::<Vec<_>>()
    );

    let genuine = b"metacall::load::from_file(Tag::NodeJS, [\"index.js\"], None)";
    let sites = scan_file(LangId::Rust, genuine, "lib.rs");
    assert_eq!(sites.len(), 1, "the real load API must still be detected");
    assert_eq!(sites[0].variant, CallSiteVariant::LoadFromFile);
}

/// The script-language predicates must accept the full MetaCall client API,
/// not only `metacall` and `metacall_await`.
#[test]
fn test_scan_python_accepts_the_full_client_api() {
    let source = br#"
metacallv("multiply", 2, 3)
metacallt("multiply", "int", "int")
metacall_no_arg()
metacall_untyped("multiply", 2, 3)
metacallfms_await("x")
metacall_await_s("x", 1)
"#;
    let sites = scan_file(LangId::Python, source, "test.py");
    let names: Vec<&str> = sites
        .iter()
        .filter_map(|s| s.function_name.as_deref().or(s.target_lang.as_deref()))
        .collect();
    assert_eq!(
        sites.len(),
        6,
        "every client API name must be scanned, got {names:?}"
    );
}

/// The Go package selector must match the package exactly.
///
/// Two arguments are required: with one argument tree-sitter-go parses
/// `pkg.Fn(x)` as a type conversion, not a call.
#[test]
fn test_scan_go_single_argument_call_is_detected() {
    // This grammar parses a one argument call as a type conversion.
    let source = b"package main\nfunc main() { metacall.Call(handler) }";
    let sites = scan_file(LangId::Go, source, "main.go");
    assert_eq!(sites.len(), 1);
    assert_eq!(sites[0].variant, CallSiteVariant::ClientCall);
    assert_eq!(sites[0].function_name.as_deref(), Some("handler"));
}

#[test]
fn test_scan_go_rejects_a_lookalike_package() {
    let source = b"metacallmock.Call(\"x\", 1)";
    let sites = scan_file(LangId::Go, source, "main.go");
    assert!(sites.is_empty(), "metacallmock is not the MetaCall package");

    let genuine = b"metacall.Call(\"x\", 1)";
    let sites = scan_file(LangId::Go, genuine, "main.go");
    assert_eq!(sites.len(), 1);
    assert_eq!(sites[0].variant, CallSiteVariant::ClientCall);
}
