use runnables::classify::{classify_decl, extract_test_related_attribute, runnable_kind, Candidate};
use runnables::doc::{has_runnable_example, is_runnable_info, split_chars};
use runnables::ide::{SnippetCap, TestAttr, TestId};
use runnables::source::{Attr, Definition, SemanticModel, SourceFunction, SourceModule};
use runnables::view::RunnableFuncKind;

fn attr(path: &str) -> Attr {
    Attr { path: path.to_string(), has_input: false }
}

fn function(name: &str, attrs: Vec<Attr>) -> SourceFunction {
    SourceFunction { name: name.to_string(), attrs, docs: None, canonical_path: name.to_string() }
}

#[test]
fn doc_blocks_that_run() {
    assert!(has_runnable_example("```\nfoo();\n```"));
    assert!(has_runnable_example("text\n```rust\nfoo();\n```"));
    assert!(has_runnable_example("```should_panic, edition2021\npanic!();\n```"));
    assert!(has_runnable_example("```edition2015\r\nx\r\n```\r\n"));
    assert!(has_runnable_example("```text\nnot rust\n```\n\n```rust\n1;\n```"));
}

#[test]
fn doc_blocks_that_do_not_run() {
    assert!(!has_runnable_example(""));
    assert!(!has_runnable_example("no code at all"));
    assert!(!has_runnable_example("```ignore\nx\n```"));
    assert!(!has_runnable_example("```no_run\nx\n```"));
    assert!(!has_runnable_example("```compile_fail\nx\n```"));
    assert!(!has_runnable_example("```text\nplain\n```"));
    assert!(!has_runnable_example("```rust,ignore\nx\n```"));
    assert!(!has_runnable_example("```text\n```rust\n```"));
}

#[test]
fn info_strings() {
    let v = |s: &str| s.chars().collect::<Vec<char>>();
    assert!(is_runnable_info(&v("")));
    assert!(is_runnable_info(&v(" rust , should_panic ")));
    assert!(!is_runnable_info(&v("python")));
    assert!(!is_runnable_info(&v("rust,no_run")));
    assert!(is_runnable_info(&v("rust\u{a0}")));
    assert!(is_runnable_info(&v("\u{2003}should_panic,\u{3000}rust")));
}

#[test]
fn splitting_keeps_empty_parts() {
    let parts = split_chars(&"a,,b,".chars().collect(), ',');
    let parts: Vec<String> = parts.into_iter().map(|p| p.into_iter().collect()).collect();
    assert_eq!(parts, vec!["a", "", "b", ""]);
}

#[test]
fn test_like_attributes() {
    let attrs = vec![attr("inline"), attr("tokio::test"), attr("test")];
    let found = extract_test_related_attribute(&attrs).unwrap();
    assert_eq!(found.path, "tokio::test");
    assert!(extract_test_related_attribute(&vec![attr("inline"), attr("bench")]).is_none());
    assert!(extract_test_related_attribute(&vec![]).is_none());
}

#[test]
fn function_kinds() {
    assert_eq!(runnable_kind(&function("main", vec![]), true), Some(RunnableFuncKind::Bin));
    assert_eq!(runnable_kind(&function("main", vec![]), false), None);
    assert_eq!(runnable_kind(&function("main", vec![attr("test")]), false), Some(RunnableFuncKind::Test));
    assert_eq!(runnable_kind(&function("b", vec![attr("bench")]), true), Some(RunnableFuncKind::Bench));
    assert_eq!(runnable_kind(&function("f", vec![attr("inline")]), true), None);
}

#[test]
fn classify_a_test_with_doc_example() {
    let mut f = function("t", vec![attr("test")]);
    f.docs = Some("```\n1;\n```".to_string());
    let model = SemanticModel {
        modules: vec![SourceModule {
            name: Some("krate".to_string()),
            is_inline: false,
            is_crate_root: true,
            docs: None,
            declarations: vec![Definition::Function(f)],
            impls: vec![],
        }],
        file_roots: vec![Some(0)],
    };
    let found = classify_decl(&model, 0, 0);
    assert_eq!(found.len(), 2);
    assert!(matches!(found[0], Candidate::Doctest(_)));
    assert!(matches!(&found[1], Candidate::Function { kind: RunnableFuncKind::Test, name, .. } if name == "t"));
}

#[test]
fn test_attr_ignore() {
    assert!(TestAttr::from_fn(&vec![attr("test"), attr("ignore")]).ignore);
    assert!(!TestAttr::from_fn(&vec![attr("test"), attr("ignored")]).ignore);
    assert!(!TestAttr::from_fn(&vec![]).ignore);
}

#[test]
fn snippet_cap_and_test_id() {
    assert!(SnippetCap::new(true).is_some());
    assert!(SnippetCap::new(false).is_none());
    assert_eq!(TestId::Name("t".to_string()).to_string(), "t");
    assert_eq!(TestId::Path("a::b::t".to_string()).to_string(), "a::b::t");
}
