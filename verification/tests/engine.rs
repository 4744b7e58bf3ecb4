//! Tests of the per-unit engine: the record model, the visitor walk, the
//! persistence codec and the string helpers.

use utrace::codec::CodecError;
use utrace::record::{Record, UnsafeKind};
use utrace::visitor::{CallTarget, Node, Parser};

fn s(x: &str) -> String {
    x.to_string()
}

#[test]
fn add_item_prefixes_and_trims() {
    let mut r = Record::new(s("pkg"));
    r.add_item(UnsafeKind::Function, s("  foo "));
    assert_eq!(r.items.len(), 1);
    assert_eq!(r.items[0].name, s("pkgfoo"));
    assert!(matches!(r.items[0].kind, UnsafeKind::Function));
}

#[test]
fn add_item_dedups_by_name_first_kind_wins() {
    let mut r = Record::new(s("pkg"));
    r.add_item(UnsafeKind::Function, s("foo"));
    r.add_item(UnsafeKind::Block, s("foo"));
    r.add_item(UnsafeKind::Trait, s("foo "));
    assert_eq!(r.items.len(), 1);
    assert!(matches!(r.items[0].kind, UnsafeKind::Function));
}

#[test]
fn add_edge_groups_by_caller_in_order() {
    let mut r = Record::new(s("u"));
    r.add_edge(s("a"), s("x1"));
    r.add_edge(s("a"), s("x2"));
    r.add_edge(s("b"), s("x1"));
    r.add_edge(s("a"), s("x1"));
    assert_eq!(r.graph.len(), 2);
    assert_eq!(r.graph[0].0, s("ua"));
    assert_eq!(r.graph[0].1, vec![s("x1"), s("x2"), s("x1")]);
    assert_eq!(r.graph[1].0, s("ub"));
    assert_eq!(r.graph[1].1, vec![s("x1")]);
}

#[test]
fn codec_round_trip_preserves_record() {
    let mut r = Record::new(s("unit"));
    r.add_item(UnsafeKind::Function, s("f"));
    r.add_item(UnsafeKind::Block, s("g"));
    r.add_item(UnsafeKind::Trait, s("T"));
    r.add_item(UnsafeKind::Impl, s("I"));
    r.add_edge(s("f"), s("unitg"));
    r.add_edge(s("f"), s(""));
    r.add_edge(s("g"), s("otherh"));
    let lines = r.encode();
    let back = Record::decode(&lines).expect("round trip must decode");
    assert_eq!(back.krate, r.krate);
    assert_eq!(back.items.len(), r.items.len());
    for (a, b) in back.items.iter().zip(r.items.iter()) {
        assert_eq!(a.name, b.name);
        assert_eq!(format!("{:?}", a.kind), format!("{:?}", b.kind));
    }
    assert_eq!(back.graph, r.graph);
}

#[test]
fn codec_round_trip_empty_record() {
    let r = Record::new(s("only"));
    let lines = r.encode();
    assert_eq!(lines, vec![s("U only")]);
    let back = Record::decode(&lines).expect("empty record must decode");
    assert_eq!(back.krate, s("only"));
    assert!(back.items.is_empty());
    assert!(back.graph.is_empty());
}

#[test]
fn codec_encoding_is_line_tagged() {
    let mut r = Record::new(s("u"));
    r.add_item(UnsafeKind::Block, s("f"));
    r.add_edge(s("f"), s("ug"));
    let lines = r.encode();
    assert_eq!(lines, vec![s("U u"), s("B uf"), s("C uf"), s("E ug")]);
}

#[test]
fn codec_rejects_malformed_input() {
    assert!(matches!(Record::decode(&vec![]), Err(CodecError::Malformed)));
    assert!(matches!(
        Record::decode(&vec![s("X nonsense")]),
        Err(CodecError::Malformed)
    ));
    // Trailing junk after the graph section.
    assert!(matches!(
        Record::decode(&vec![s("U u"), s("what")]),
        Err(CodecError::Malformed)
    ));
    // A callee line before any caller line.
    assert!(matches!(
        Record::decode(&vec![s("U u"), s("E x")]),
        Err(CodecError::Malformed)
    ));
    // Duplicate item names.
    assert!(matches!(
        Record::decode(&vec![s("U u"), s("F a"), s("B a")]),
        Err(CodecError::Malformed)
    ));
    // Duplicate caller keys.
    assert!(matches!(
        Record::decode(&vec![s("U u"), s("C a"), s("C a")]),
        Err(CodecError::Malformed)
    ));
}

#[test]
fn visitor_classifies_declarations() {
    let decls = vec![
        Node::Func { path: s("::f1"), is_unsafe: true, body: vec![] },
        Node::Func {
            path: s("::f2"),
            is_unsafe: false,
            body: vec![Node::Block {
                explicit_unsafe: true,
                body: vec![],
            }],
        },
        Node::TraitDecl {
            path: s("::T"),
            is_unsafe: true,
            members: vec![Node::RequiredFn { path: s("::T::m"), is_unsafe: true }],
        },
        Node::ImplBlock {
            path: s("::I"),
            is_unsafe: true,
            members: vec![Node::Func { path: s("::I::m"), is_unsafe: true, body: vec![] }],
        },
    ];
    let mut p = Parser::new(s("u"));
    p.run(&decls);
    let row = p.record.count_items();
    // ::f1, ::T::m and ::I::m are unsafe-marked functions or methods.
    assert_eq!(row.functions, 3);
    assert_eq!(row.blocks, 1);
    assert_eq!(row.traits, 1);
    assert_eq!(row.impls, 1);
}

#[test]
fn visitor_counts_functions_independent_of_calls() {
    // An unsafe function is counted once whether it is called or not.
    let decls = vec![
        Node::Func { path: s("::a"), is_unsafe: true, body: vec![] },
        Node::Func {
            path: s("::b"),
            is_unsafe: false,
            body: vec![
                Node::Call {
                    target: Some(CallTarget { unit: s("u"), path: s("::a") }),
                },
                Node::Call {
                    target: Some(CallTarget { unit: s("u"), path: s("::a") }),
                },
            ],
        },
    ];
    let mut p = Parser::new(s("u"));
    p.run(&decls);
    let row = p.record.count_items();
    assert_eq!(row.functions, 1);
    assert_eq!(p.record.graph.len(), 1);
    assert_eq!(p.record.graph[0].0, s("u::b"));
    assert_eq!(p.record.graph[0].1, vec![s("u::a"), s("u::a")]);
}

#[test]
fn block_in_closure_attributes_to_enclosing_function() {
    // A user-marked block inside a closure inside ::f attributes to ::f.
    let decls = vec![Node::Func {
        path: s("::f"),
        is_unsafe: false,
        body: vec![Node::Closure {
            body: vec![Node::Closure {
                body: vec![Node::Block { explicit_unsafe: true, body: vec![] }],
            }],
        }],
    }];
    let mut p = Parser::new(s("u"));
    p.run(&decls);
    assert_eq!(p.record.items.len(), 1);
    assert!(matches!(p.record.items[0].kind, UnsafeKind::Block));
    assert_eq!(p.record.items[0].name, s("u::f"));
}

#[test]
fn implicit_blocks_are_not_items() {
    let decls = vec![Node::Func {
        path: s("::f"),
        is_unsafe: false,
        body: vec![Node::Block { explicit_unsafe: false, body: vec![] }],
    }];
    let mut p = Parser::new(s("u"));
    p.run(&decls);
    assert!(p.record.items.is_empty());
}

#[test]
fn unresolved_calls_and_orphan_blocks_are_skipped() {
    let decls = vec![
        Node::Func {
            path: s("::f"),
            is_unsafe: false,
            body: vec![Node::Call { target: None }],
        },
        // A block with no enclosing named function is skipped.
        Node::Block { explicit_unsafe: true, body: vec![] },
        // A call with no enclosing named function is skipped.
        Node::Call {
            target: Some(CallTarget { unit: s("u"), path: s("::g") }),
        },
    ];
    let mut p = Parser::new(s("u"));
    p.run(&decls);
    assert!(p.record.items.is_empty());
    assert!(p.record.graph.is_empty());
}

#[test]
fn cross_unit_call_keeps_callee_unit_prefix() {
    let decls = vec![Node::Func {
        path: s("::caller"),
        is_unsafe: false,
        body: vec![Node::Call {
            target: Some(CallTarget { unit: s("dep"), path: s("::callee") }),
        }],
    }];
    let mut p = Parser::new(s("main"));
    p.run(&decls);
    assert_eq!(p.record.graph[0].0, s("main::caller"));
    assert_eq!(p.record.graph[0].1, vec![s("dep::callee")]);
}

#[test]
fn trim_removes_ascii_whitespace() {
    assert_eq!(utrace::strutil::trim(" \t a b \n\r"), s("a b"));
    assert_eq!(utrace::strutil::trim("abc"), s("abc"));
    assert_eq!(utrace::strutil::trim("   "), s(""));
    assert_eq!(utrace::strutil::trim(""), s(""));
}

#[test]
fn sort_strings_orders_lexicographically() {
    let v = vec![s("b"), s("ab"), s(""), s("a"), s("ab")];
    let sorted = utrace::strutil::sort_strings(&v);
    assert_eq!(sorted, vec![s(""), s("a"), s("ab"), s("ab"), s("b")]);
}

#[test]
fn config_paths_derive_from_root() {
    assert_eq!(utrace::config::plugin_dir("r"), s("r/plugin"));
    assert_eq!(utrace::config::plugin_bin("r"), s("r/target/release/utrace_plugin"));
    assert_eq!(utrace::config::toolchain_dir("r"), s("r/toolchain"));
    assert_eq!(utrace::config::out_dir("r"), s("r/out"));
}

#[test]
fn record_path_rejects_empty_identity() {
    assert_eq!(utrace::config::record_path("d", ""), None);
    assert_eq!(utrace::config::record_path("d", "u"), Some(s("d/u.record")));
}

#[test]
fn expand_tilde_with_home() {
    let home = s("/home/me");
    assert_eq!(utrace::paths::expand_tilde_with("~", Some(&home)), s("/home/me"));
    assert_eq!(utrace::paths::expand_tilde_with("~/x/y", Some(&home)), s("/home/me/x/y"));
    assert_eq!(utrace::paths::expand_tilde_with("~x", Some(&home)), s("~x"));
    assert_eq!(utrace::paths::expand_tilde_with("/abs", Some(&home)), s("/abs"));
    assert_eq!(utrace::paths::expand_tilde_with("~/x", None), s("~/x"));
}

#[test]
fn normalize_filter_trims_entries() {
    let out = utrace::cli::normalize_filter(Some(vec![s(" a "), s("b\t")]));
    assert_eq!(out, Some(vec![s("a"), s("b")]));
    assert_eq!(utrace::cli::normalize_filter(None), None);
}

#[test]
fn codec_round_trip_with_tag_lookalike_names() {
    // Names that contain spaces or look like tag prefixes stay intact:
    // only the first two characters of a line are structure.
    let mut r = Record::new(s("u v"));
    r.add_item(UnsafeKind::Function, s("F x"));
    r.add_item(UnsafeKind::Block, s("C y"));
    r.add_edge(s("E z"), s("U w"));
    let lines = r.encode();
    let back = Record::decode(&lines).expect("tricky names must round trip");
    assert_eq!(back.krate, s("u v"));
    assert_eq!(back.items[0].name, s("u vF x"));
    assert_eq!(back.items[1].name, s("u vC y"));
    assert_eq!(back.graph[0].0, s("u vE z"));
    assert_eq!(back.graph[0].1, vec![s("U w")]);
}

#[test]
fn codec_round_trip_graph_only_record() {
    let mut r = Record::new(s("g"));
    r.add_edge(s("a"), s("gb"));
    r.add_edge(s("b"), s(""));
    let lines = r.encode();
    let back = Record::decode(&lines).expect("graph-only record must decode");
    assert!(back.items.is_empty());
    assert_eq!(back.graph, r.graph);
}
