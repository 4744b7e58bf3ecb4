//! Tests of the aggregator and reporter: the global unsafe index, the merged
//! graph, summaries, listings, and annotated call traces.

use utrace::record::{Record, UnsafeKind};
use utrace::records::{report, Records};
use utrace::visitor::{CallTarget, Node, Parser};

fn s(x: &str) -> String {
    x.to_string()
}

fn two_units() -> Records {
    // pkgA: one unsafe function foo, no calls.
    let mut a = Parser::new(s("pkgA"));
    a.run(&vec![Node::Func { path: s("foo"), is_unsafe: true, body: vec![] }]);
    // pkgB: one safe function bar that calls pkgA::foo.
    let mut b = Parser::new(s("pkgB"));
    b.run(&vec![Node::Func {
        path: s("bar"),
        is_unsafe: false,
        body: vec![Node::Call {
            target: Some(CallTarget { unit: s("pkgA"), path: s("foo") }),
        }],
    }]);
    Records::load(vec![a.record, b.record])
}

#[test]
fn two_unit_aggregation_scenario() {
    let records = two_units();
    // The global unsafe set holds exactly the qualified name pkgAfoo.
    assert!(records.is_unsafe(&s("pkgAfoo")));
    assert!(!records.is_unsafe(&s("pkgBbar")));
    assert_eq!(records.unsafe_list, vec![s("pkgAfoo")]);
    // The merged graph holds the cross-unit edge pkgBbar -> pkgAfoo.
    assert_eq!(records.call_graph.len(), 1);
    assert_eq!(records.call_graph[0].0, s("pkgBbar"));
    assert_eq!(records.call_graph[0].1, vec![s("pkgAfoo")]);
    // The call trace rooted at pkgBbar renders bar, then foo annotated.
    let trace = records.print_call_trace(&s("pkgB"));
    assert_eq!(
        trace,
        vec![
            s("## Unsafe Call Trace"),
            s("- pkgBbar"),
            s("    - pkgAfoo (unsafe)"),
        ]
    );
}

#[test]
fn is_unsafe_ignores_item_kind() {
    let mut r = Record::new(s("u"));
    r.add_item(UnsafeKind::Block, s("f"));
    r.add_item(UnsafeKind::Impl, s("I"));
    let records = Records::load(vec![r]);
    assert!(records.is_unsafe(&s("uf")));
    assert!(records.is_unsafe(&s("uI")));
    assert!(!records.is_unsafe(&s("ug")));
}

#[test]
fn check_unsafe_annotates() {
    let mut r = Record::new(s("u"));
    r.add_item(UnsafeKind::Function, s("f"));
    let records = Records::load(vec![r]);
    assert_eq!(records.check_unsafe(&s("uf")), s("uf (unsafe)"));
    assert_eq!(records.check_unsafe(&s("ug")), s("ug"));
}

#[test]
fn merged_graph_later_record_wins() {
    let mut r1 = Record::new(s("a"));
    r1.add_edge(s("k"), s("one"));
    let mut r2 = Record::new(s("a"));
    r2.add_edge(s("k"), s("two"));
    let records = Records::load(vec![r1, r2]);
    assert_eq!(records.call_graph.len(), 1);
    assert_eq!(records.call_graph[0].0, s("ak"));
    assert_eq!(records.call_graph[0].1, vec![s("two")]);
}

#[test]
fn summary_counts_by_kind() {
    let mut r = Record::new(s("u"));
    r.add_item(UnsafeKind::Function, s("f1"));
    r.add_item(UnsafeKind::Function, s("f2"));
    r.add_item(UnsafeKind::Block, s("b1"));
    r.add_item(UnsafeKind::Trait, s("t1"));
    let records = Records::load(vec![r]);
    let rows = records.summary(None);
    assert_eq!(rows.len(), 1);
    assert_eq!(rows[0].krate, s("u"));
    assert_eq!(rows[0].functions, 2);
    assert_eq!(rows[0].blocks, 1);
    assert_eq!(rows[0].impls, 0);
    assert_eq!(rows[0].traits, 1);
}

#[test]
fn summary_filter_keeps_only_named_units() {
    let r1 = Record::new(s("pkg1"));
    let r2 = Record::new(s("pkg2"));
    let records = Records::load(vec![r1, r2]);
    let rows = records.summary(Some(&vec![s("pkg1")]));
    assert_eq!(rows.len(), 1);
    assert_eq!(rows[0].krate, s("pkg1"));
    let all = records.summary(None);
    assert_eq!(all.len(), 2);
    // An explicit empty filter keeps nothing.
    let none = records.summary(Some(&vec![]));
    assert!(none.is_empty());
}

#[test]
fn listing_is_sorted_and_headed() {
    let mut r = Record::new(s("u"));
    r.add_item(UnsafeKind::Trait, s("zzz"));
    r.add_item(UnsafeKind::Function, s("mmm"));
    r.add_item(UnsafeKind::Block, s("aaa"));
    let records = Records::load(vec![r]);
    let lines = records.print_unsafe_list(None);
    assert_eq!(
        lines,
        vec![
            s("## Unsafe Item List (u)"),
            s("- type: Block, id: uaaa"),
            s("- type: Function, id: ummm"),
            s("- type: Trait, id: uzzz"),
        ]
    );
}

#[test]
fn listing_filter_matches_exactly() {
    let mut r1 = Record::new(s("p1"));
    r1.add_item(UnsafeKind::Function, s("f"));
    let r2 = Record::new(s("p2"));
    let records = Records::load(vec![r1, r2]);
    let lines = records.print_unsafe_list(Some(&vec![s("p1")]));
    assert_eq!(
        lines,
        vec![s("## Unsafe Item List (p1)"), s("- type: Function, id: p1f")]
    );
}

#[test]
fn call_trace_renders_depth_and_annotation() {
    // Root A with edges A -> B, B -> C, where only C is unsafe.
    let mut r = Record::new(s("u"));
    r.add_item(UnsafeKind::Function, s("C"));
    r.add_edge(s("A"), s("uB"));
    r.add_edge(s("B"), s("uC"));
    let records = Records::load(vec![r]);
    let trace = records.print_call_trace(&s("u"));
    assert_eq!(
        trace,
        vec![
            s("## Unsafe Call Trace"),
            s("- uA"),
            s("    - uB"),
            s("        - uC (unsafe)"),
            s("- uB"),
            s("    - uC (unsafe)"),
        ]
    );
}

#[test]
fn call_trace_marks_cycles() {
    let mut r = Record::new(s("u"));
    r.add_edge(s("A"), s("uB"));
    r.add_edge(s("B"), s("uA"));
    let records = Records::load(vec![r]);
    let trace = records.print_call_trace(&s("u"));
    assert_eq!(
        trace,
        vec![
            s("## Unsafe Call Trace"),
            s("- uA"),
            s("    - uB"),
            s("        - uA (cycle)"),
            s("- uB"),
            s("    - uA"),
            s("        - uB (cycle)"),
        ]
    );
}

#[test]
fn call_trace_skips_empty_callee() {
    let mut r = Record::new(s("u"));
    r.add_edge(s("A"), s(""));
    r.add_edge(s("A"), s("uB"));
    let records = Records::load(vec![r]);
    let trace = records.print_call_trace(&s("u"));
    assert_eq!(trace, vec![s("## Unsafe Call Trace"), s("- uA"), s("    - uB")]);
}

#[test]
fn call_trace_for_unknown_unit_renders_no_trees() {
    // An identity no record carries is out of scope: header only.
    let mut r1 = Record::new(s("p1"));
    r1.add_edge(s("A"), s("x"));
    let records = Records::load(vec![r1]);
    let trace = records.print_call_trace(&s("nope"));
    assert_eq!(trace, vec![s("## Unsafe Call Trace")]);
}

#[test]
fn call_trace_roots_are_sorted_by_name() {
    // Roots render sorted by caller name, not in insertion order.
    let mut r = Record::new(s("u"));
    r.add_edge(s("B"), s("x"));
    r.add_edge(s("A"), s("y"));
    let records = Records::load(vec![r]);
    let trace = records.print_call_trace(&s("u"));
    assert_eq!(
        trace,
        vec![
            s("## Unsafe Call Trace"),
            s("- uA"),
            s("    - y"),
            s("- uB"),
            s("    - x"),
        ]
    );
}

#[test]
fn report_toggles_sections() {
    let records = two_units();
    let r = report(&records, None, false, false);
    assert_eq!(r.summary.len(), 2);
    assert!(r.listing.is_none());
    assert!(r.call_trace.is_none());

    let r = report(&records, None, true, true);
    assert!(r.listing.is_some());
    // An absent filter puts every unit in scope: one full trace per record,
    // in record order (pkgA has no callers, so its trace is just a header).
    assert_eq!(
        r.call_trace,
        Some(vec![
            s("## Unsafe Call Trace"),
            s("## Unsafe Call Trace"),
            s("- pkgBbar"),
            s("    - pkgAfoo (unsafe)"),
        ])
    );

    let r = report(&records, Some(&vec![s("pkgB")]), false, true);
    assert_eq!(r.summary.len(), 1);
    assert_eq!(
        r.call_trace,
        Some(vec![
            s("## Unsafe Call Trace"),
            s("- pkgBbar"),
            s("    - pkgAfoo (unsafe)"),
        ])
    );
}

#[test]
fn report_repeated_filter_entry_repeats_rows() {
    let r1 = Record::new(s("p"));
    let records = Records::load(vec![r1]);
    let rows = records.summary(Some(&vec![s("p"), s("p")]));
    assert_eq!(rows.len(), 2);
}

#[test]
fn is_unsafe_reflects_persisted_records() {
    // The index answers for what was persisted: records go through the
    // codec before aggregation, as they do on disk.
    let mut a = Record::new(s("pkgA"));
    a.add_item(UnsafeKind::Block, s("foo"));
    let mut b = Record::new(s("pkgB"));
    b.add_edge(s("bar"), s("pkgAfoo"));
    let a2 = Record::decode(&a.encode()).unwrap();
    let b2 = Record::decode(&b.encode()).unwrap();
    let records = Records::load(vec![a2, b2]);
    assert!(records.is_unsafe(&s("pkgAfoo")));
    assert!(!records.is_unsafe(&s("pkgBbar")));
}
