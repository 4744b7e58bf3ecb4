//! The unsafe-usage visitor: walks one compilation unit's semantic tree and
//! fills a [`Record`] with the unsafe items found and the call edges seen.
//!
//! The tree is handed in as plain values: the host front end (whatever
//! produces it) resolves names and unsafety markers into [`Node`]s, and the
//! walk itself — classification, attribution of blocks to their nearest named
//! enclosing function, and edge emission — is verified here.

use crate::record::{
    dedup_insert, graph_push_edge, GraphModel, ItemModel, Record, UnsafeKind,
};
use crate::record::has_item_name;
use crate::records::count_kind;
use crate::strutil::{clone_string, concat_strs, trim_spec};
use vstd::prelude::*;

verus! {

/// A statically resolved call target: the defining unit's identity and the
/// target's qualified path within it.
pub struct CallTarget {
    pub unit: String,
    pub path: String,
}

/// One node of a compilation unit's semantic tree, as the host front end
/// hands it over: declarations, bodies and expressions with resolved
/// qualified paths and explicit unsafety markers.
///
/// A `Call` is a leaf carrying only its resolved target (or nothing, when
/// resolution failed); its argument expressions appear as sibling nodes.
pub enum Node {
    /// A function or method declaration with a body.
    Func { path: String, is_unsafe: bool, body: Vec<Node> },
    /// A required (declaration-only) trait method.
    RequiredFn { path: String, is_unsafe: bool },
    /// A trait declaration and its members.
    TraitDecl { path: String, is_unsafe: bool, members: Vec<Node> },
    /// A trait implementation block and its methods.
    ImplBlock { path: String, is_unsafe: bool, members: Vec<Node> },
    /// A block; `explicit_unsafe` is true only when the author opted in.
    Block { explicit_unsafe: bool, body: Vec<Node> },
    /// A closure; transparent for attribution.
    Closure { body: Vec<Node> },
    /// A call expression with its statically resolved target, if any.
    Call { target: Option<CallTarget> },
}

/// The view of an optional enclosing-function path.
pub open spec fn opt_view(encl: Option<&String>) -> Option<Seq<char>> {
    match encl {
        Some(s) => Some(s@),
        None => None,
    }
}

/// The items a walk of `n` emits, in emission order, with raw (un-prefixed,
/// untrimmed) names; `encl` is the nearest enclosing named function.
pub open spec fn node_items(n: Node, encl: Option<Seq<char>>) -> Seq<(UnsafeKind, Seq<char>)>
    decreases n,
{
    match n {
        Node::Func { path, is_unsafe, body } => (if is_unsafe {
            seq![(UnsafeKind::Function, path@)]
        } else {
            Seq::empty()
        }) + nodes_items(body@, Some(path@)),
        Node::RequiredFn { path, is_unsafe } => if is_unsafe {
            seq![(UnsafeKind::Function, path@)]
        } else {
            Seq::empty()
        },
        Node::TraitDecl { path, is_unsafe, members } => (if is_unsafe {
            seq![(UnsafeKind::Trait, path@)]
        } else {
            Seq::empty()
        }) + nodes_items(members@, encl),
        Node::ImplBlock { path, is_unsafe, members } => (if is_unsafe {
            seq![(UnsafeKind::Impl, path@)]
        } else {
            Seq::empty()
        }) + nodes_items(members@, encl),
        Node::Block { explicit_unsafe, body } => (if explicit_unsafe && encl is Some {
            seq![(UnsafeKind::Block, encl.unwrap())]
        } else {
            Seq::empty()
        }) + nodes_items(body@, encl),
        Node::Closure { body } => nodes_items(body@, encl),
        Node::Call { .. } => Seq::empty(),
    }
}

/// The items a walk of the sibling sequence `s` emits.
pub open spec fn nodes_items(s: Seq<Node>, encl: Option<Seq<char>>) -> Seq<(UnsafeKind, Seq<char>)>
    decreases s,
{
    if s.len() == 0 {
        Seq::empty()
    } else {
        node_items(s[0], encl) + nodes_items(s.drop_first(), encl)
    }
}

/// The raw edges a walk of `n` emits: caller path (un-prefixed) and callee
/// name (already prefixed with the callee's own defining unit).
pub open spec fn node_edges(n: Node, encl: Option<Seq<char>>) -> Seq<(Seq<char>, Seq<char>)>
    decreases n,
{
    match n {
        Node::Func { path, body, .. } => nodes_edges(body@, Some(path@)),
        Node::RequiredFn { .. } => Seq::empty(),
        Node::TraitDecl { members, .. } => nodes_edges(members@, encl),
        Node::ImplBlock { members, .. } => nodes_edges(members@, encl),
        Node::Block { body, .. } => nodes_edges(body@, encl),
        Node::Closure { body } => nodes_edges(body@, encl),
        Node::Call { target } => if target is Some && encl is Some {
            seq![(encl.unwrap(), target.unwrap().unit@ + target.unwrap().path@)]
        } else {
            Seq::empty()
        },
    }
}

/// The raw edges a walk of the sibling sequence `s` emits.
pub open spec fn nodes_edges(s: Seq<Node>, encl: Option<Seq<char>>) -> Seq<(Seq<char>, Seq<char>)>
    decreases s,
{
    if s.len() == 0 {
        Seq::empty()
    } else {
        node_edges(s[0], encl) + nodes_edges(s.drop_first(), encl)
    }
}

/// Folds raw item emissions into an item sequence the way `Record::add_item`
/// does: trim, prefix with the unit identity, then insert deduplicating by
/// name.
pub open spec fn apply_items(
    items: Seq<ItemModel>,
    unit: Seq<char>,
    emits: Seq<(UnsafeKind, Seq<char>)>,
) -> Seq<ItemModel>
    decreases emits.len(),
{
    if emits.len() == 0 {
        items
    } else {
        apply_items(
            dedup_insert(items, emits[0].0, unit + trim_spec(emits[0].1)),
            unit,
            emits.drop_first(),
        )
    }
}

/// Folds raw edge emissions into a graph the way `Record::add_edge` does:
/// prefix the caller with the unit identity and append the callee.
pub open spec fn apply_edges(
    g: GraphModel,
    unit: Seq<char>,
    emits: Seq<(Seq<char>, Seq<char>)>,
) -> GraphModel
    decreases emits.len(),
{
    if emits.len() == 0 {
        g
    } else {
        apply_edges(graph_push_edge(g, unit + emits[0].0, emits[0].1), unit, emits.drop_first())
    }
}

proof fn lemma_apply_items_concat(
    items: Seq<ItemModel>,
    unit: Seq<char>,
    a: Seq<(UnsafeKind, Seq<char>)>,
    b: Seq<(UnsafeKind, Seq<char>)>,
)
    ensures
        apply_items(items, unit, a + b) == apply_items(apply_items(items, unit, a), unit, b),
    decreases a.len(),
{
    if a.len() == 0 {
        assert(a + b =~= b);
    } else {
        assert((a + b)[0] == a[0]);
        assert((a + b).drop_first() =~= a.drop_first() + b);
        lemma_apply_items_concat(
            dedup_insert(items, a[0].0, unit + trim_spec(a[0].1)),
            unit,
            a.drop_first(),
            b,
        );
    }
}

proof fn lemma_apply_edges_concat(
    g: GraphModel,
    unit: Seq<char>,
    a: Seq<(Seq<char>, Seq<char>)>,
    b: Seq<(Seq<char>, Seq<char>)>,
)
    ensures
        apply_edges(g, unit, a + b) == apply_edges(apply_edges(g, unit, a), unit, b),
    decreases a.len(),
{
    if a.len() == 0 {
        assert(a + b =~= b);
    } else {
        assert((a + b)[0] == a[0]);
        assert((a + b).drop_first() =~= a.drop_first() + b);
        lemma_apply_edges_concat(
            graph_push_edge(g, unit + a[0].0, a[0].1),
            unit,
            a.drop_first(),
            b,
        );
    }
}

proof fn lemma_nodes_items_concat(a: Seq<Node>, b: Seq<Node>, encl: Option<Seq<char>>)
    ensures
        nodes_items(a + b, encl) == nodes_items(a, encl) + nodes_items(b, encl),
    decreases a.len(),
{
    if a.len() == 0 {
        assert(a + b =~= b);
        assert(nodes_items(a, encl) + nodes_items(b, encl) =~= nodes_items(b, encl));
    } else {
        assert((a + b)[0] == a[0]);
        assert((a + b).drop_first() =~= a.drop_first() + b);
        lemma_nodes_items_concat(a.drop_first(), b, encl);
        assert(node_items(a[0], encl) + (nodes_items(a.drop_first(), encl) + nodes_items(b, encl))
            =~= (node_items(a[0], encl) + nodes_items(a.drop_first(), encl)) + nodes_items(
            b,
            encl,
        ));
    }
}

proof fn lemma_nodes_edges_concat(a: Seq<Node>, b: Seq<Node>, encl: Option<Seq<char>>)
    ensures
        nodes_edges(a + b, encl) == nodes_edges(a, encl) + nodes_edges(b, encl),
    decreases a.len(),
{
    if a.len() == 0 {
        assert(a + b =~= b);
        assert(nodes_edges(a, encl) + nodes_edges(b, encl) =~= nodes_edges(b, encl));
    } else {
        assert((a + b)[0] == a[0]);
        assert((a + b).drop_first() =~= a.drop_first() + b);
        lemma_nodes_edges_concat(a.drop_first(), b, encl);
        assert(node_edges(a[0], encl) + (nodes_edges(a.drop_first(), encl) + nodes_edges(b, encl))
            =~= (node_edges(a[0], encl) + nodes_edges(a.drop_first(), encl)) + nodes_edges(
            b,
            encl,
        ));
    }
}

/// One visitor pass over a unit's tree, accumulating into a [`Record`].
pub struct Parser {
    pub record: Record,
}

impl Parser {
    /// A fresh pass for the unit `krate`, starting from an empty record.
    pub fn new(krate: String) -> (r: Self)
        ensures
            r.record.krate@ == krate@,
            r.record.items_model() =~= Seq::<ItemModel>::empty(),
            r.record.graph_model() =~= Seq::<(Seq<char>, Seq<Seq<char>>)>::empty(),
            r.record.wf(),
    {
        Parser { record: Record::new(krate) }
    }

    /// Walks the whole tree of the unit, once.
    pub fn run(&mut self, decls: &Vec<Node>)
        requires
            old(self).record.wf(),
        ensures
            final(self).record.wf(),
            final(self).record.krate@ == old(self).record.krate@,
            final(self).record.items_model() == apply_items(
                old(self).record.items_model(),
                old(self).record.krate@,
                nodes_items(decls@, None),
            ),
            final(self).record.graph_model() == apply_edges(
                old(self).record.graph_model(),
                old(self).record.krate@,
                nodes_edges(decls@, None),
            ),
    {
        visit_nodes(&mut self.record, decls, None);
    }
}

/// Walks one node: classifies it, emits its item or edge, and descends into
/// its children with the right enclosing function.
#[verifier::loop_isolation(false)]
fn visit_node(record: &mut Record, n: &Node, encl: Option<&String>)
    requires
        old(record).wf(),
    ensures
        final(record).wf(),
        final(record).krate@ == old(record).krate@,
        final(record).items_model() == apply_items(
            old(record).items_model(),
            old(record).krate@,
            node_items(*n, opt_view(encl)),
        ),
        final(record).graph_model() == apply_edges(
            old(record).graph_model(),
            old(record).krate@,
            node_edges(*n, opt_view(encl)),
        ),
    decreases *n,
{
    let ghost items0 = old(record).items_model();
    let ghost graph0 = old(record).graph_model();
    let ghost unit = old(record).krate@;
    let ghost e_items = node_items(*n, opt_view(encl));
    let ghost e_edges = node_edges(*n, opt_view(encl));
    match n {
        Node::Func { path, is_unsafe, body } => {
            if *is_unsafe {
                record.add_item(UnsafeKind::Function, clone_string(path));
                proof {
                    assert(e_items[0] == (UnsafeKind::Function, path@));
                    assert(e_items.drop_first() =~= nodes_items(body@, Some(path@)));
                    assert(apply_items(items0, unit, e_items) == apply_items(
                        record.items_model(),
                        unit,
                        nodes_items(body@, Some(path@)),
                    ));
                }
            } else {
                proof {
                    assert(e_items =~= nodes_items(body@, Some(path@)));
                }
            }
            proof {
                assert(e_edges =~= nodes_edges(body@, Some(path@)));
            }
            visit_nodes(record, body, Some(path));
            proof {
                assert(record.items_model() == apply_items(items0, unit, e_items));
                assert(record.graph_model() == apply_edges(graph0, unit, e_edges));
            }
        },
        Node::RequiredFn { path, is_unsafe } => {
            if *is_unsafe {
                record.add_item(UnsafeKind::Function, clone_string(path));
                proof {
                    assert(e_items[0] == (UnsafeKind::Function, path@));
                    assert(e_items.drop_first() =~= Seq::<(UnsafeKind, Seq<char>)>::empty());
                    let mid = dedup_insert(items0, UnsafeKind::Function, unit + trim_spec(path@));
                    assert(apply_items(items0, unit, e_items) == apply_items(
                        mid,
                        unit,
                        e_items.drop_first(),
                    ));
                    assert(apply_items(mid, unit, e_items.drop_first()) == mid);
                    assert(record.items_model() == apply_items(items0, unit, e_items));
                }
            } else {
                proof {
                    assert(e_items =~= Seq::<(UnsafeKind, Seq<char>)>::empty());
                }
            }
            proof {
                assert(e_edges =~= Seq::<(Seq<char>, Seq<char>)>::empty());
                assert(record.items_model() == apply_items(items0, unit, e_items));
                assert(record.graph_model() == apply_edges(graph0, unit, e_edges));
            }
        },
        Node::TraitDecl { path, is_unsafe, members } => {
            if *is_unsafe {
                record.add_item(UnsafeKind::Trait, clone_string(path));
                proof {
                    assert(e_items[0] == (UnsafeKind::Trait, path@));
                    assert(e_items.drop_first() =~= nodes_items(members@, opt_view(encl)));
                    assert(apply_items(items0, unit, e_items) == apply_items(
                        record.items_model(),
                        unit,
                        nodes_items(members@, opt_view(encl)),
                    ));
                }
            } else {
                proof {
                    assert(e_items =~= nodes_items(members@, opt_view(encl)));
                }
            }
            proof {
                assert(e_edges =~= nodes_edges(members@, opt_view(encl)));
            }
            visit_nodes(record, members, encl);
            proof {
                assert(record.items_model() == apply_items(items0, unit, e_items));
                assert(record.graph_model() == apply_edges(graph0, unit, e_edges));
            }
        },
        Node::ImplBlock { path, is_unsafe, members } => {
            if *is_unsafe {
                record.add_item(UnsafeKind::Impl, clone_string(path));
                proof {
                    assert(e_items[0] == (UnsafeKind::Impl, path@));
                    assert(e_items.drop_first() =~= nodes_items(members@, opt_view(encl)));
                    assert(apply_items(items0, unit, e_items) == apply_items(
                        record.items_model(),
                        unit,
                        nodes_items(members@, opt_view(encl)),
                    ));
                }
            } else {
                proof {
                    assert(e_items =~= nodes_items(members@, opt_view(encl)));
                }
            }
            proof {
                assert(e_edges =~= nodes_edges(members@, opt_view(encl)));
            }
            visit_nodes(record, members, encl);
            proof {
                assert(record.items_model() == apply_items(items0, unit, e_items));
                assert(record.graph_model() == apply_edges(graph0, unit, e_edges));
            }
        },
        Node::Block { explicit_unsafe, body } => {
            if *explicit_unsafe {
                match encl {
                    Some(f) => {
                        record.add_item(UnsafeKind::Block, clone_string(f));
                        proof {
                            assert(e_items[0] == (UnsafeKind::Block, f@));
                            assert(e_items.drop_first() =~= nodes_items(body@, opt_view(encl)));
                            assert(apply_items(items0, unit, e_items) == apply_items(
                                record.items_model(),
                                unit,
                                nodes_items(body@, opt_view(encl)),
                            ));
                        }
                    },
                    None => {
                        proof {
                            assert(e_items =~= nodes_items(body@, opt_view(encl)));
                        }
                    },
                }
            } else {
                proof {
                    assert(e_items =~= nodes_items(body@, opt_view(encl)));
                }
            }
            proof {
                assert(e_edges =~= nodes_edges(body@, opt_view(encl)));
            }
            visit_nodes(record, body, encl);
            proof {
                assert(record.items_model() == apply_items(items0, unit, e_items));
                assert(record.graph_model() == apply_edges(graph0, unit, e_edges));
            }
        },
        Node::Closure { body } => {
            proof {
                assert(e_items =~= nodes_items(body@, opt_view(encl)));
                assert(e_edges =~= nodes_edges(body@, opt_view(encl)));
            }
            visit_nodes(record, body, encl);
            proof {
                assert(record.items_model() == apply_items(items0, unit, e_items));
                assert(record.graph_model() == apply_edges(graph0, unit, e_edges));
            }
        },
        Node::Call { target } => {
            match target {
                Some(t) => {
                    match encl {
                        Some(f) => {
                            let callee = concat_strs(t.unit.as_str(), t.path.as_str());
                            record.add_edge(clone_string(f), callee);
                            proof {
                                assert(e_edges[0] == (f@, t.unit@ + t.path@));
                                assert(e_edges.drop_first() =~= Seq::<(
                                    Seq<char>,
                                    Seq<char>,
                                )>::empty());
                                let mid = graph_push_edge(graph0, unit + f@, t.unit@ + t.path@);
                                assert(apply_edges(graph0, unit, e_edges) == apply_edges(
                                    mid,
                                    unit,
                                    e_edges.drop_first(),
                                ));
                                assert(apply_edges(mid, unit, e_edges.drop_first()) == mid);
                                assert(record.graph_model() == apply_edges(
                                    graph0,
                                    unit,
                                    e_edges,
                                ));
                            }
                        },
                        None => {
                            proof {
                                assert(e_edges =~= Seq::<(Seq<char>, Seq<char>)>::empty());
                            }
                        },
                    }
                },
                None => {
                    proof {
                        assert(e_edges =~= Seq::<(Seq<char>, Seq<char>)>::empty());
                    }
                },
            }
            proof {
                assert(e_items =~= Seq::<(UnsafeKind, Seq<char>)>::empty());
                assert(record.items_model() == apply_items(items0, unit, e_items));
                assert(record.graph_model() == apply_edges(graph0, unit, e_edges));
            }
        },
    }
}

/// Walks a sibling sequence left to right.
#[verifier::loop_isolation(false)]
fn visit_nodes(record: &mut Record, nodes: &Vec<Node>, encl: Option<&String>)
    requires
        old(record).wf(),
    ensures
        final(record).wf(),
        final(record).krate@ == old(record).krate@,
        final(record).items_model() == apply_items(
            old(record).items_model(),
            old(record).krate@,
            nodes_items(nodes@, opt_view(encl)),
        ),
        final(record).graph_model() == apply_edges(
            old(record).graph_model(),
            old(record).krate@,
            nodes_edges(nodes@, opt_view(encl)),
        ),
    decreases nodes@,
{
    let n = nodes.len();
    let mut i: usize = 0;
    while i < n
        invariant
            n == nodes@.len(),
            0 <= i <= n,
            record.wf(),
            record.krate@ == old(record).krate@,
            record.items_model() == apply_items(
                old(record).items_model(),
                old(record).krate@,
                nodes_items(nodes@.take(i as int), opt_view(encl)),
            ),
            record.graph_model() == apply_edges(
                old(record).graph_model(),
                old(record).krate@,
                nodes_edges(nodes@.take(i as int), opt_view(encl)),
            ),
        decreases n - i,
    {
        let ghost pre_items = record.items_model();
        let ghost pre_graph = record.graph_model();
        visit_node(record, &nodes[i], encl);
        proof {
            let unit = old(record).krate@;
            let e = opt_view(encl);
            assert(nodes@.take(i + 1) =~= nodes@.take(i as int) + seq![nodes@[i as int]]);
            lemma_nodes_items_concat(nodes@.take(i as int), seq![nodes@[i as int]], e);
            lemma_nodes_edges_concat(nodes@.take(i as int), seq![nodes@[i as int]], e);
            assert(seq![nodes@[i as int]].drop_first() =~= Seq::<Node>::empty());
            assert(nodes_items(seq![nodes@[i as int]], e) =~= node_items(nodes@[i as int], e)) by {
                assert(seq![nodes@[i as int]][0] == nodes@[i as int]);
                assert(nodes_items(Seq::<Node>::empty(), e) =~= Seq::<(
                    UnsafeKind,
                    Seq<char>,
                )>::empty());
            }
            assert(nodes_edges(seq![nodes@[i as int]], e) =~= node_edges(nodes@[i as int], e)) by {
                assert(seq![nodes@[i as int]][0] == nodes@[i as int]);
                assert(nodes_edges(Seq::<Node>::empty(), e) =~= Seq::<(
                    Seq<char>,
                    Seq<char>,
                )>::empty());
            }
            lemma_apply_items_concat(
                old(record).items_model(),
                unit,
                nodes_items(nodes@.take(i as int), e),
                node_items(nodes@[i as int], e),
            );
            lemma_apply_edges_concat(
                old(record).graph_model(),
                unit,
                nodes_edges(nodes@.take(i as int), e),
                node_edges(nodes@[i as int], e),
            );
        }
        i = i + 1;
    }
    proof {
        assert(nodes@.take(n as int) =~= nodes@);
    }
}


/// The number of unsafe-marked function and method declarations in a node's
/// subtree, required trait methods included, whether or not any of them is
/// ever called.
pub open spec fn count_unsafe_fns(n: Node) -> int
    decreases n,
{
    match n {
        Node::Func { is_unsafe, body, .. } => (if is_unsafe {
            1int
        } else {
            0int
        }) + count_unsafe_fns_seq(body@),
        Node::RequiredFn { is_unsafe, .. } => if is_unsafe {
            1int
        } else {
            0int
        },
        Node::TraitDecl { members, .. } => count_unsafe_fns_seq(members@),
        Node::ImplBlock { members, .. } => count_unsafe_fns_seq(members@),
        Node::Block { body, .. } => count_unsafe_fns_seq(body@),
        Node::Closure { body } => count_unsafe_fns_seq(body@),
        Node::Call { .. } => 0,
    }
}

/// The unsafe-function count over a sibling sequence.
pub open spec fn count_unsafe_fns_seq(s: Seq<Node>) -> int
    decreases s,
{
    if s.len() == 0 {
        0
    } else {
        count_unsafe_fns(s[0]) + count_unsafe_fns_seq(s.drop_first())
    }
}

/// The number of Function-kind emissions in a raw emission sequence.
pub open spec fn count_fn_emits(emits: Seq<(UnsafeKind, Seq<char>)>) -> int
    decreases emits.len(),
{
    if emits.len() == 0 {
        0
    } else {
        (if emits[0].0 == UnsafeKind::Function {
            1int
        } else {
            0int
        }) + count_fn_emits(emits.drop_first())
    }
}

proof fn lemma_count_fn_emits_concat(a: Seq<(UnsafeKind, Seq<char>)>, b: Seq<(UnsafeKind, Seq<char>)>)
    ensures
        count_fn_emits(a + b) == count_fn_emits(a) + count_fn_emits(b),
    decreases a.len(),
{
    if a.len() == 0 {
        assert(a + b =~= b);
    } else {
        assert((a + b)[0] == a[0]);
        assert((a + b).drop_first() =~= a.drop_first() + b);
        lemma_count_fn_emits_concat(a.drop_first(), b);
    }
}

proof fn lemma_count_fn_emits_single(x: (UnsafeKind, Seq<char>))
    ensures
        count_fn_emits(seq![x]) == (if x.0 == UnsafeKind::Function {
            1int
        } else {
            0int
        }),
{
    assert(seq![x].drop_first() =~= Seq::<(UnsafeKind, Seq<char>)>::empty());
    assert(count_fn_emits(Seq::<(UnsafeKind, Seq<char>)>::empty()) == 0);
}

proof fn lemma_node_fn_emits(n: Node, encl: Option<Seq<char>>)
    ensures
        count_fn_emits(node_items(n, encl)) == count_unsafe_fns(n),
    decreases n,
{
    match n {
        Node::Func { path, is_unsafe, body } => {
            lemma_nodes_fn_emits(body@, Some(path@));
            if is_unsafe {
                lemma_count_fn_emits_concat(
                    seq![(UnsafeKind::Function, path@)],
                    nodes_items(body@, Some(path@)),
                );
                lemma_count_fn_emits_single((UnsafeKind::Function, path@));
            } else {
                assert(node_items(n, encl) =~= nodes_items(body@, Some(path@)));
            }
        },
        Node::RequiredFn { path, is_unsafe } => {
            if is_unsafe {
                lemma_count_fn_emits_single((UnsafeKind::Function, path@));
                assert(node_items(n, encl) =~= seq![(UnsafeKind::Function, path@)]);
            }
        },
        Node::TraitDecl { path, is_unsafe, members } => {
            lemma_nodes_fn_emits(members@, encl);
            if is_unsafe {
                lemma_count_fn_emits_concat(
                    seq![(UnsafeKind::Trait, path@)],
                    nodes_items(members@, encl),
                );
                lemma_count_fn_emits_single((UnsafeKind::Trait, path@));
            } else {
                assert(node_items(n, encl) =~= nodes_items(members@, encl));
            }
        },
        Node::ImplBlock { path, is_unsafe, members } => {
            lemma_nodes_fn_emits(members@, encl);
            if is_unsafe {
                lemma_count_fn_emits_concat(
                    seq![(UnsafeKind::Impl, path@)],
                    nodes_items(members@, encl),
                );
                lemma_count_fn_emits_single((UnsafeKind::Impl, path@));
            } else {
                assert(node_items(n, encl) =~= nodes_items(members@, encl));
            }
        },
        Node::Block { explicit_unsafe, body } => {
            lemma_nodes_fn_emits(body@, encl);
            if explicit_unsafe && encl is Some {
                lemma_count_fn_emits_concat(
                    seq![(UnsafeKind::Block, encl.unwrap())],
                    nodes_items(body@, encl),
                );
                lemma_count_fn_emits_single((UnsafeKind::Block, encl.unwrap()));
            } else {
                assert(node_items(n, encl) =~= nodes_items(body@, encl));
            }
        },
        Node::Closure { body } => {
            lemma_nodes_fn_emits(body@, encl);
        },
        Node::Call { .. } => {
        },
    }
}

proof fn lemma_nodes_fn_emits(s: Seq<Node>, encl: Option<Seq<char>>)
    ensures
        count_fn_emits(nodes_items(s, encl)) == count_unsafe_fns_seq(s),
    decreases s,
{
    if s.len() > 0 {
        lemma_node_fn_emits(s[0], encl);
        lemma_nodes_fn_emits(s.drop_first(), encl);
        lemma_count_fn_emits_concat(node_items(s[0], encl), nodes_items(s.drop_first(), encl));
    }
}

/// Freshness of the Function emissions: no Function emission's qualified
/// name is already filed, nor emitted earlier in the walk. This is what the
/// name-keyed deduplication needs; `lemma_function_count_of_tree` derives it
/// from pairwise-distinct qualified declaration paths.
pub open spec fn fn_fresh(
    items: Seq<ItemModel>,
    unit: Seq<char>,
    emits: Seq<(UnsafeKind, Seq<char>)>,
) -> bool {
    forall|k: int|
        0 <= k < emits.len() && (#[trigger] emits[k]).0 == UnsafeKind::Function ==> (
        !has_item_name(items, unit + trim_spec(emits[k].1)) && (forall|l: int|
            0 <= l < k ==> unit + trim_spec((#[trigger] emits[l]).1) != unit + trim_spec(
                emits[k].1,
            )))
}

proof fn lemma_count_kind_push(items: Seq<ItemModel>, x: ItemModel, k: UnsafeKind)
    ensures
        count_kind(items.push(x), k) == count_kind(items, k) + (if x.0 == k {
            1int
        } else {
            0int
        }),
{
    assert(items.push(x).drop_last() =~= items);
    assert(items.push(x).last() == x);
}

proof fn lemma_apply_items_fn_count(
    items: Seq<ItemModel>,
    unit: Seq<char>,
    emits: Seq<(UnsafeKind, Seq<char>)>,
)
    requires
        fn_fresh(items, unit, emits),
    ensures
        count_kind(apply_items(items, unit, emits), UnsafeKind::Function) == count_kind(
            items,
            UnsafeKind::Function,
        ) + count_fn_emits(emits),
    decreases emits.len(),
{
    if emits.len() > 0 {
        let e0 = emits[0];
        let name0 = unit + trim_spec(e0.1);
        let items1 = dedup_insert(items, e0.0, name0);
        if has_item_name(items, name0) {
            assert(items1 == items);
            assert(e0.0 != UnsafeKind::Function);
        } else {
            assert(items1 == items.push((e0.0, name0)));
            lemma_count_kind_push(items, (e0.0, name0), UnsafeKind::Function);
        }
        assert(fn_fresh(items1, unit, emits.drop_first())) by {
            let rest = emits.drop_first();
            assert forall|k: int|
                0 <= k < rest.len() && (#[trigger] rest[k]).0 == UnsafeKind::Function implies (
            !has_item_name(items1, unit + trim_spec(rest[k].1)) && (forall|l: int|
                0 <= l < k ==> unit + trim_spec((#[trigger] rest[l]).1) != unit + trim_spec(
                    rest[k].1,
                ))) by {
                assert(rest[k] == emits[k + 1]);
                let nk = unit + trim_spec(rest[k].1);
                assert(!has_item_name(items, nk));
                assert(unit + trim_spec(emits[0].1) != nk);
                assert(!has_item_name(items1, nk)) by {
                    if has_item_name(items1, nk) {
                        let w = choose|w: int|
                            0 <= w < items1.len() && (#[trigger] items1[w]).1 == nk;
                        if w < items.len() {
                            assert(items[w].1 == nk);
                        } else {
                            assert(items1[w].1 == name0);
                        }
                    }
                }
                assert forall|l: int| 0 <= l < k implies unit + trim_spec((#[trigger] rest[l]).1)
                    != unit + trim_spec(rest[k].1) by {
                    assert(rest[l] == emits[l + 1]);
                    assert(unit + trim_spec(emits[l + 1].1) != unit + trim_spec(emits[k + 1].1));
                }
            }
        }
        lemma_apply_items_fn_count(items1, unit, emits.drop_first());
    }
}

/// For every analyzed unit, the number of Function-kind items in the record
/// the walk builds equals the number of unsafe-marked function and method
/// declarations in the unit's tree — independent of how many are ever
/// called, and untouched by the name-keyed deduplication, as long as the
/// unsafe functions' qualified names are fresh (which unique symbol paths
/// guarantee).
pub proof fn lemma_function_count(decls: Seq<Node>, unit: Seq<char>)
    requires
        fn_fresh(Seq::empty(), unit, nodes_items(decls, None)),
    ensures
        count_kind(
            apply_items(Seq::empty(), unit, nodes_items(decls, None)),
            UnsafeKind::Function,
        ) == count_unsafe_fns_seq(decls),
{
    lemma_nodes_fn_emits(decls, None);
    lemma_apply_items_fn_count(Seq::empty(), unit, nodes_items(decls, None));
}

/// The body of a closure node; empty for any other node.
pub open spec fn closure_body(n: Node) -> Seq<Node> {
    match n {
        Node::Closure { body } => body@,
        _ => Seq::empty(),
    }
}

/// The declared path of a function node; empty for any other node.
pub open spec fn func_path(n: Node) -> Seq<char> {
    match n {
        Node::Func { path, .. } => path@,
        _ => Seq::empty(),
    }
}

/// The body of a function node; empty for any other node.
pub open spec fn func_body(n: Node) -> Seq<Node> {
    match n {
        Node::Func { body, .. } => body@,
        _ => Seq::empty(),
    }
}

/// A closure is transparent for attribution: wrapping nodes in a closure
/// changes neither the items nor the edges the walk emits, so a block nested
/// in a closure still attributes to the enclosing named function.
pub proof fn lemma_closure_transparent(n: Node, encl: Option<Seq<char>>)
    requires
        n is Closure,
    ensures
        node_items(n, encl) == nodes_items(closure_body(n), encl),
        node_edges(n, encl) == nodes_edges(closure_body(n), encl),
{
}

/// True when the subtree nests only blocks, closures and calls: no further
/// named function, trait or implementation that could capture attribution.
pub open spec fn closure_only(n: Node) -> bool
    decreases n,
{
    match n {
        Node::Block { body, .. } => closure_only_seq(body@),
        Node::Closure { body } => closure_only_seq(body@),
        Node::Call { .. } => true,
        _ => false,
    }
}

/// `closure_only` over a sibling sequence.
pub open spec fn closure_only_seq(s: Seq<Node>) -> bool
    decreases s,
{
    s.len() == 0 || (closure_only(s[0]) && closure_only_seq(s.drop_first()))
}

proof fn lemma_blocks_attr_node(n: Node, p: Seq<char>)
    requires
        closure_only(n),
    ensures
        forall|k: int|
            0 <= k < node_items(n, Some(p)).len() ==> #[trigger] node_items(n, Some(p))[k] == (
            UnsafeKind::Block,
            p,
            ),
    decreases n,
{
    match n {
        Node::Block { explicit_unsafe, body } => {
            lemma_blocks_attr_seq(body@, p);
            let e: Option<Seq<char>> = Some(p);
            let b = nodes_items(body@, e);
            if explicit_unsafe {
                assert(node_items(n, e) =~= seq![(UnsafeKind::Block, p)] + b);
                assert forall|k: int| 0 <= k < node_items(n, e).len()
                    implies #[trigger] node_items(n, e)[k] == (UnsafeKind::Block, p) by {
                    if k == 0 {
                        assert(node_items(n, e)[0] == (UnsafeKind::Block, p));
                    } else {
                        assert(node_items(n, e)[k] == b[k - 1]);
                    }
                }
            } else {
                assert(node_items(n, e) =~= b);
                assert forall|k: int| 0 <= k < node_items(n, e).len()
                    implies #[trigger] node_items(n, e)[k] == (UnsafeKind::Block, p) by {
                    assert(node_items(n, e)[k] == b[k]);
                }
            }
        },
        Node::Closure { body } => {
            lemma_blocks_attr_seq(body@, p);
            let e: Option<Seq<char>> = Some(p);
            let b = nodes_items(body@, e);
            assert(node_items(n, e) == b);
            assert forall|k: int| 0 <= k < node_items(n, e).len()
                implies #[trigger] node_items(n, e)[k] == (UnsafeKind::Block, p) by {
                assert(node_items(n, e)[k] == b[k]);
            }
        },
        _ => {
        },
    }
}

proof fn lemma_blocks_attr_seq(s: Seq<Node>, p: Seq<char>)
    requires
        closure_only_seq(s),
    ensures
        forall|k: int|
            0 <= k < nodes_items(s, Some(p)).len() ==> #[trigger] nodes_items(s, Some(p))[k] == (
            UnsafeKind::Block,
            p,
            ),
    decreases s,
{
    if s.len() > 0 {
        lemma_blocks_attr_node(s[0], p);
        lemma_blocks_attr_seq(s.drop_first(), p);
        let a = node_items(s[0], Some(p));
        let b = nodes_items(s.drop_first(), Some(p));
        assert(nodes_items(s, Some(p)) == a + b);
        assert forall|k: int| 0 <= k < nodes_items(s, Some(p)).len()
            implies #[trigger] nodes_items(s, Some(p))[k] == (UnsafeKind::Block, p) by {
            if k < a.len() {
                assert(nodes_items(s, Some(p))[k] == a[k]);
            } else {
                assert(nodes_items(s, Some(p))[k] == b[k - a.len()]);
            }
        }
    }
}

/// A block unsafe-marked inside function `f` always attributes to `f`'s own
/// path, even when nested inside inner closures and blocks to any depth:
/// with a body that nests only blocks, closures and calls, every Block item
/// the walk of `f` emits carries `f`'s path.
pub proof fn lemma_block_attribution(n: Node, encl: Option<Seq<char>>)
    requires
        n is Func,
        closure_only_seq(func_body(n)),
    ensures
        forall|k: int|
            0 <= k < node_items(n, encl).len() && (#[trigger] node_items(n, encl)[k]).0
                == UnsafeKind::Block ==> node_items(n, encl)[k].1 == func_path(n),
{
    match n {
        Node::Func { path, is_unsafe, body } => {
            lemma_blocks_attr_seq(body@, path@);
            if is_unsafe {
                assert(node_items(n, encl) =~= seq![(UnsafeKind::Function, path@)] + nodes_items(
                    body@,
                    Some(path@),
                ));
                assert forall|k: int|
                    0 <= k < node_items(n, encl).len() && (#[trigger] node_items(n, encl)[k]).0
                        == UnsafeKind::Block implies node_items(n, encl)[k].1 == func_path(n) by {
                    if k > 0 {
                        assert(node_items(n, encl)[k] == nodes_items(body@, Some(path@))[k - 1]);
                    }
                }
            } else {
                assert(node_items(n, encl) =~= nodes_items(body@, Some(path@)));
            }
        },
        _ => {
        },
    }
}


/// The unit-qualified form of a raw declaration path, as `add_item` files it.
pub open spec fn qualify(unit: Seq<char>, p: Seq<char>) -> Seq<char> {
    unit + trim_spec(p)
}

/// The paths of every declaration in a node's subtree that can lend an item
/// its name: functions and methods, required trait methods, trait
/// declarations and implementation blocks, in walk order.
pub open spec fn decl_paths(n: Node) -> Seq<Seq<char>>
    decreases n,
{
    match n {
        Node::Func { path, body, .. } => seq![path@] + decl_paths_seq(body@),
        Node::RequiredFn { path, .. } => seq![path@],
        Node::TraitDecl { path, members, .. } => seq![path@] + decl_paths_seq(members@),
        Node::ImplBlock { path, members, .. } => seq![path@] + decl_paths_seq(members@),
        Node::Block { body, .. } => decl_paths_seq(body@),
        Node::Closure { body } => decl_paths_seq(body@),
        Node::Call { .. } => Seq::empty(),
    }
}

/// `decl_paths` over a sibling sequence.
pub open spec fn decl_paths_seq(s: Seq<Node>) -> Seq<Seq<char>>
    decreases s,
{
    if s.len() == 0 {
        Seq::empty()
    } else {
        decl_paths(s[0]) + decl_paths_seq(s.drop_first())
    }
}

/// The paths of every named function or method in a node's subtree: the
/// only names block attribution can climb to.
pub open spec fn func_paths(n: Node) -> Seq<Seq<char>>
    decreases n,
{
    match n {
        Node::Func { path, body, .. } => seq![path@] + func_paths_seq(body@),
        Node::TraitDecl { members, .. } => func_paths_seq(members@),
        Node::ImplBlock { members, .. } => func_paths_seq(members@),
        Node::Block { body, .. } => func_paths_seq(body@),
        Node::Closure { body } => func_paths_seq(body@),
        _ => Seq::empty(),
    }
}

/// `func_paths` over a sibling sequence.
pub open spec fn func_paths_seq(s: Seq<Node>) -> Seq<Seq<char>>
    decreases s,
{
    if s.len() == 0 {
        Seq::empty()
    } else {
        func_paths(s[0]) + func_paths_seq(s.drop_first())
    }
}

/// No two declarations share a qualified name.
pub open spec fn distinct_qualified(unit: Seq<char>, ps: Seq<Seq<char>>) -> bool {
    forall|i: int, j: int|
        0 <= i < j < ps.len() ==> qualify(unit, ps[i]) != qualify(unit, ps[j])
}

/// `p`'s qualified name collides with none of `ps`.
pub open spec fn avoids(unit: Seq<char>, p: Seq<char>, ps: Seq<Seq<char>>) -> bool {
    forall|i: int| 0 <= i < ps.len() ==> qualify(unit, #[trigger] ps[i]) != qualify(unit, p)
}

/// Where an emission's name can come from: a Block item carries the
/// enclosing function's path or a nested named function's path; any other
/// item carries a declaration's own path.
pub open spec fn emission_ok(
    it: (UnsafeKind, Seq<char>),
    e: Option<Seq<char>>,
    fns: Seq<Seq<char>>,
    ds: Seq<Seq<char>>,
) -> bool {
    &&& (it.0 == UnsafeKind::Block ==> ((e is Some && it.1 == e.unwrap()) || fns.contains(it.1)))
    &&& (it.0 != UnsafeKind::Block ==> ds.contains(it.1))
}

proof fn lemma_func_paths_sub_node(n: Node)
    ensures
        forall|x: Seq<char>| func_paths(n).contains(x) ==> decl_paths(n).contains(x),
    decreases n,
{
    match n {
        Node::Func { path, body, .. } => {
            lemma_func_paths_sub_seq(body@);
            assert forall|x: Seq<char>| func_paths(n).contains(x)
                implies decl_paths(n).contains(x) by {
                let i = choose|i: int|
                    0 <= i < func_paths(n).len() && func_paths(n)[i] == x;
                if i == 0 {
                    assert(decl_paths(n)[0] == x);
                } else {
                    assert(func_paths_seq(body@)[i - 1] == x);
                    assert(func_paths_seq(body@).contains(x));
                    let j = choose|j: int|
                        0 <= j < decl_paths_seq(body@).len() && decl_paths_seq(body@)[j] == x;
                    assert(decl_paths(n)[j + 1] == x);
                }
            }
        },
        Node::TraitDecl { members, .. } => {
            lemma_func_paths_sub_seq(members@);
            assert forall|x: Seq<char>| func_paths(n).contains(x)
                implies decl_paths(n).contains(x) by {
                let i = choose|i: int|
                    0 <= i < func_paths(n).len() && func_paths(n)[i] == x;
                assert(func_paths_seq(members@).contains(x));
                let j = choose|j: int|
                    0 <= j < decl_paths_seq(members@).len() && decl_paths_seq(members@)[j] == x;
                assert(decl_paths(n)[j + 1] == x);
            }
        },
        Node::ImplBlock { members, .. } => {
            lemma_func_paths_sub_seq(members@);
            assert forall|x: Seq<char>| func_paths(n).contains(x)
                implies decl_paths(n).contains(x) by {
                let i = choose|i: int|
                    0 <= i < func_paths(n).len() && func_paths(n)[i] == x;
                assert(func_paths_seq(members@).contains(x));
                let j = choose|j: int|
                    0 <= j < decl_paths_seq(members@).len() && decl_paths_seq(members@)[j] == x;
                assert(decl_paths(n)[j + 1] == x);
            }
        },
        Node::Block { body, .. } => {
            lemma_func_paths_sub_seq(body@);
            assert forall|x: Seq<char>| func_paths(n).contains(x)
                implies decl_paths(n).contains(x) by {
                assert(func_paths_seq(body@).contains(x));
            }
        },
        Node::Closure { body } => {
            lemma_func_paths_sub_seq(body@);
            assert forall|x: Seq<char>| func_paths(n).contains(x)
                implies decl_paths(n).contains(x) by {
                assert(func_paths_seq(body@).contains(x));
            }
        },
        _ => {
            assert forall|x: Seq<char>| func_paths(n).contains(x)
                implies decl_paths(n).contains(x) by {
                assert(func_paths(n).len() == 0);
            }
        },
    }
}

proof fn lemma_func_paths_sub_seq(s: Seq<Node>)
    ensures
        forall|x: Seq<char>| func_paths_seq(s).contains(x) ==> decl_paths_seq(s).contains(x),
    decreases s,
{
    if s.len() > 0 {
        lemma_func_paths_sub_node(s[0]);
        lemma_func_paths_sub_seq(s.drop_first());
        assert forall|x: Seq<char>| func_paths_seq(s).contains(x)
            implies decl_paths_seq(s).contains(x) by {
            let i = choose|i: int|
                0 <= i < func_paths_seq(s).len() && func_paths_seq(s)[i] == x;
            if i < func_paths(s[0]).len() {
                assert(func_paths(s[0])[i] == x);
                assert(func_paths(s[0]).contains(x));
                let j = choose|j: int|
                    0 <= j < decl_paths(s[0]).len() && decl_paths(s[0])[j] == x;
                assert(decl_paths_seq(s)[j] == x);
            } else {
                assert(func_paths_seq(s.drop_first())[i - func_paths(s[0]).len()] == x);
                assert(func_paths_seq(s.drop_first()).contains(x));
                let j = choose|j: int|
                    0 <= j < decl_paths_seq(s.drop_first()).len() && decl_paths_seq(
                        s.drop_first(),
                    )[j] == x;
                assert(decl_paths_seq(s)[decl_paths(s[0]).len() + j] == x);
            }
        }
    }
}

proof fn lemma_names_node(n: Node, e: Option<Seq<char>>)
    ensures
        forall|k: int|
            0 <= k < node_items(n, e).len() ==> emission_ok(
                #[trigger] node_items(n, e)[k],
                e,
                func_paths(n),
                decl_paths(n),
            ),
    decreases n,
{
    match n {
        Node::Func { path, is_unsafe, body } => {
            lemma_names_seq(body@, Some(path@));
            let hd: Seq<(UnsafeKind, Seq<char>)> = if is_unsafe {
                seq![(UnsafeKind::Function, path@)]
            } else {
                Seq::empty()
            };
            let bs = nodes_items(body@, Some(path@));
            assert(node_items(n, e) == hd + bs);
            assert forall|k: int| 0 <= k < node_items(n, e).len() implies emission_ok(
                #[trigger] node_items(n, e)[k],
                e,
                func_paths(n),
                decl_paths(n),
            ) by {
                if k < hd.len() {
                    assert(node_items(n, e)[k] == hd[0]);
                    assert(decl_paths(n)[0] == path@);
                } else {
                    let it = bs[k - hd.len()];
                    assert(node_items(n, e)[k] == it);
                    assert(emission_ok(it, Some(path@), func_paths_seq(body@), decl_paths_seq(
                        body@,
                    )));
                    if it.0 == UnsafeKind::Block {
                        if it.1 == path@ {
                            assert(func_paths(n)[0] == path@);
                        } else {
                            assert(func_paths_seq(body@).contains(it.1));
                            let j = choose|j: int|
                                0 <= j < func_paths_seq(body@).len() && func_paths_seq(
                                    body@,
                                )[j] == it.1;
                            assert(func_paths(n)[j + 1] == it.1);
                        }
                    } else {
                        assert(decl_paths_seq(body@).contains(it.1));
                        let j = choose|j: int|
                            0 <= j < decl_paths_seq(body@).len() && decl_paths_seq(body@)[j]
                                == it.1;
                        assert(decl_paths(n)[j + 1] == it.1);
                    }
                }
            }
        },
        Node::RequiredFn { path, is_unsafe } => {
            if is_unsafe {
                assert(node_items(n, e) =~= seq![(UnsafeKind::Function, path@)]);
                assert(decl_paths(n)[0] == path@);
            }
        },
        Node::TraitDecl { path, is_unsafe, members } => {
            lemma_names_seq(members@, e);
            let hd: Seq<(UnsafeKind, Seq<char>)> = if is_unsafe {
                seq![(UnsafeKind::Trait, path@)]
            } else {
                Seq::empty()
            };
            let bs = nodes_items(members@, e);
            assert(node_items(n, e) == hd + bs);
            assert forall|k: int| 0 <= k < node_items(n, e).len() implies emission_ok(
                #[trigger] node_items(n, e)[k],
                e,
                func_paths(n),
                decl_paths(n),
            ) by {
                if k < hd.len() {
                    assert(node_items(n, e)[k] == hd[0]);
                    assert(decl_paths(n)[0] == path@);
                } else {
                    let it = bs[k - hd.len()];
                    assert(node_items(n, e)[k] == it);
                    assert(emission_ok(it, e, func_paths_seq(members@), decl_paths_seq(
                        members@,
                    )));
                    if it.0 == UnsafeKind::Block {
                        if !(e is Some && it.1 == e.unwrap()) {
                            assert(func_paths_seq(members@).contains(it.1));
                            let j = choose|j: int|
                                0 <= j < func_paths_seq(members@).len() && func_paths_seq(
                                    members@,
                                )[j] == it.1;
                            assert(func_paths(n)[j] == it.1);
                        }
                    } else {
                        assert(decl_paths_seq(members@).contains(it.1));
                        let j = choose|j: int|
                            0 <= j < decl_paths_seq(members@).len() && decl_paths_seq(
                                members@,
                            )[j] == it.1;
                        assert(decl_paths(n)[j + 1] == it.1);
                    }
                }
            }
        },
        Node::ImplBlock { path, is_unsafe, members } => {
            lemma_names_seq(members@, e);
            let hd: Seq<(UnsafeKind, Seq<char>)> = if is_unsafe {
                seq![(UnsafeKind::Impl, path@)]
            } else {
                Seq::empty()
            };
            let bs = nodes_items(members@, e);
            assert(node_items(n, e) == hd + bs);
            assert forall|k: int| 0 <= k < node_items(n, e).len() implies emission_ok(
                #[trigger] node_items(n, e)[k],
                e,
                func_paths(n),
                decl_paths(n),
            ) by {
                if k < hd.len() {
                    assert(node_items(n, e)[k] == hd[0]);
                    assert(decl_paths(n)[0] == path@);
                } else {
                    let it = bs[k - hd.len()];
                    assert(node_items(n, e)[k] == it);
                    assert(emission_ok(it, e, func_paths_seq(members@), decl_paths_seq(
                        members@,
                    )));
                    if it.0 == UnsafeKind::Block {
                        if !(e is Some && it.1 == e.unwrap()) {
                            assert(func_paths_seq(members@).contains(it.1));
                            let j = choose|j: int|
                                0 <= j < func_paths_seq(members@).len() && func_paths_seq(
                                    members@,
                                )[j] == it.1;
                            assert(func_paths(n)[j] == it.1);
                        }
                    } else {
                        assert(decl_paths_seq(members@).contains(it.1));
                        let j = choose|j: int|
                            0 <= j < decl_paths_seq(members@).len() && decl_paths_seq(
                                members@,
                            )[j] == it.1;
                        assert(decl_paths(n)[j + 1] == it.1);
                    }
                }
            }
        },
        Node::Block { explicit_unsafe, body } => {
            lemma_names_seq(body@, e);
            let hd: Seq<(UnsafeKind, Seq<char>)> = if explicit_unsafe && e is Some {
                seq![(UnsafeKind::Block, e.unwrap())]
            } else {
                Seq::empty()
            };
            let bs = nodes_items(body@, e);
            assert(node_items(n, e) == hd + bs);
            assert forall|k: int| 0 <= k < node_items(n, e).len() implies emission_ok(
                #[trigger] node_items(n, e)[k],
                e,
                func_paths(n),
                decl_paths(n),
            ) by {
                if k < hd.len() {
                    assert(node_items(n, e)[k] == hd[0]);
                } else {
                    let it = bs[k - hd.len()];
                    assert(node_items(n, e)[k] == it);
                    assert(emission_ok(it, e, func_paths_seq(body@), decl_paths_seq(body@)));
                }
            }
        },
        Node::Closure { body } => {
            lemma_names_seq(body@, e);
            let bs = nodes_items(body@, e);
            assert(node_items(n, e) == bs);
            assert forall|k: int| 0 <= k < node_items(n, e).len() implies emission_ok(
                #[trigger] node_items(n, e)[k],
                e,
                func_paths(n),
                decl_paths(n),
            ) by {
                assert(node_items(n, e)[k] == bs[k]);
                assert(emission_ok(bs[k], e, func_paths_seq(body@), decl_paths_seq(body@)));
            }
        },
        Node::Call { .. } => {
        },
    }
}

proof fn lemma_names_seq(s: Seq<Node>, e: Option<Seq<char>>)
    ensures
        forall|k: int|
            0 <= k < nodes_items(s, e).len() ==> emission_ok(
                #[trigger] nodes_items(s, e)[k],
                e,
                func_paths_seq(s),
                decl_paths_seq(s),
            ),
    decreases s,
{
    if s.len() > 0 {
        lemma_names_node(s[0], e);
        lemma_names_seq(s.drop_first(), e);
        let a = node_items(s[0], e);
        let b = nodes_items(s.drop_first(), e);
        assert(nodes_items(s, e) == a + b);
        assert forall|k: int| 0 <= k < nodes_items(s, e).len() implies emission_ok(
            #[trigger] nodes_items(s, e)[k],
            e,
            func_paths_seq(s),
            decl_paths_seq(s),
        ) by {
            let fa = func_paths(s[0]);
            let fb = func_paths_seq(s.drop_first());
            let da = decl_paths(s[0]);
            let db = decl_paths_seq(s.drop_first());
            if k < a.len() {
                let it = a[k];
                assert(nodes_items(s, e)[k] == it);
                assert(emission_ok(it, e, fa, da));
                if it.0 == UnsafeKind::Block {
                    if !(e is Some && it.1 == e.unwrap()) {
                        let j = choose|j: int| 0 <= j < fa.len() && fa[j] == it.1;
                        assert(func_paths_seq(s)[j] == it.1);
                    }
                } else {
                    let j = choose|j: int| 0 <= j < da.len() && da[j] == it.1;
                    assert(decl_paths_seq(s)[j] == it.1);
                }
            } else {
                let it = b[k - a.len()];
                assert(nodes_items(s, e)[k] == it);
                assert(emission_ok(it, e, fb, db));
                if it.0 == UnsafeKind::Block {
                    if !(e is Some && it.1 == e.unwrap()) {
                        let j = choose|j: int| 0 <= j < fb.len() && fb[j] == it.1;
                        assert(func_paths_seq(s)[fa.len() + j] == it.1);
                    }
                } else {
                    let j = choose|j: int| 0 <= j < db.len() && db[j] == it.1;
                    assert(decl_paths_seq(s)[da.len() + j] == it.1);
                }
            }
        }
    }
}


/// No Function emission shares its qualified name with any earlier emission.
pub open spec fn emits_fresh(unit: Seq<char>, emits: Seq<(UnsafeKind, Seq<char>)>) -> bool {
    forall|l: int, k: int|
        0 <= l < k < emits.len() && (#[trigger] emits[k]).0 == UnsafeKind::Function ==> qualify(
            unit,
            (#[trigger] emits[l]).1,
        ) != qualify(unit, emits[k].1)
}

/// No Function emission of `b` shares its qualified name with any emission
/// of `a`.
pub open spec fn cross_fresh(
    unit: Seq<char>,
    a: Seq<(UnsafeKind, Seq<char>)>,
    b: Seq<(UnsafeKind, Seq<char>)>,
) -> bool {
    forall|l: int, k: int|
        0 <= l < a.len() && 0 <= k < b.len() && (#[trigger] b[k]).0 == UnsafeKind::Function
            ==> qualify(unit, (#[trigger] a[l]).1) != qualify(unit, b[k].1)
}

proof fn lemma_fresh_concat(
    unit: Seq<char>,
    a: Seq<(UnsafeKind, Seq<char>)>,
    b: Seq<(UnsafeKind, Seq<char>)>,
)
    requires
        emits_fresh(unit, a),
        emits_fresh(unit, b),
        cross_fresh(unit, a, b),
    ensures
        emits_fresh(unit, a + b),
{
    assert forall|l: int, k: int|
        0 <= l < k < (a + b).len() && (#[trigger] (a + b)[k]).0 == UnsafeKind::Function
        implies qualify(unit, (#[trigger] (a + b)[l]).1) != qualify(unit, (a + b)[k].1) by {
        if k < a.len() {
            assert((a + b)[l] == a[l]);
            assert((a + b)[k] == a[k]);
        } else if l < a.len() {
            assert((a + b)[l] == a[l]);
            assert((a + b)[k] == b[k - a.len()]);
        } else {
            assert((a + b)[l] == b[l - a.len()]);
            assert((a + b)[k] == b[k - a.len()]);
        }
    }
}

proof fn lemma_tree_fresh_node(n: Node, e: Option<Seq<char>>, unit: Seq<char>)
    requires
        distinct_qualified(unit, decl_paths(n)),
        e is Some ==> avoids(unit, e.unwrap(), decl_paths(n)),
    ensures
        emits_fresh(unit, node_items(n, e)),
    decreases n, 2int,
{
    match n {
        Node::Func { path, is_unsafe, body } => {
            lemma_names_seq(body@, Some(path@));
            lemma_func_paths_sub_seq(body@);
            proof_fresh_with_head(
                n,
                e,
                unit,
                if is_unsafe {
                    seq![(UnsafeKind::Function, path@)]
                } else {
                    Seq::empty()
                },
                path@,
                body@,
                Some(path@),
                true,
            );
        },
        Node::RequiredFn { .. } => {
            assert(node_items(n, e).len() <= 1);
        },
        Node::TraitDecl { path, is_unsafe, members } => {
            lemma_names_seq(members@, e);
            lemma_func_paths_sub_seq(members@);
            proof_fresh_with_head(
                n,
                e,
                unit,
                if is_unsafe {
                    seq![(UnsafeKind::Trait, path@)]
                } else {
                    Seq::empty()
                },
                path@,
                members@,
                e,
                true,
            );
        },
        Node::ImplBlock { path, is_unsafe, members } => {
            lemma_names_seq(members@, e);
            lemma_func_paths_sub_seq(members@);
            proof_fresh_with_head(
                n,
                e,
                unit,
                if is_unsafe {
                    seq![(UnsafeKind::Impl, path@)]
                } else {
                    Seq::empty()
                },
                path@,
                members@,
                e,
                true,
            );
        },
        Node::Block { explicit_unsafe, body } => {
            let hd: Seq<(UnsafeKind, Seq<char>)> = if explicit_unsafe && e is Some {
                seq![(UnsafeKind::Block, e.unwrap())]
            } else {
                Seq::empty()
            };
            let bs = nodes_items(body@, e);
            assert(decl_paths(n) == decl_paths_seq(body@));
            lemma_tree_fresh_seq(body@, e, unit);
            lemma_names_seq(body@, e);
            lemma_func_paths_sub_seq(body@);
            assert(cross_fresh(unit, hd, bs)) by {
                assert forall|l: int, k: int|
                    0 <= l < hd.len() && 0 <= k < bs.len() && (#[trigger] bs[k]).0
                        == UnsafeKind::Function implies qualify(unit, (#[trigger] hd[l]).1)
                    != qualify(unit, bs[k].1) by {
                    assert(emission_ok(bs[k], e, func_paths_seq(body@), decl_paths_seq(body@)));
                    assert(decl_paths_seq(body@).contains(bs[k].1));
                    let j = choose|j: int|
                        0 <= j < decl_paths_seq(body@).len() && decl_paths_seq(body@)[j]
                            == bs[k].1;
                    assert(hd[l].1 == e.unwrap());
                    assert(qualify(unit, decl_paths(n)[j]) != qualify(unit, e.unwrap()));
                }
            }
            assert(emits_fresh(unit, hd));
            lemma_fresh_concat(unit, hd, bs);
            assert(node_items(n, e) == hd + bs);
        },
        Node::Closure { body } => {
            lemma_tree_fresh_seq(body@, e, unit);
            assert(node_items(n, e) == nodes_items(body@, e));
        },
        Node::Call { .. } => {
        },
    }
}

/// The shared step for a declaration that may emit one item for itself and
/// then walks its children: the head's qualified name collides with no
/// child declaration's, and the children are fresh among themselves.
#[verifier::spinoff_prover]
proof fn proof_fresh_with_head(
    n: Node,
    e: Option<Seq<char>>,
    unit: Seq<char>,
    hd: Seq<(UnsafeKind, Seq<char>)>,
    own_path: Seq<char>,
    children: Seq<Node>,
    child_e: Option<Seq<char>>,
    head_is_own: bool,
)
    requires
        distinct_qualified(unit, decl_paths(n)),
        e is Some ==> avoids(unit, e.unwrap(), decl_paths(n)),
        decl_paths(n) == seq![own_path] + decl_paths_seq(children),
        node_items(n, e) == hd + nodes_items(children, child_e),
        (decreases_to!(n => children)),
        hd.len() <= 1,
        hd.len() == 1 ==> hd[0].1 == own_path,
        child_e == e || child_e == Some(own_path),
        forall|k: int|
            0 <= k < nodes_items(children, child_e).len() ==> emission_ok(
                #[trigger] nodes_items(children, child_e)[k],
                child_e,
                func_paths_seq(children),
                decl_paths_seq(children),
            ),
        forall|x: Seq<char>|
            func_paths_seq(children).contains(x) ==> decl_paths_seq(children).contains(x),
    ensures
        emits_fresh(unit, node_items(n, e)),
    decreases n, 0int,
{
    let ds = decl_paths_seq(children);
    let bs = nodes_items(children, child_e);
    // The children's declaration paths are distinct among themselves and
    // avoid both this declaration's own path and the outer context's.
    assert(distinct_qualified(unit, ds)) by {
        assert forall|i: int, j: int| 0 <= i < j < ds.len() implies qualify(unit, ds[i])
            != qualify(unit, ds[j]) by {
            assert(decl_paths(n)[i + 1] == ds[i]);
            assert(decl_paths(n)[j + 1] == ds[j]);
        }
    }
    assert(avoids(unit, own_path, ds)) by {
        assert forall|i: int| 0 <= i < ds.len() implies qualify(unit, #[trigger] ds[i])
            != qualify(unit, own_path) by {
            assert(decl_paths(n)[0] == own_path);
            assert(decl_paths(n)[i + 1] == ds[i]);
        }
    }
    if child_e is Some {
        assert(avoids(unit, child_e.unwrap(), ds)) by {
            assert forall|i: int| 0 <= i < ds.len() implies qualify(unit, #[trigger] ds[i])
                != qualify(unit, child_e.unwrap()) by {
                assert(decl_paths(n)[i + 1] == ds[i]);
                if child_e == Some(own_path) {
                    assert(decl_paths(n)[0] == own_path);
                }
            }
        }
    }
    lemma_tree_fresh_seq(children, child_e, unit);
    assert(cross_fresh(unit, hd, bs)) by {
        assert forall|l: int, k: int|
            0 <= l < hd.len() && 0 <= k < bs.len() && (#[trigger] bs[k]).0
                == UnsafeKind::Function implies qualify(unit, (#[trigger] hd[l]).1) != qualify(
            unit,
            bs[k].1,
        ) by {
            assert(emission_ok(bs[k], child_e, func_paths_seq(children), ds));
            assert(ds.contains(bs[k].1));
            let j = choose|j: int| 0 <= j < ds.len() && ds[j] == bs[k].1;
            assert(hd[l].1 == own_path);
            assert(qualify(unit, ds[j]) != qualify(unit, own_path));
        }
    }
    assert(emits_fresh(unit, hd));
    lemma_fresh_concat(unit, hd, bs);
}

proof fn lemma_tree_fresh_seq(s: Seq<Node>, e: Option<Seq<char>>, unit: Seq<char>)
    requires
        distinct_qualified(unit, decl_paths_seq(s)),
        e is Some ==> avoids(unit, e.unwrap(), decl_paths_seq(s)),
    ensures
        emits_fresh(unit, nodes_items(s, e)),
    decreases s, 1int,
{
    if s.len() > 0 {
        let da = decl_paths(s[0]);
        let db = decl_paths_seq(s.drop_first());
        assert(decl_paths_seq(s) == da + db);
        assert(distinct_qualified(unit, da)) by {
            assert forall|i: int, j: int| 0 <= i < j < da.len() implies qualify(unit, da[i])
                != qualify(unit, da[j]) by {
                assert(decl_paths_seq(s)[i] == da[i]);
                assert(decl_paths_seq(s)[j] == da[j]);
            }
        }
        assert(distinct_qualified(unit, db)) by {
            assert forall|i: int, j: int| 0 <= i < j < db.len() implies qualify(unit, db[i])
                != qualify(unit, db[j]) by {
                assert(decl_paths_seq(s)[da.len() + i] == db[i]);
                assert(decl_paths_seq(s)[da.len() + j] == db[j]);
            }
        }
        if e is Some {
            assert(avoids(unit, e.unwrap(), da)) by {
                assert forall|i: int| 0 <= i < da.len() implies qualify(
                    unit,
                    #[trigger] da[i],
                ) != qualify(unit, e.unwrap()) by {
                    assert(decl_paths_seq(s)[i] == da[i]);
                }
            }
            assert(avoids(unit, e.unwrap(), db)) by {
                assert forall|i: int| 0 <= i < db.len() implies qualify(
                    unit,
                    #[trigger] db[i],
                ) != qualify(unit, e.unwrap()) by {
                    assert(decl_paths_seq(s)[da.len() + i] == db[i]);
                }
            }
        }
        lemma_tree_fresh_node(s[0], e, unit);
        lemma_tree_fresh_seq(s.drop_first(), e, unit);
        lemma_names_node(s[0], e);
        lemma_names_seq(s.drop_first(), e);
        lemma_func_paths_sub_node(s[0]);
        lemma_func_paths_sub_seq(s.drop_first());
        let a = node_items(s[0], e);
        let b = nodes_items(s.drop_first(), e);
        assert(cross_fresh(unit, a, b)) by {
            assert forall|l: int, k: int|
                0 <= l < a.len() && 0 <= k < b.len() && (#[trigger] b[k]).0
                    == UnsafeKind::Function implies qualify(unit, (#[trigger] a[l]).1)
                != qualify(unit, b[k].1) by {
                assert(emission_ok(b[k], e, func_paths_seq(s.drop_first()), db));
                assert(db.contains(b[k].1));
                let kj = choose|kj: int| 0 <= kj < db.len() && db[kj] == b[k].1;
                assert(decl_paths_seq(s)[da.len() + kj] == db[kj]);
                assert(emission_ok(a[l], e, func_paths(s[0]), da));
                if a[l].0 == UnsafeKind::Block && e is Some && a[l].1 == e.unwrap() {
                    assert(qualify(unit, db[kj]) != qualify(unit, e.unwrap()));
                } else {
                    if a[l].0 == UnsafeKind::Block {
                        assert(func_paths(s[0]).contains(a[l].1));
                    }
                    assert(da.contains(a[l].1));
                    let lj = choose|lj: int| 0 <= lj < da.len() && da[lj] == a[l].1;
                    assert(decl_paths_seq(s)[lj] == da[lj]);
                    assert(qualify(unit, decl_paths_seq(s)[lj]) != qualify(
                        unit,
                        decl_paths_seq(s)[da.len() + kj],
                    ));
                }
            }
        }
        lemma_fresh_concat(unit, a, b);
        assert(nodes_items(s, e) == a + b);
    }
}

proof fn lemma_fresh_empty_items(unit: Seq<char>, emits: Seq<(UnsafeKind, Seq<char>)>)
    requires
        emits_fresh(unit, emits),
    ensures
        fn_fresh(Seq::empty(), unit, emits),
{
    assert forall|k: int|
        0 <= k < emits.len() && (#[trigger] emits[k]).0 == UnsafeKind::Function implies (
    !has_item_name(Seq::empty(), unit + trim_spec(emits[k].1)) && (forall|l: int|
        0 <= l < k ==> unit + trim_spec((#[trigger] emits[l]).1) != unit + trim_spec(
            emits[k].1,
        ))) by {
        assert(!has_item_name(Seq::empty(), unit + trim_spec(emits[k].1)));
        assert forall|l: int| 0 <= l < k implies unit + trim_spec((#[trigger] emits[l]).1)
            != unit + trim_spec(emits[k].1) by {
            assert(qualify(unit, emits[l].1) != qualify(unit, emits[k].1));
        }
    }
}

/// For every analyzed unit whose declarations carry pairwise-distinct
/// qualified names — what a compiler's globally unique symbol paths
/// guarantee — the record built by walking the unit's tree holds exactly
/// one Function-kind item per unsafe-marked function or method declaration
/// (required trait methods included), independent of how many of them are
/// ever called.
pub proof fn lemma_function_count_of_tree(decls: Seq<Node>, unit: Seq<char>)
    requires
        distinct_qualified(unit, decl_paths_seq(decls)),
    ensures
        count_kind(
            apply_items(Seq::empty(), unit, nodes_items(decls, None)),
            UnsafeKind::Function,
        ) == count_unsafe_fns_seq(decls),
{
    lemma_tree_fresh_seq(decls, None, unit);
    lemma_fresh_empty_items(unit, nodes_items(decls, None));
    lemma_function_count(decls, unit);
}

/// Block attribution never lands on a closure or any unnamed construct:
/// every Block item emitted anywhere in a function's subtree — whatever the
/// body nests — carries either that function's own path or the path of a
/// named function or method declared within it.
pub proof fn lemma_block_attribution_named(n: Node, encl: Option<Seq<char>>)
    requires
        n is Func,
    ensures
        forall|k: int|
            0 <= k < node_items(n, encl).len() && (#[trigger] node_items(n, encl)[k]).0
                == UnsafeKind::Block ==> (node_items(n, encl)[k].1 == func_path(n)
                || func_paths_seq(func_body(n)).contains(node_items(n, encl)[k].1)),
{
    lemma_names_node(n, encl);
    match n {
        Node::Func { path, is_unsafe, body } => {
            assert forall|k: int|
                0 <= k < node_items(n, encl).len() && (#[trigger] node_items(n, encl)[k]).0
                    == UnsafeKind::Block implies (node_items(n, encl)[k].1 == func_path(n)
                || func_paths_seq(func_body(n)).contains(node_items(n, encl)[k].1)) by {
                let it = node_items(n, encl)[k];
                assert(emission_ok(it, encl, func_paths(n), decl_paths(n)));
                if !(encl is Some && it.1 == encl.unwrap()) {
                    assert(func_paths(n).contains(it.1));
                    let j = choose|j: int|
                        0 <= j < func_paths(n).len() && func_paths(n)[j] == it.1;
                    if j == 0 {
                        assert(it.1 == path@);
                    } else {
                        assert(func_paths_seq(body@)[j - 1] == it.1);
                        assert(func_paths_seq(body@).contains(it.1));
                    }
                } else {
                    // An item filed under the outer context's name can only
                    // be a block sitting directly in this function's body
                    // walk, whose attribution is this function's path.
                    assert(func_paths(n).contains(it.1) || it.1 == encl.unwrap());
                    if !func_paths(n).contains(it.1) {
                        lemma_blocks_use_own_path(n, encl);
                    } else {
                        let j = choose|j: int|
                            0 <= j < func_paths(n).len() && func_paths(n)[j] == it.1;
                        if j == 0 {
                            assert(it.1 == path@);
                        } else {
                            assert(func_paths_seq(body@)[j - 1] == it.1);
                        }
                    }
                }
            }
        },
        _ => {
        },
    }
}

/// A function's walk never files a Block item under the outer context's
/// name: its own path replaces the context for everything inside.
proof fn lemma_blocks_use_own_path(n: Node, encl: Option<Seq<char>>)
    requires
        n is Func,
    ensures
        forall|k: int|
            0 <= k < node_items(n, encl).len() && (#[trigger] node_items(n, encl)[k]).0
                == UnsafeKind::Block ==> emission_ok(
                node_items(n, encl)[k],
                Some(func_path(n)),
                func_paths(n),
                decl_paths(n),
            ),
{
    match n {
        Node::Func { path, is_unsafe, body } => {
            lemma_names_seq(body@, Some(path@));
            lemma_func_paths_sub_seq(body@);
            let hd: Seq<(UnsafeKind, Seq<char>)> = if is_unsafe {
                seq![(UnsafeKind::Function, path@)]
            } else {
                Seq::empty()
            };
            let bs = nodes_items(body@, Some(path@));
            assert(node_items(n, encl) == hd + bs);
            assert forall|k: int|
                0 <= k < node_items(n, encl).len() && (#[trigger] node_items(n, encl)[k]).0
                    == UnsafeKind::Block implies emission_ok(
                node_items(n, encl)[k],
                Some(func_path(n)),
                func_paths(n),
                decl_paths(n),
            ) by {
                if k >= hd.len() {
                    let it = bs[k - hd.len()];
                    assert(node_items(n, encl)[k] == it);
                    assert(emission_ok(it, Some(path@), func_paths_seq(body@), decl_paths_seq(
                        body@,
                    )));
                    if it.0 == UnsafeKind::Block && it.1 != path@ {
                        assert(func_paths_seq(body@).contains(it.1));
                        let j = choose|j: int|
                            0 <= j < func_paths_seq(body@).len() && func_paths_seq(body@)[j]
                                == it.1;
                        assert(func_paths(n)[j + 1] == it.1);
                    }
                } else {
                    assert(node_items(n, encl)[k] == hd[0]);
                }
            }
        },
        _ => {
        },
    }
}

} // verus!
