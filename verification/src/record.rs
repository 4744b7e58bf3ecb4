//! The per-unit record: unsafe items keyed by qualified name, and the local
//! call graph mapping a caller's qualified name to the callees seen for it.

use crate::strutil::{concat_strs, str_views, trim, trim_spec};
use vstd::prelude::*;

verus! {

/// Why a construct is flagged: an unsafe-marked function or method, a block
/// that opts into unsafe operations, an unsafe-marked trait declaration, or
/// an unsafe-marked trait implementation.
#[derive(Clone, Copy, PartialEq, Eq, Structural, Debug)]
pub enum UnsafeKind {
    Function,
    Block,
    Trait,
    Impl,
}

/// One flagged construct. Two items that share a name stand for the same
/// construct even when their kinds differ: deduplication goes by name alone.
#[derive(Clone, Debug)]
pub struct UnsafeItem {
    pub kind: UnsafeKind,
    pub name: String,
}

impl UnsafeItem {
    pub fn new(kind: UnsafeKind, name: String) -> (r: Self)
        ensures
            r.kind == kind,
            r.name@ == name@,
    {
        UnsafeItem { kind, name }
    }
}

impl PartialEq for UnsafeItem {
    /// Equality of items goes by name alone, never by kind.
    fn eq(&self, other: &Self) -> (r: bool) {
        self.name == other.name
    }
}

impl vstd::std_specs::cmp::PartialEqSpecImpl for UnsafeItem {
    open spec fn obeys_eq_spec() -> bool {
        true
    }

    open spec fn eq_spec(&self, other: &Self) -> bool {
        self.name@ == other.name@
    }
}

/// An item reduced to its mathematical content: kind and qualified name.
pub type ItemModel = (UnsafeKind, Seq<char>);

/// A call graph reduced to its mathematical content: an ordered association
/// of caller names to callee-name lists.
pub type GraphModel = Seq<(Seq<char>, Seq<Seq<char>>)>;

/// True when some item in `items` carries `name`.
pub open spec fn has_item_name(items: Seq<ItemModel>, name: Seq<char>) -> bool {
    exists|i: int| 0 <= i < items.len() && items[i].1 == name
}

/// Set-like insertion with name-only keys: an item whose name is already
/// present is dropped, whatever its kind; the first kind seen wins.
pub open spec fn dedup_insert(items: Seq<ItemModel>, kind: UnsafeKind, name: Seq<char>) -> Seq<
    ItemModel,
> {
    if has_item_name(items, name) {
        items
    } else {
        items.push((kind, name))
    }
}

/// No two items share a name.
pub open spec fn distinct_item_names(items: Seq<ItemModel>) -> bool {
    forall|i: int, j: int| 0 <= i < j < items.len() ==> items[i].1 != items[j].1
}

/// True when `g` has an entry for `key`.
pub open spec fn has_graph_key(g: GraphModel, key: Seq<char>) -> bool {
    exists|i: int| 0 <= i < g.len() && g[i].0 == key
}

/// The index of `key`'s entry; meaningful under `distinct_graph_keys`.
pub open spec fn graph_key_index(g: GraphModel, key: Seq<char>) -> int {
    choose|i: int| 0 <= i < g.len() && g[i].0 == key
}

/// The callee list recorded under `key`.
pub open spec fn graph_lookup(g: GraphModel, key: Seq<char>) -> Seq<Seq<char>> {
    g[graph_key_index(g, key)].1
}

/// Appends `callee` to `key`'s list, creating the entry at the end when the
/// key is new.
pub open spec fn graph_push_edge(g: GraphModel, key: Seq<char>, callee: Seq<char>) -> GraphModel {
    if has_graph_key(g, key) {
        let i = graph_key_index(g, key);
        g.update(i, (key, g[i].1.push(callee)))
    } else {
        g.push((key, seq![callee]))
    }
}

/// The graph model of an entry vector.
pub open spec fn graph_of(gv: Seq<(String, Vec<String>)>) -> GraphModel {
    gv.map_values(|e: (String, Vec<String>)| (e.0@, str_views(e.1@)))
}

/// No two entries share a key.
pub open spec fn distinct_graph_keys(g: GraphModel) -> bool {
    forall|i: int, j: int| 0 <= i < j < g.len() ==> g[i].0 != g[j].0
}

/// The record one analysis pass produces for one compilation unit: the unit's
/// identity, the unsafe items found in it, and its local call edges.
#[derive(Debug)]
pub struct Record {
    pub krate: String,
    pub items: Vec<UnsafeItem>,
    pub graph: Vec<(String, Vec<String>)>,
}

impl Record {
    /// The items as pairs of kind and name view, in insertion order.
    pub open spec fn items_model(&self) -> Seq<ItemModel> {
        self.items@.map_values(|it: UnsafeItem| (it.kind, it.name@))
    }

    /// The graph as an ordered association of name views.
    pub open spec fn graph_model(&self) -> GraphModel {
        graph_of(self.graph@)
    }

    /// Structural soundness: names and caller keys are never duplicated.
    pub open spec fn wf(&self) -> bool {
        &&& distinct_item_names(self.items_model())
        &&& distinct_graph_keys(self.graph_model())
    }

    /// An empty record for the unit `krate`.
    pub fn new(krate: String) -> (r: Self)
        ensures
            r.krate@ == krate@,
            r.items_model() =~= Seq::<ItemModel>::empty(),
            r.graph_model() =~= Seq::<(Seq<char>, Seq<Seq<char>>)>::empty(),
            r.wf(),
    {
        Record { krate, items: Vec::new(), graph: Vec::new() }
    }

    /// Files `name`, trimmed and prefixed with the unit identity, under
    /// `kind`; a name already present is left as it was first filed.
    #[verifier::loop_isolation(false)]
    pub fn add_item(&mut self, kind: UnsafeKind, name: String)
        requires
            old(self).wf(),
        ensures
            final(self).wf(),
            final(self).krate@ == old(self).krate@,
            final(self).graph_model() == old(self).graph_model(),
            final(self).items_model() == dedup_insert(
                old(self).items_model(),
                kind,
                old(self).krate@ + trim_spec(name@),
            ),
    {
        let trimmed = trim(name.as_str());
        let qualified = concat_strs(self.krate.as_str(), trimmed.as_str());
        let ghost qname = old(self).krate@ + trim_spec(name@);
        let n = self.items.len();
        let mut i: usize = 0;
        while i < n
            invariant
                *self == *old(self),
                n == self.items@.len(),
                0 <= i <= n,
                qname == qualified@,
                forall|k: int| 0 <= k < i ==> self.items_model()[k].1 != qname,
            decreases n - i,
        {
            if self.items[i].name == qualified {
                proof {
                    assert(self.items_model()[i as int].1 == qname);
                    assert(has_item_name(old(self).items_model(), qname));
                    assert(dedup_insert(old(self).items_model(), kind, qname)
                        == old(self).items_model());
                }
                return ;
            }
            i = i + 1;
        }
        proof {
            assert(!has_item_name(self.items_model(), qname));
        }
        let ghost pre = self.items_model();
        self.items.push(UnsafeItem::new(kind, qualified));
        proof {
            assert(!has_item_name(pre, qname));
            assert(self.items_model() =~= pre.push((kind, qname)));
            assert(self.graph_model() =~= old(self).graph_model());
            assert forall|a: int, b: int| 0 <= a < b < self.items_model().len()
                implies self.items_model()[a].1 != self.items_model()[b].1 by {
                if b < pre.len() {
                    assert(pre[a].1 != pre[b].1);
                } else {
                    assert(self.items_model()[a].1 == pre[a].1);
                }
            }
        }
    }

    /// Appends an edge from `caller` (prefixed with the unit identity) to
    /// `callee`, kept in the order edges were observed.
    #[verifier::loop_isolation(false)]
    pub fn add_edge(&mut self, caller: String, callee: String)
        requires
            old(self).wf(),
        ensures
            final(self).wf(),
            final(self).krate@ == old(self).krate@,
            final(self).items_model() == old(self).items_model(),
            final(self).graph_model() == graph_push_edge(
                old(self).graph_model(),
                old(self).krate@ + caller@,
                callee@,
            ),
    {
        let key = concat_strs(self.krate.as_str(), caller.as_str());
        let ghost kname = old(self).krate@ + caller@;
        let n = self.graph.len();
        let mut i: usize = 0;
        while i < n
            invariant
                *self == *old(self),
                n == self.graph@.len(),
                0 <= i <= n,
                kname == key@,
                forall|k: int| 0 <= k < i ==> self.graph_model()[k].0 != kname,
            decreases n - i,
        {
            if self.graph[i].0 == key {
                let ghost pre = self.graph_model();
                proof {
                    assert(pre[i as int].0 == kname);
                    assert(has_graph_key(pre, kname));
                    let ci = graph_key_index(pre, kname);
                    assert(0 <= ci < pre.len() && pre[ci].0 == kname);
                    assert(distinct_graph_keys(pre));
                    if ci < i as int {
                        assert(pre[ci].0 != pre[i as int].0);
                    } else if ci > i as int {
                        assert(pre[i as int].0 != pre[ci].0);
                    }
                    assert(ci == i as int);
                }
                let mut entry = self.graph.remove(i);
                let ghost e1pre = entry.1@;
                entry.1.push(callee);
                self.graph.insert(i, entry);
                proof {
                    let post = self.graph_model();
                    let target = graph_push_edge(pre, kname, callee@);
                    assert(self.graph@ =~= old(self).graph@.update(
                        i as int,
                        self.graph@[i as int],
                    ));
                    assert forall|k: int| 0 <= k < post.len() implies post[k] == target[k] by {
                        if k == i as int {
                            assert(self.graph@[k].0@ == kname);
                            assert(self.graph@[k].1@ == e1pre.push(callee));
                            assert(e1pre == old(self).graph@[k].1@);
                            assert(str_views(e1pre.push(callee)) =~= str_views(e1pre).push(
                                callee@,
                            ));
                        } else {
                            assert(self.graph@[k] == old(self).graph@[k]);
                        }
                    }
                    assert(post =~= target);
                    assert forall|a: int, b: int| 0 <= a < b < post.len()
                        implies post[a].0 != post[b].0 by {
                        assert(post[a].0 == pre[a].0);
                        assert(post[b].0 == pre[b].0);
                    }
                    assert(self.items_model() =~= old(self).items_model());
                }
                return ;
            }
            i = i + 1;
        }
        proof {
            assert(!has_graph_key(self.graph_model(), kname));
        }
        let ghost pre = self.graph_model();
        let mut callees: Vec<String> = Vec::new();
        callees.push(callee);
        let ghost cview = callees@;
        self.graph.push((key, callees));
        proof {
            assert(!has_graph_key(pre, kname));
            assert(str_views(cview) =~= seq![callee@]);
            assert(self.graph_model() =~= pre.push((kname, seq![callee@])));
            assert(self.items_model() =~= old(self).items_model());
            assert forall|a: int, b: int| 0 <= a < b < self.graph_model().len()
                implies self.graph_model()[a].0 != self.graph_model()[b].0 by {
                if b < pre.len() {
                    assert(pre[a].0 != pre[b].0);
                } else {
                    assert(self.graph_model()[a].0 == pre[a].0);
                }
            }
        }
    }
}

} // verus!
