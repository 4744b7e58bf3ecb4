//! The aggregator and reporter: merges per-unit records into a global unsafe
//! index and call graph, answers membership queries, and renders summaries,
//! listings and unsafe-annotated call traces.

use crate::codec::RecordModel;
use crate::record::{
    distinct_graph_keys, graph_key_index, graph_lookup, graph_of, has_graph_key, has_item_name,
    GraphModel, ItemModel, Record, UnsafeKind,
};
use crate::strutil::{clone_string, concat_strs, sort_strings, str_views};
use vstd::prelude::*;
use vstd::string::*;

verus! {

/// The models of a loaded record sequence.
pub open spec fn records_models(rs: Seq<Record>) -> Seq<RecordModel> {
    rs.map_values(|r: Record| r.model())
}

/// True when `name` appears as an item name in some record.
pub open spec fn appears_in(ms: Seq<RecordModel>, name: Seq<char>) -> bool {
    exists|i: int| 0 <= i < ms.len() && has_item_name(ms[i].items, name)
}

/// Replaces the callee list under `key`, or appends the entry when the key
/// is new: the "later loaded unit wins" merge rule.
pub open spec fn graph_set_entry(g: GraphModel, key: Seq<char>, val: Seq<Seq<char>>) -> GraphModel {
    if has_graph_key(g, key) {
        g.update(graph_key_index(g, key), (key, val))
    } else {
        g.push((key, val))
    }
}

/// Folds one record's entries into the merged graph, in order.
pub open spec fn merge_one(g: GraphModel, entries: GraphModel) -> GraphModel
    decreases entries.len(),
{
    if entries.len() == 0 {
        g
    } else {
        merge_one(graph_set_entry(g, entries[0].0, entries[0].1), entries.drop_first())
    }
}

/// The merged call graph of all records, later records overriding earlier
/// ones entry by entry. Entries stand in the order their keys were first
/// inserted — a deliberate choice; the rendering that exposes an order (the
/// trace's roots) sorts by name instead of leaning on it.
pub open spec fn merge_graphs(ms: Seq<RecordModel>) -> GraphModel
    decreases ms.len(),
{
    if ms.len() == 0 {
        Seq::empty()
    } else {
        merge_one(merge_graphs(ms.drop_last()), ms.last().graph)
    }
}

/// The global index over every unit analyzed so far: the records themselves,
/// the union of their item names, and the merged call graph.
#[derive(Debug)]
pub struct Records {
    pub raw_data: Vec<Record>,
    pub unsafe_list: Vec<String>,
    pub call_graph: Vec<(String, Vec<String>)>,
}

impl Records {
    /// The models of the loaded records, in load order.
    pub open spec fn models(&self) -> Seq<RecordModel> {
        records_models(self.raw_data@)
    }

    /// The views of the global unsafe-name index.
    pub open spec fn unsafe_names(&self) -> Seq<Seq<char>> {
        str_views(self.unsafe_list@)
    }

    /// The merged call graph as a value.
    pub open spec fn merged_model(&self) -> GraphModel {
        graph_of(self.call_graph@)
    }

    /// The index is sound and complete for the records it was built from.
    pub open spec fn wf(&self) -> bool {
        &&& forall|n: Seq<char>|
            #[trigger] self.unsafe_names().contains(n) <==> appears_in(self.models(), n)
        &&& self.merged_model() == merge_graphs(self.models())
        &&& distinct_graph_keys(self.merged_model())
    }

    /// Builds the global index from the records loaded from disk: the union
    /// of all item names, and the merged graph with later records winning,
    /// its entries kept in first-insertion order of their keys.
    #[verifier::loop_isolation(false)]
    pub fn load(raw_data: Vec<Record>) -> (r: Records)
        ensures
            r.wf(),
            r.models() == records_models(raw_data@),
    {
        let ghost ms = records_models(raw_data@);
        let n = raw_data.len();
        let mut unsafe_list: Vec<String> = Vec::new();
        let mut i: usize = 0;
        while i < n
            invariant
                n == raw_data@.len(),
                0 <= i <= n,
                forall|nm: Seq<char>|
                    #[trigger] str_views(unsafe_list@).contains(nm) <==> appears_in(
                        ms.take(i as int),
                        nm,
                    ),
            decreases n - i,
        {
            let m = raw_data[i].items.len();
            let mut j: usize = 0;
            while j < m
                invariant
                    0 <= i < n,
                    n == raw_data@.len(),
                    m == raw_data@[i as int].items@.len(),
                    0 <= j <= m,
                    forall|nm: Seq<char>|
                        #[trigger] str_views(unsafe_list@).contains(nm) <==> (appears_in(
                            ms.take(i as int),
                            nm,
                        ) || has_item_name(ms[i as int].items.take(j as int), nm)),
                decreases m - j,
            {
                let nm = clone_string(&raw_data[i].items[j].name);
                let ghost nmv = nm@;
                proof {
                    assert(ms[i as int].items[j as int].1 == nmv);
                }
                if !contains_string(&unsafe_list, &nm) {
                    let ghost pre = str_views(unsafe_list@);
                    unsafe_list.push(nm);
                    proof {
                        assert(str_views(unsafe_list@) =~= pre.push(nmv));
                        assert forall|x: Seq<char>|
                            #[trigger] str_views(unsafe_list@).contains(x) implies (appears_in(
                            ms.take(i as int),
                            x,
                        ) || has_item_name(ms[i as int].items.take(j + 1), x)) by {
                            let k = choose|k: int|
                                0 <= k < str_views(unsafe_list@).len() && str_views(
                                    unsafe_list@,
                                )[k] == x;
                            if k < pre.len() {
                                assert(pre.contains(x));
                            } else {
                                assert(x == nmv);
                                assert(ms[i as int].items.take(j + 1)[j as int].1 == nmv);
                            }
                        }
                        assert forall|x: Seq<char>|
                            appears_in(ms.take(i as int), x) || has_item_name(
                                ms[i as int].items.take(j + 1),
                                x,
                            ) implies #[trigger] str_views(unsafe_list@).contains(x) by {
                            if has_item_name(ms[i as int].items.take(j + 1), x) {
                                let s1 = ms[i as int].items.take(j + 1);
                                let l = choose|l: int|
                                    0 <= l < s1.len() && (#[trigger] s1[l]).1 == x;
                                if l < j {
                                    assert(ms[i as int].items.take(j as int)[l] == s1[l]);
                                    assert(has_item_name(ms[i as int].items.take(j as int), x));
                                    assert(pre.contains(x));
                                    let k = choose|k: int| 0 <= k < pre.len() && pre[k] == x;
                                    assert(str_views(unsafe_list@)[k] == x);
                                } else {
                                    assert(x == nmv);
                                    assert(str_views(unsafe_list@).last() == nmv);
                                }
                            } else {
                                assert(pre.contains(x));
                                let k = choose|k: int| 0 <= k < pre.len() && pre[k] == x;
                                assert(str_views(unsafe_list@)[k] == x);
                            }
                        }
                    }
                } else {
                    proof {
                        assert forall|x: Seq<char>|
                            #[trigger] str_views(unsafe_list@).contains(x) implies (appears_in(
                            ms.take(i as int),
                            x,
                        ) || has_item_name(ms[i as int].items.take(j + 1), x)) by {
                            if has_item_name(ms[i as int].items.take(j as int), x) {
                                let s0 = ms[i as int].items.take(j as int);
                                let l = choose|l: int|
                                    0 <= l < s0.len() && (#[trigger] s0[l]).1 == x;
                                assert(ms[i as int].items.take(j + 1)[l] == s0[l]);
                                assert(has_item_name(ms[i as int].items.take(j + 1), x));
                            }
                        }
                        assert forall|x: Seq<char>|
                            appears_in(ms.take(i as int), x) || has_item_name(
                                ms[i as int].items.take(j + 1),
                                x,
                            ) implies #[trigger] str_views(unsafe_list@).contains(x) by {
                            if has_item_name(ms[i as int].items.take(j + 1), x) {
                                let s1 = ms[i as int].items.take(j + 1);
                                let l = choose|l: int|
                                    0 <= l < s1.len() && (#[trigger] s1[l]).1 == x;
                                if l < j {
                                    assert(ms[i as int].items.take(j as int)[l] == s1[l]);
                                    assert(has_item_name(ms[i as int].items.take(j as int), x));
                                } else {
                                    assert(x == nmv);
                                    assert(str_views(unsafe_list@).contains(nmv));
                                }
                            }
                        }
                    }
                }
                j = j + 1;
            }
            proof {
                assert(ms[i as int].items.take(m as int) =~= ms[i as int].items);
                assert(ms.take(i + 1) =~= ms.take(i as int).push(ms[i as int]));
                assert forall|nm: Seq<char>|
                    #[trigger] str_views(unsafe_list@).contains(nm) implies appears_in(
                    ms.take(i + 1),
                    nm,
                ) by {
                    if appears_in(ms.take(i as int), nm) {
                        let s0 = ms.take(i as int);
                        let k = choose|k: int|
                            0 <= k < s0.len() && has_item_name((#[trigger] s0[k]).items, nm);
                        assert(ms.take(i + 1)[k] == ms.take(i as int)[k]);
                        assert(has_item_name(ms.take(i + 1)[k].items, nm));
                    } else {
                        assert(has_item_name(ms.take(i + 1)[i as int].items, nm));
                    }
                }
                assert forall|nm: Seq<char>| appears_in(ms.take(i + 1), nm)
                    implies #[trigger] str_views(unsafe_list@).contains(nm) by {
                    let s1 = ms.take(i + 1);
                    let k = choose|k: int|
                        0 <= k < s1.len() && has_item_name((#[trigger] s1[k]).items, nm);
                    if k < i {
                        assert(ms.take(i as int)[k] == ms.take(i + 1)[k]);
                        assert(appears_in(ms.take(i as int), nm));
                    } else {
                        assert(has_item_name(ms[i as int].items, nm));
                    }
                }
            }
            i = i + 1;
        }
        proof {
            assert(ms.take(n as int) =~= ms);
        }
        // Merge the graphs, later records overriding earlier ones.
        let mut call_graph: Vec<(String, Vec<String>)> = Vec::new();
        let ghost gm = |cg: Seq<(String, Vec<String>)>|
            cg.map_values(|e: (String, Vec<String>)| (e.0@, str_views(e.1@)));
        let mut gi: usize = 0;
        proof {
            assert(gm(call_graph@) =~= Seq::<(Seq<char>, Seq<Seq<char>>)>::empty());
            assert(gm(call_graph@) =~= merge_graphs(ms.take(0)));
        }
        while gi < n
            invariant
                n == raw_data@.len(),
                0 <= gi <= n,
                gm(call_graph@) == merge_graphs(ms.take(gi as int)),
                distinct_graph_keys(gm(call_graph@)),
            decreases n - gi,
        {
            let en = raw_data[gi].graph.len();
            let mut ej: usize = 0;
            let ghost g0 = gm(call_graph@);
            proof {
                assert(ms[gi as int].graph.skip(0) =~= ms[gi as int].graph);
            }
            while ej < en
                invariant
                    0 <= gi < n,
                    n == raw_data@.len(),
                    en == raw_data@[gi as int].graph@.len(),
                    0 <= ej <= en,
                    merge_one(g0, ms[gi as int].graph) == merge_one(
                        gm(call_graph@),
                        ms[gi as int].graph.skip(ej as int),
                    ),
                    distinct_graph_keys(gm(call_graph@)),
                decreases en - ej,
            {
                let key = clone_string(&raw_data[gi].graph[ej].0);
                let val = clone_string_vec(&raw_data[gi].graph[ej].1);
                let ghost entry = ms[gi as int].graph[ej as int];
                proof {
                    assert(entry == (key@, str_views(val@)));
                }
                set_graph_entry(&mut call_graph, key, val);
                proof {
                    assert(ms[gi as int].graph.skip(ej as int)[0] == entry);
                    assert(ms[gi as int].graph.skip(ej as int).drop_first() =~= ms[gi as int
                    ].graph.skip(ej + 1));
                }
                ej = ej + 1;
            }
            proof {
                assert(ms[gi as int].graph.skip(en as int) =~= Seq::<(
                    Seq<char>,
                    Seq<Seq<char>>,
                )>::empty());
                assert(merge_one(gm(call_graph@), ms[gi as int].graph.skip(en as int)) == gm(
                    call_graph@,
                ));
                assert(ms.take(gi + 1).drop_last() =~= ms.take(gi as int));
                assert(ms.take(gi + 1).last() == ms[gi as int]);
            }
            gi = gi + 1;
        }
        proof {
            assert(ms.take(n as int) =~= ms);
        }
        let r = Records { raw_data, unsafe_list, call_graph };
        proof {
            assert(r.models() == ms);
            assert(r.merged_model() == gm(r.call_graph@));
        }
        r
    }

    /// O(index) membership test against the global unsafe set: true exactly
    /// when `name` appears as an item name in some loaded record, whatever
    /// that item's kind.
    pub fn is_unsafe(&self, name: &String) -> (r: bool)
        requires
            self.wf(),
        ensures
            r == appears_in(self.models(), name@),
    {
        let r = contains_string(&self.unsafe_list, name);
        proof {
            assert(self.unsafe_names().contains(name@) == str_views(self.unsafe_list@).contains(
                name@,
            ));
        }
        r
    }

    /// The name, annotated with an "(unsafe)" suffix when it is in the
    /// global unsafe set.
    pub fn check_unsafe(&self, name: &String) -> (r: String)
        requires
            self.wf(),
        ensures
            r@ == annotated(self.models(), name@),
    {
        if self.is_unsafe(name) {
            concat_strs(name.as_str(), " (unsafe)")
        } else {
            clone_string(name)
        }
    }
}

/// `name`, with the unsafe annotation appended when some record flags it.
pub open spec fn annotated(ms: Seq<RecordModel>, name: Seq<char>) -> Seq<char> {
    if appears_in(ms, name) {
        name + " (unsafe)"@
    } else {
        name
    }
}

/// Scans `v` for a string equal to `s`.
#[verifier::loop_isolation(false)]
pub fn contains_string(v: &Vec<String>, s: &String) -> (r: bool)
    ensures
        r == str_views(v@).contains(s@),
{
    let n = v.len();
    let mut i: usize = 0;
    while i < n
        invariant
            n == v@.len(),
            0 <= i <= n,
            forall|k: int| 0 <= k < i ==> str_views(v@)[k] != s@,
        decreases n - i,
    {
        if v[i] == *s {
            proof {
                assert(str_views(v@)[i as int] == s@);
            }
            return true;
        }
        i = i + 1;
    }
    proof {
        if str_views(v@).contains(s@) {
            let k = choose|k: int| 0 <= k < str_views(v@).len() && str_views(v@)[k] == s@;
            assert(false);
        }
    }
    false
}

/// Copies a vector of strings.
#[verifier::loop_isolation(false)]
pub fn clone_string_vec(v: &Vec<String>) -> (r: Vec<String>)
    ensures
        str_views(r@) == str_views(v@),
{
    let mut out: Vec<String> = Vec::new();
    let n = v.len();
    let mut i: usize = 0;
    while i < n
        invariant
            n == v@.len(),
            0 <= i <= n,
            str_views(out@) == str_views(v@).take(i as int),
        decreases n - i,
    {
        let ghost pre = str_views(out@);
        out.push(clone_string(&v[i]));
        proof {
            assert(str_views(out@) =~= pre.push(v@[i as int]@));
            assert(str_views(v@).take(i + 1) =~= str_views(v@).take(i as int).push(
                str_views(v@)[i as int],
            ));
        }
        i = i + 1;
    }
    proof {
        assert(str_views(v@).take(n as int) =~= str_views(v@));
    }
    out
}

/// Replaces the callee list stored under `key`, or appends a new entry:
/// the exec side of `graph_set_entry`.
#[verifier::loop_isolation(false)]
fn set_graph_entry(g: &mut Vec<(String, Vec<String>)>, key: String, val: Vec<String>)
    requires
        distinct_graph_keys(
            old(g)@.map_values(|e: (String, Vec<String>)| (e.0@, str_views(e.1@))),
        ),
    ensures
        final(g)@.map_values(|e: (String, Vec<String>)| (e.0@, str_views(e.1@)))
            == graph_set_entry(
            old(g)@.map_values(|e: (String, Vec<String>)| (e.0@, str_views(e.1@))),
            key@,
            str_views(val@),
        ),
        distinct_graph_keys(
            final(g)@.map_values(|e: (String, Vec<String>)| (e.0@, str_views(e.1@))),
        ),
{
    let ghost pre = old(g)@.map_values(|e: (String, Vec<String>)| (e.0@, str_views(e.1@)));
    let n = g.len();
    let mut i: usize = 0;
    while i < n
        invariant
            *g == *old(g),
            n == g@.len(),
            0 <= i <= n,
            forall|k: int| 0 <= k < i ==> pre[k].0 != key@,
        decreases n - i,
    {
        if g[i].0 == key {
            proof {
                assert(pre[i as int].0 == key@);
                assert(has_graph_key(pre, key@));
                let ci = graph_key_index(pre, key@);
                assert(0 <= ci < pre.len() && pre[ci].0 == key@);
                if ci < i as int {
                    assert(pre[ci].0 != pre[i as int].0);
                } else if ci > i as int {
                    assert(pre[i as int].0 != pre[ci].0);
                }
                assert(ci == i as int);
            }
            let _ = g.remove(i);
            g.insert(i, (key, val));
            proof {
                let post = g@.map_values(|e: (String, Vec<String>)| (e.0@, str_views(e.1@)));
                assert(g@ =~= old(g)@.update(i as int, g@[i as int]));
                assert forall|k: int| 0 <= k < post.len() implies post[k] == graph_set_entry(
                    pre,
                    key@,
                    str_views(val@),
                )[k] by {
                    if k != i as int {
                        assert(g@[k] == old(g)@[k]);
                    }
                }
                assert(post =~= graph_set_entry(pre, key@, str_views(val@)));
                assert forall|a: int, b: int| 0 <= a < b < post.len() implies post[a].0
                    != post[b].0 by {
                    assert(post[a].0 == pre[a].0);
                    assert(post[b].0 == pre[b].0);
                }
            }
            return ;
        }
        i = i + 1;
    }
    proof {
        assert(!has_graph_key(pre, key@));
    }
    g.push((key, val));
    proof {
        let post = g@.map_values(|e: (String, Vec<String>)| (e.0@, str_views(e.1@)));
        assert(post =~= pre.push((key@, str_views(val@))));
        assert forall|a: int, b: int| 0 <= a < b < post.len() implies post[a].0 != post[b].0 by {
            if b < pre.len() {
                assert(pre[a].0 != pre[b].0);
            } else {
                assert(post[a].0 == pre[a].0);
            }
        }
    }
}


/// The number of items of kind `k`.
pub open spec fn count_kind(items: Seq<ItemModel>, k: UnsafeKind) -> int
    decreases items.len(),
{
    if items.len() == 0 {
        0
    } else {
        count_kind(items.drop_last(), k) + (if items.last().0 == k {
            1int
        } else {
            0int
        })
    }
}

/// One summary row: a unit and its item counts by kind.
#[derive(Debug)]
pub struct SummaryRow {
    pub krate: String,
    pub functions: usize,
    pub blocks: usize,
    pub impls: usize,
    pub traits: usize,
}

/// The row carries exactly the counts of `m`'s items by kind.
pub open spec fn row_matches(row: SummaryRow, m: RecordModel) -> bool {
    &&& row.krate@ == m.krate
    &&& row.functions == count_kind(m.items, UnsafeKind::Function)
    &&& row.blocks == count_kind(m.items, UnsafeKind::Block)
    &&& row.impls == count_kind(m.items, UnsafeKind::Impl)
    &&& row.traits == count_kind(m.items, UnsafeKind::Trait)
}

/// The records a filter keeps, in report order: with no filter every record
/// once; with a filter, one copy per filter entry that equals the record's
/// identity (so a repeated filter entry repeats the record).
pub open spec fn matched(m: RecordModel, fs: Seq<Seq<char>>) -> Seq<RecordModel>
    decreases fs.len(),
{
    if fs.len() == 0 {
        Seq::empty()
    } else {
        (if fs[0] == m.krate {
            seq![m]
        } else {
            Seq::empty()
        }) + matched(m, fs.drop_first())
    }
}

/// One record's contribution under a filter.
pub open spec fn copies(m: RecordModel, f: Option<Seq<Seq<char>>>) -> Seq<RecordModel> {
    match f {
        None => seq![m],
        Some(fs) => matched(m, fs),
    }
}

/// All records' contributions under a filter, in order.
pub open spec fn selected(ms: Seq<RecordModel>, f: Option<Seq<Seq<char>>>) -> Seq<RecordModel>
    decreases ms.len(),
{
    if ms.len() == 0 {
        Seq::empty()
    } else {
        selected(ms.drop_last(), f) + copies(ms.last(), f)
    }
}

/// The view of an optional filter.
pub open spec fn filter_view(f: Option<&Vec<String>>) -> Option<Seq<Seq<char>>> {
    match f {
        None => None,
        Some(v) => Some(str_views(v@)),
    }
}

proof fn lemma_matched_concat(m: RecordModel, a: Seq<Seq<char>>, b: Seq<Seq<char>>)
    ensures
        matched(m, a + b) == matched(m, a) + matched(m, b),
    decreases a.len(),
{
    if a.len() == 0 {
        assert(a + b =~= b);
        assert(matched(m, a) + matched(m, b) =~= matched(m, b));
    } else {
        assert((a + b)[0] == a[0]);
        assert((a + b).drop_first() =~= a.drop_first() + b);
        lemma_matched_concat(m, a.drop_first(), b);
        assert((if a[0] == m.krate { seq![m] } else { Seq::empty() }) + (matched(m, a.drop_first())
            + matched(m, b)) =~= ((if a[0] == m.krate { seq![m] } else { Seq::empty() }) + matched(
            m,
            a.drop_first(),
        )) + matched(m, b));
    }
}

impl Record {
    /// Counts this record's items by kind, in one pass.
    #[verifier::loop_isolation(false)]
    pub fn count_items(&self) -> (r: SummaryRow)
        ensures
            row_matches(r, self.model()),
    {
        let mut functions: usize = 0;
        let mut blocks: usize = 0;
        let mut impls: usize = 0;
        let mut traits: usize = 0;
        let n = self.items.len();
        let mut i: usize = 0;
        while i < n
            invariant
                n == self.items@.len(),
                0 <= i <= n,
                functions + blocks + impls + traits == i,
                functions == count_kind(self.items_model().take(i as int), UnsafeKind::Function),
                blocks == count_kind(self.items_model().take(i as int), UnsafeKind::Block),
                impls == count_kind(self.items_model().take(i as int), UnsafeKind::Impl),
                traits == count_kind(self.items_model().take(i as int), UnsafeKind::Trait),
            decreases n - i,
        {
            proof {
                assert(self.items_model().take(i + 1).drop_last() =~= self.items_model().take(
                    i as int,
                ));
                assert(self.items_model().take(i + 1).last() == self.items_model()[i as int]);
            }
            match self.items[i].kind {
                UnsafeKind::Function => {
                    functions = functions + 1;
                },
                UnsafeKind::Block => {
                    blocks = blocks + 1;
                },
                UnsafeKind::Impl => {
                    impls = impls + 1;
                },
                UnsafeKind::Trait => {
                    traits = traits + 1;
                },
            }
            i = i + 1;
        }
        proof {
            assert(self.items_model().take(n as int) =~= self.items_model());
        }
        SummaryRow { krate: clone_string(&self.krate), functions, blocks, impls, traits }
    }
}

impl Records {
    /// One summary row per in-scope record: all records with no filter, and
    /// with a filter one row per filter entry matching the record's identity.
    #[verifier::loop_isolation(false)]
    pub fn summary(&self, filter: Option<&Vec<String>>) -> (r: Vec<SummaryRow>)
        ensures
            r@.len() == selected(self.models(), filter_view(filter)).len(),
            forall|i: int|
                0 <= i < r@.len() ==> row_matches(
                    #[trigger] r@[i],
                    selected(self.models(), filter_view(filter))[i],
                ),
    {
        let ghost ms = self.models();
        let ghost fv = filter_view(filter);
        let mut rows: Vec<SummaryRow> = Vec::new();
        let n = self.raw_data.len();
        let mut i: usize = 0;
        proof {
            assert(selected(ms.take(0), fv) =~= Seq::<RecordModel>::empty());
        }
        while i < n
            invariant
                n == self.raw_data@.len(),
                0 <= i <= n,
                rows@.len() == selected(ms.take(i as int), fv).len(),
                forall|k: int|
                    0 <= k < rows@.len() ==> row_matches(
                        #[trigger] rows@[k],
                        selected(ms.take(i as int), fv)[k],
                    ),
            decreases n - i,
        {
            let ghost m = ms[i as int];
            let ghost sel0 = selected(ms.take(i as int), fv);
            match filter {
                None => {
                    rows.push(self.raw_data[i].count_items());
                    proof {
                        assert(copies(m, fv) =~= seq![m]);
                    }
                },
                Some(fs) => {
                    let fn_ = fs.len();
                    let mut j: usize = 0;
                    proof {
                        assert(matched(m, str_views(fs@).take(0)) =~= Seq::<RecordModel>::empty());
                        assert(sel0 + matched(m, str_views(fs@).take(0)) =~= sel0);
                    }
                    while j < fn_
                        invariant
                            0 <= i < n,
                            n == self.raw_data@.len(),
                            fn_ == fs@.len(),
                            0 <= j <= fn_,
                            m == ms[i as int],
                            sel0 == selected(ms.take(i as int), fv),
                            rows@.len() == (sel0 + matched(m, str_views(fs@).take(j as int))).len(),
                            forall|k: int|
                                0 <= k < rows@.len() ==> row_matches(
                                    #[trigger] rows@[k],
                                    (sel0 + matched(m, str_views(fs@).take(j as int)))[k],
                                ),
                        decreases fn_ - j,
                    {
                        proof {
                            assert(str_views(fs@).take(j + 1) =~= str_views(fs@).take(
                                j as int,
                            ) + seq![str_views(fs@)[j as int]]);
                            lemma_matched_concat(
                                m,
                                str_views(fs@).take(j as int),
                                seq![str_views(fs@)[j as int]],
                            );
                            assert(seq![str_views(fs@)[j as int]].drop_first() =~= Seq::<
                                Seq<char>,
                            >::empty());
                            assert(matched(m, Seq::<Seq<char>>::empty()) =~= Seq::<
                                RecordModel,
                            >::empty());
                        }
                        if fs[j] == self.raw_data[i].krate {
                            rows.push(self.raw_data[i].count_items());
                            proof {
                                assert(matched(m, seq![str_views(fs@)[j as int]]) =~= seq![m]);
                            }
                        } else {
                            proof {
                                assert(matched(m, seq![str_views(fs@)[j as int]]) =~= Seq::<
                                    RecordModel,
                                >::empty());
                                assert(sel0 + matched(m, str_views(fs@).take(j + 1)) =~= sel0
                                    + matched(m, str_views(fs@).take(j as int)));
                            }
                        }
                        j = j + 1;
                    }
                    proof {
                        assert(str_views(fs@).take(fn_ as int) =~= str_views(fs@));
                        assert(copies(m, fv) == matched(m, str_views(fs@)));
                    }
                },
            }
            proof {
                assert(ms.take(i + 1).drop_last() =~= ms.take(i as int));
                assert(ms.take(i + 1).last() == m);
                assert(selected(ms.take(i + 1), fv) == sel0 + copies(m, fv));
            }
            i = i + 1;
        }
        proof {
            assert(ms.take(n as int) =~= ms);
        }
        rows
    }
}


/// The printable label of a kind.
pub open spec fn kind_label(k: UnsafeKind) -> Seq<char> {
    match k {
        UnsafeKind::Function => "Function"@,
        UnsafeKind::Block => "Block"@,
        UnsafeKind::Trait => "Trait"@,
        UnsafeKind::Impl => "Impl"@,
    }
}

/// The text of one listed item.
pub open spec fn item_line_text(it: ItemModel) -> Seq<char> {
    "type: "@ + kind_label(it.0) + ", id: "@ + it.1
}

/// The verbose listing of one record: a header naming the unit, then every
/// item, rendered and sorted into lexicographic order (which groups lines by
/// kind and then by name) for deterministic, diffable output.
pub open spec fn listing_lines(m: RecordModel) -> Seq<Seq<char>> {
    seq!["## Unsafe Item List ("@ + m.krate + ")"@] + m.items.map_values(
        |it: ItemModel| item_line_text(it),
    ).sort_by(crate::strutil::lex_leq_fn()).map_values(|l: Seq<char>| "- "@ + l)
}

/// The verbose listing of a filtered record sequence, in order.
pub open spec fn listing_model(sel: Seq<RecordModel>) -> Seq<Seq<char>>
    decreases sel.len(),
{
    if sel.len() == 0 {
        Seq::empty()
    } else {
        listing_model(sel.drop_last()) + listing_lines(sel.last())
    }
}

/// The printable label of a kind.
fn kind_label_exec(k: UnsafeKind) -> (r: &'static str)
    ensures
        r@ == kind_label(k),
{
    match k {
        UnsafeKind::Function => "Function",
        UnsafeKind::Block => "Block",
        UnsafeKind::Trait => "Trait",
        UnsafeKind::Impl => "Impl",
    }
}

impl Record {
    /// Renders this record's verbose listing: header, then the items sorted
    /// by kind and name.
    #[verifier::loop_isolation(false)]
    pub fn print_items_list(&self) -> (r: Vec<String>)
        ensures
            str_views(r@) == listing_lines(self.model()),
    {
        let ghost texts_spec = self.items_model().map_values(|it: ItemModel| item_line_text(it));
        let mut texts: Vec<String> = Vec::new();
        let n = self.items.len();
        let mut i: usize = 0;
        proof {
            assert(str_views(texts@) =~= self.items_model().take(0).map_values(
                |it: ItemModel| item_line_text(it),
            ));
        }
        while i < n
            invariant
                n == self.items@.len(),
                0 <= i <= n,
                str_views(texts@) == self.items_model().take(i as int).map_values(
                    |it: ItemModel| item_line_text(it),
                ),
            decreases n - i,
        {
            let a = concat_strs("type: ", kind_label_exec(self.items[i].kind));
            let b = concat_strs(a.as_str(), ", id: ");
            let t = concat_strs(b.as_str(), self.items[i].name.as_str());
            let ghost it = self.items_model()[i as int];
            proof {
                assert(t@ =~= item_line_text(it));
            }
            let ghost pre = str_views(texts@);
            texts.push(t);
            proof {
                assert(str_views(texts@) =~= pre.push(item_line_text(it)));
                assert(self.items_model().take(i + 1).map_values(
                    |x: ItemModel| item_line_text(x),
                ) =~= self.items_model().take(i as int).map_values(
                    |x: ItemModel| item_line_text(x),
                ).push(item_line_text(it)));
            }
            i = i + 1;
        }
        proof {
            assert(self.items_model().take(n as int) =~= self.items_model());
            assert(str_views(texts@) == texts_spec);
        }
        let sorted = sort_strings(&texts);
        let ghost sorted_spec = texts_spec.sort_by(crate::strutil::lex_leq_fn());
        proof {
            assert(str_views(sorted@) == sorted_spec);
        }
        let mut out: Vec<String> = Vec::new();
        out.push(concat_strs(
            concat_strs("## Unsafe Item List (", self.krate.as_str()).as_str(),
            ")",
        ));
        proof {
            assert(str_views(out@) =~= seq!["## Unsafe Item List ("@ + self.krate@ + ")"@]);
        }
        let sn = sorted.len();
        let mut k: usize = 0;
        while k < sn
            invariant
                sn == sorted@.len(),
                str_views(sorted@) == sorted_spec,
                0 <= k <= sn,
                str_views(out@) == seq!["## Unsafe Item List ("@ + self.krate@ + ")"@]
                    + sorted_spec.take(k as int).map_values(|l: Seq<char>| "- "@ + l),
            decreases sn - k,
        {
            let line = concat_strs("- ", sorted[k].as_str());
            let ghost pre = str_views(out@);
            out.push(line);
            proof {
                assert(str_views(out@) =~= pre.push("- "@ + sorted_spec[k as int]));
                assert(sorted_spec.take(k + 1).map_values(|l: Seq<char>| "- "@ + l)
                    =~= sorted_spec.take(k as int).map_values(|l: Seq<char>| "- "@ + l).push(
                    "- "@ + sorted_spec[k as int],
                ));
            }
            k = k + 1;
        }
        proof {
            assert(sorted_spec.take(sn as int) =~= sorted_spec);
            assert(str_views(out@) =~= listing_lines(self.model()));
        }
        out
    }
}

impl Records {
    /// The verbose listing for every in-scope record, under the same filter
    /// rules as the summary.
    #[verifier::loop_isolation(false)]
    pub fn print_unsafe_list(&self, filter: Option<&Vec<String>>) -> (r: Vec<String>)
        ensures
            str_views(r@) == listing_model(selected(self.models(), filter_view(filter))),
    {
        let ghost ms = self.models();
        let ghost fv = filter_view(filter);
        let mut out: Vec<String> = Vec::new();
        let n = self.raw_data.len();
        let mut i: usize = 0;
        proof {
            assert(selected(ms.take(0), fv) =~= Seq::<RecordModel>::empty());
            assert(str_views(out@) =~= listing_model(selected(ms.take(0), fv)));
        }
        while i < n
            invariant
                n == self.raw_data@.len(),
                0 <= i <= n,
                str_views(out@) == listing_model(selected(ms.take(i as int), fv)),
            decreases n - i,
        {
            let ghost m = ms[i as int];
            let ghost sel0 = selected(ms.take(i as int), fv);
            match filter {
                None => {
                    let mut part = self.raw_data[i].print_items_list();
                    let ghost pv = str_views(part@);
                    let ghost preo = str_views(out@);
                    out.append(&mut part);
                    proof {
                        assert(str_views(out@) =~= preo + pv);
                        assert(copies(m, fv) =~= seq![m]);
                        assert((sel0 + seq![m]).drop_last() =~= sel0);
                        assert(listing_model(sel0 + seq![m]) == listing_model(sel0)
                            + listing_lines(m));
                    }
                },
                Some(fs) => {
                    let fn_ = fs.len();
                    let mut j: usize = 0;
                    proof {
                        assert(matched(m, str_views(fs@).take(0)) =~= Seq::<RecordModel>::empty());
                        assert(sel0 + matched(m, str_views(fs@).take(0)) =~= sel0);
                    }
                    while j < fn_
                        invariant
                            0 <= i < n,
                            n == self.raw_data@.len(),
                            fn_ == fs@.len(),
                            0 <= j <= fn_,
                            m == ms[i as int],
                            sel0 == selected(ms.take(i as int), fv),
                            str_views(out@) == listing_model(
                                sel0 + matched(m, str_views(fs@).take(j as int)),
                            ),
                        decreases fn_ - j,
                    {
                        let ghost partial = sel0 + matched(m, str_views(fs@).take(j as int));
                        proof {
                            assert(str_views(fs@).take(j + 1) =~= str_views(fs@).take(
                                j as int,
                            ) + seq![str_views(fs@)[j as int]]);
                            lemma_matched_concat(
                                m,
                                str_views(fs@).take(j as int),
                                seq![str_views(fs@)[j as int]],
                            );
                            assert(seq![str_views(fs@)[j as int]].drop_first() =~= Seq::<
                                Seq<char>,
                            >::empty());
                            assert(matched(m, Seq::<Seq<char>>::empty()) =~= Seq::<
                                RecordModel,
                            >::empty());
                        }
                        if fs[j] == self.raw_data[i].krate {
                            let mut part = self.raw_data[i].print_items_list();
                            let ghost pv = str_views(part@);
                            let ghost preo = str_views(out@);
                            out.append(&mut part);
                            proof {
                                assert(str_views(out@) =~= preo + pv);
                                assert(matched(m, seq![str_views(fs@)[j as int]]) =~= seq![m]);
                                assert(sel0 + matched(m, str_views(fs@).take(j + 1)) =~= partial
                                    + seq![m]);
                                assert((partial + seq![m]).drop_last() =~= partial);
                                assert(listing_model(partial + seq![m]) == listing_model(partial)
                                    + listing_lines(m));
                            }
                        } else {
                            proof {
                                assert(matched(m, seq![str_views(fs@)[j as int]]) =~= Seq::<
                                    RecordModel,
                                >::empty());
                                assert(sel0 + matched(m, str_views(fs@).take(j + 1))
                                    =~= partial);
                            }
                        }
                        j = j + 1;
                    }
                    proof {
                        assert(str_views(fs@).take(fn_ as int) =~= str_views(fs@));
                        assert(copies(m, fv) == matched(m, str_views(fs@)));
                    }
                },
            }
            proof {
                assert(ms.take(i + 1).drop_last() =~= ms.take(i as int));
                assert(ms.take(i + 1).last() == m);
                assert(selected(ms.take(i + 1), fv) == sel0 + copies(m, fv));
            }
            i = i + 1;
        }
        proof {
            assert(ms.take(n as int) =~= ms);
        }
        out
    }
}


/// The key set of a graph.
pub open spec fn keys_of(g: GraphModel) -> Set<Seq<char>> {
    g.map_values(|e: (Seq<char>, Seq<Seq<char>>)| e.0).to_set()
}

proof fn lemma_has_key_in_keys(g: GraphModel, c: Seq<char>)
    ensures
        has_graph_key(g, c) <==> keys_of(g).contains(c),
{
    let keys = g.map_values(|e: (Seq<char>, Seq<Seq<char>>)| e.0);
    if has_graph_key(g, c) {
        let i = choose|i: int| 0 <= i < g.len() && (#[trigger] g[i]).0 == c;
        assert(keys[i] == c);
        assert(keys.contains(c));
    }
    if keys.to_set().contains(c) {
        assert(keys.contains(c));
        let i = choose|i: int| 0 <= i < keys.len() && keys[i] == c;
        assert(g[i].0 == c);
    }
}

proof fn lemma_keys_finite(g: GraphModel)
    ensures
        keys_of(g).finite(),
{
    vstd::seq_lib::seq_to_set_is_finite(g.map_values(|e: (Seq<char>, Seq<Seq<char>>)| e.0));
}

/// Visiting a new key shrinks the unvisited-key count: the measure of the
/// cycle-guarded traversal.
proof fn lemma_trace_measure(g: GraphModel, path: Set<Seq<char>>, c: Seq<char>)
    requires
        path.finite(),
        has_graph_key(g, c),
        !path.contains(c),
    ensures
        path.insert(c).finite(),
        keys_of(g).difference(path.insert(c)).len() < keys_of(g).difference(path).len(),
{
    lemma_keys_finite(g);
    lemma_has_key_in_keys(g, c);
    let keys = keys_of(g);
    let d1 = keys.difference(path.insert(c));
    let d2 = keys.difference(path);
    assert(d2.finite());
    assert(d1.finite());
    assert(d2.contains(c));
    assert(d1 =~= d2.remove(c));
    assert(d2.remove(c).len() == d2.len() - 1);
}

/// The rendered subtree under one callee list: each callee on its own line,
/// indented by `pad`, annotated when unsafe, expanded through the merged
/// graph, with an explicit cycle mark where an edge closes a cycle on the
/// current path; the empty callee name (an unresolved target) is skipped.
pub open spec fn trace_callees(
    g: GraphModel,
    ms: Seq<RecordModel>,
    callees: Seq<Seq<char>>,
    pad: Seq<char>,
    path: Set<Seq<char>>,
) -> Seq<Seq<char>>
    decreases keys_of(g).difference(path).len(), callees.len(),
    when path.finite()
    via trace_callees_decreases
{
    if callees.len() == 0 {
        Seq::empty()
    } else {
        let c = callees[0];
        let rest = trace_callees(g, ms, callees.drop_first(), pad, path);
        if c.len() == 0 {
            rest
        } else if has_graph_key(g, c) && !path.contains(c) {
            seq![pad + "- "@ + annotated(ms, c)] + trace_callees(
                g,
                ms,
                graph_lookup(g, c),
                pad + "    "@,
                path.insert(c),
            ) + rest
        } else if has_graph_key(g, c) {
            seq![pad + "- "@ + annotated(ms, c) + " (cycle)"@] + rest
        } else {
            seq![pad + "- "@ + annotated(ms, c)] + rest
        }
    }
}

#[via_fn]
proof fn trace_callees_decreases(
    g: GraphModel,
    ms: Seq<RecordModel>,
    callees: Seq<Seq<char>>,
    pad: Seq<char>,
    path: Set<Seq<char>>,
) {
    if path.finite() && callees.len() > 0 {
        let c = callees[0];
        if c.len() != 0 && has_graph_key(g, c) && !path.contains(c) {
            lemma_trace_measure(g, path, c);
        }
    }
}

/// The rendered trees for the given root names, one after the other.
pub open spec fn trace_roots(keys: Seq<Seq<char>>, merged: GraphModel, ms: Seq<RecordModel>) -> Seq<
    Seq<char>,
>
    decreases keys.len(),
{
    if keys.len() == 0 {
        Seq::empty()
    } else {
        let k = keys[0];
        seq!["- "@ + annotated(ms, k)] + (if has_graph_key(merged, k) {
            trace_callees(merged, ms, graph_lookup(merged, k), "    "@, Set::empty().insert(k))
        } else {
            Seq::empty()
        }) + trace_roots(keys.drop_first(), merged, ms)
    }
}

/// The graph whose callers become the trace's roots: the first record with
/// the given identity. An identity no record carries is out of scope and
/// yields no roots.
pub open spec fn target_graph(
    ms: Seq<RecordModel>,
    merged: GraphModel,
    krate: Seq<char>,
) -> GraphModel
    decreases ms.len(),
{
    if ms.len() == 0 {
        Seq::empty()
    } else if ms[0].krate == krate {
        ms[0].graph
    } else {
        target_graph(ms.drop_first(), merged, krate)
    }
}

/// The caller names of a graph, in stored order.
pub open spec fn graph_keys_seq(g: GraphModel) -> Seq<Seq<char>> {
    g.map_values(|e: (Seq<char>, Seq<Seq<char>>)| e.0)
}

/// The trace's roots: the in-scope graph's caller names, sorted by name for
/// deterministic output.
pub open spec fn sorted_root_keys(g: GraphModel) -> Seq<Seq<char>> {
    graph_keys_seq(g).sort_by(crate::strutil::lex_leq_fn())
}

/// The whole call-trace rendering for one unit identity.
pub open spec fn full_trace(ms: Seq<RecordModel>, merged: GraphModel, krate: Seq<char>) -> Seq<
    Seq<char>,
> {
    seq!["## Unsafe Call Trace"@] + trace_roots(
        sorted_root_keys(target_graph(ms, merged, krate)),
        merged,
        ms,
    )
}

/// Looks a caller up in an entry vector with duplicate-free keys.
#[verifier::loop_isolation(false)]
fn graph_get<'a>(g: &'a Vec<(String, Vec<String>)>, key: &String) -> (r: Option<&'a Vec<String>>)
    requires
        distinct_graph_keys(graph_of(g@)),
    ensures
        match r {
            Some(v) => has_graph_key(graph_of(g@), key@) && str_views(v@) == graph_lookup(
                graph_of(g@),
                key@,
            ),
            None => !has_graph_key(graph_of(g@), key@),
        },
{
    let ghost gm = graph_of(g@);
    let n = g.len();
    let mut i: usize = 0;
    while i < n
        invariant
            n == g@.len(),
            0 <= i <= n,
            forall|k: int| 0 <= k < i ==> gm[k].0 != key@,
        decreases n - i,
    {
        if g[i].0 == *key {
            proof {
                assert(gm[i as int].0 == key@);
                assert(has_graph_key(gm, key@));
                let ci = graph_key_index(gm, key@);
                assert(0 <= ci < gm.len() && gm[ci].0 == key@);
                if ci < i as int {
                    assert(gm[ci].0 != gm[i as int].0);
                } else if ci > i as int {
                    assert(gm[i as int].0 != gm[ci].0);
                }
                assert(ci == i as int);
            }
            return Some(&g[i].1);
        }
        i = i + 1;
    }
    proof {
        if has_graph_key(gm, key@) {
            let k = choose|k: int| 0 <= k < gm.len() && (#[trigger] gm[k]).0 == key@;
            assert(false);
        }
    }
    None
}

impl Records {
    /// Renders the subtree under `callees`, expanding through the merged
    /// graph, skipping unresolved (empty) callee names, and marking an edge
    /// that closes a cycle on the current path instead of recursing into it.
    #[verifier::loop_isolation(false)]
    fn visit_callees(&self, callees: &Vec<String>, pad: &String, path: &Vec<String>) -> (r: Vec<
        String,
    >)
        requires
            self.wf(),
        ensures
            str_views(r@) == trace_callees(
                self.merged_model(),
                self.models(),
                str_views(callees@),
                pad@,
                str_views(path@).to_set(),
            ),
        decreases keys_of(self.merged_model()).difference(str_views(path@).to_set()).len(),
            callees@.len(),
    {
        let ghost g = self.merged_model();
        let ghost ms = self.models();
        let ghost pset = str_views(path@).to_set();
        let ghost cv = str_views(callees@);
        let mut out: Vec<String> = Vec::new();
        let n = callees.len();
        let mut j: usize = 0;
        proof {
            vstd::seq_lib::seq_to_set_is_finite(str_views(path@));
            assert(cv.skip(0) =~= cv);
            assert(str_views(out@) =~= Seq::<Seq<char>>::empty());
            assert(Seq::<Seq<char>>::empty() + trace_callees(g, ms, cv, pad@, pset)
                =~= trace_callees(g, ms, cv, pad@, pset));
        }
        while j < n
            invariant
                n == callees@.len(),
                0 <= j <= n,
                trace_callees(g, ms, cv, pad@, pset) == str_views(out@) + trace_callees(
                    g,
                    ms,
                    cv.skip(j as int),
                    pad@,
                    pset,
                ),
            decreases n - j,
        {
            let ghost cj = cv[j as int];
            proof {
                assert(cv.skip(j as int)[0] == cj);
                assert(cv.skip(j as int).drop_first() =~= cv.skip(j + 1));
            }
            let c = &callees[j];
            if !c.as_str().is_empty() {
                let ann = self.check_unsafe(c);
                let dash = concat_strs("- ", ann.as_str());
                let base = concat_strs(pad.as_str(), dash.as_str());
                proof {
                    assert(base@ =~= pad@ + "- "@ + annotated(ms, cj));
                }
                match graph_get(&self.call_graph, c) {
                    Some(sub_callees) => {
                        if contains_string(path, c) {
                            proof {
                                assert(pset.contains(cj));
                            }
                            let line = concat_strs(base.as_str(), " (cycle)");
                            let ghost pre = str_views(out@);
                            out.push(line);
                            proof {
                                assert(str_views(out@) =~= pre + seq![
                                    pad@ + "- "@ + annotated(ms, cj) + " (cycle)"@,
                                ]);
                            }
                        } else {
                            proof {
                                if pset.contains(cj) {
                                    assert(str_views(path@).contains(cj));
                                }
                            }
                            let ghost pre = str_views(out@);
                            out.push(base);
                            let mut p2 = clone_string_vec(path);
                            p2.push(clone_string(c));
                            let pad2 = concat_strs(pad.as_str(), "    ");
                            proof {
                                assert(str_views(p2@) =~= str_views(path@).push(cj));
                                assert(str_views(p2@).to_set() =~= pset.insert(cj)) by {
                                    assert forall|x: Seq<char>|
                                        str_views(p2@).to_set().contains(x) implies pset.insert(
                                        cj,
                                    ).contains(x) by {
                                        let k = choose|k: int|
                                            0 <= k < str_views(p2@).len() && str_views(p2@)[k]
                                                == x;
                                        if k < str_views(path@).len() {
                                            assert(str_views(path@).contains(x));
                                        }
                                    }
                                    assert forall|x: Seq<char>| pset.insert(cj).contains(x)
                                        implies str_views(p2@).to_set().contains(x) by {
                                        if x == cj {
                                            assert(str_views(p2@).last() == cj);
                                        } else {
                                            assert(str_views(path@).contains(x));
                                            let k = choose|k: int|
                                                0 <= k < str_views(path@).len() && str_views(
                                                    path@,
                                                )[k] == x;
                                            assert(str_views(p2@)[k] == x);
                                        }
                                    }
                                }
                                lemma_trace_measure(g, pset, cj);
                                vstd::seq_lib::seq_to_set_is_finite(str_views(p2@));
                            }
                            let mut sub = self.visit_callees(sub_callees, &pad2, &p2);
                            let ghost sv = str_views(sub@);
                            out.append(&mut sub);
                            proof {
                                assert(str_views(out@) =~= pre + seq![
                                    pad@ + "- "@ + annotated(ms, cj),
                                ] + trace_callees(g, ms, graph_lookup(g, cj), pad@ + "    "@,
                                    pset.insert(cj)));
                            }
                        }
                    },
                    None => {
                        let ghost pre = str_views(out@);
                        out.push(base);
                        proof {
                            assert(str_views(out@) =~= pre + seq![pad@ + "- "@ + annotated(
                                ms,
                                cj,
                            )]);
                        }
                    },
                }
            }
            j = j + 1;
        }
        proof {
            assert(cv.skip(n as int) =~= Seq::<Seq<char>>::empty());
            assert(trace_callees(g, ms, cv.skip(n as int), pad@, pset) =~= Seq::<
                Seq<char>,
            >::empty());
            assert(str_views(out@) + Seq::<Seq<char>>::empty() =~= str_views(out@));
        }
        out
    }

    /// Renders the call trace for one unit: every caller in that unit's own
    /// graph becomes a root, sorted by name, expanded through the merged
    /// graph with unsafe annotations. An identity no record carries renders
    /// the header alone.
    #[verifier::loop_isolation(false)]
    pub fn print_call_trace(&self, krate: &String) -> (r: Vec<String>)
        requires
            self.wf(),
        ensures
            str_views(r@) == full_trace(self.models(), self.merged_model(), krate@),
    {
        let ghost ms = self.models();
        let ghost merged = self.merged_model();
        let ghost kv = krate@;
        let n = self.raw_data.len();
        let mut idx: usize = 0;
        let mut found: bool = false;
        proof {
            assert(ms.skip(0) =~= ms);
        }
        while idx < n && !found
            invariant
                n == self.raw_data@.len(),
                0 <= idx <= n,
                target_graph(ms, merged, kv) == target_graph(ms.skip(idx as int), merged, kv),
                found ==> idx < n && ms[idx as int].krate == kv,
                !found ==> forall|k: int| 0 <= k < idx ==> ms[k].krate != kv,
            decreases n - idx, (if found { 0int } else { 1int }),
        {
            proof {
                assert(ms.skip(idx as int)[0] == ms[idx as int]);
                assert(ms.skip(idx as int).drop_first() =~= ms.skip(idx + 1));
            }
            if self.raw_data[idx].krate == *krate {
                found = true;
            } else {
                idx = idx + 1;
            }
        }
        let ghost tm = target_graph(ms, merged, kv);
        let mut keys: Vec<String> = Vec::new();
        if found {
            proof {
                assert(ms.skip(idx as int)[0] == ms[idx as int]);
                assert(tm == ms[idx as int].graph);
            }
            let target = &self.raw_data[idx].graph;
            let en = target.len();
            let mut e: usize = 0;
            proof {
                assert(graph_of(target@) == tm);
                assert(str_views(keys@) =~= graph_keys_seq(tm).take(0));
            }
            while e < en
                invariant
                    0 <= idx < n,
                    n == self.raw_data@.len(),
                    en == self.raw_data@[idx as int].graph@.len(),
                    tm == graph_of(self.raw_data@[idx as int].graph@),
                    0 <= e <= en,
                    str_views(keys@) == graph_keys_seq(tm).take(e as int),
                decreases en - e,
            {
                let ghost pre = str_views(keys@);
                keys.push(clone_string(&self.raw_data[idx].graph[e].0));
                proof {
                    assert(str_views(keys@) =~= pre.push(tm[e as int].0));
                    assert(graph_keys_seq(tm).take(e + 1) =~= graph_keys_seq(tm).take(
                        e as int,
                    ).push(graph_keys_seq(tm)[e as int]));
                }
                e = e + 1;
            }
            proof {
                assert(graph_keys_seq(tm).take(en as int) =~= graph_keys_seq(tm));
            }
        } else {
            proof {
                assert(ms.skip(n as int) =~= Seq::<RecordModel>::empty());
                assert(tm =~= Seq::<(Seq<char>, Seq<Seq<char>>)>::empty());
                assert(str_views(keys@) =~= graph_keys_seq(tm));
            }
        }
        let sorted = crate::strutil::sort_strings(&keys);
        let ghost rk = sorted_root_keys(tm);
        proof {
            assert(str_views(sorted@) == rk);
        }
        let mut out: Vec<String> = Vec::new();
        out.push("## Unsafe Call Trace".to_owned());
        let en = sorted.len();
        let mut e: usize = 0;
        proof {
            assert(str_views(out@) =~= seq!["## Unsafe Call Trace"@]);
            assert(rk.skip(0) =~= rk);
        }
        while e < en
            invariant
                en == sorted@.len(),
                str_views(sorted@) == rk,
                0 <= e <= en,
                seq!["## Unsafe Call Trace"@] + trace_roots(rk, merged, ms) == str_views(out@)
                    + trace_roots(rk.skip(e as int), merged, ms),
            decreases en - e,
        {
            let ghost key = rk[e as int];
            proof {
                assert(rk.skip(e as int)[0] == rk[e as int]);
                assert(rk.skip(e as int).drop_first() =~= rk.skip(e + 1));
            }
            let root = &sorted[e];
            let ann = self.check_unsafe(root);
            let line = concat_strs("- ", ann.as_str());
            let ghost pre = str_views(out@);
            out.push(line);
            proof {
                assert(str_views(out@) =~= pre + seq!["- "@ + annotated(ms, key)]);
            }
            match graph_get(&self.call_graph, root) {
                Some(sub_callees) => {
                    let pad = "    ".to_owned();
                    let mut path: Vec<String> = Vec::new();
                    path.push(clone_string(root));
                    proof {
                        assert(str_views(path@) =~= seq![key]);
                        assert(str_views(path@).to_set() =~= Set::empty().insert(key)) by {
                            assert forall|x: Seq<char>| str_views(path@).to_set().contains(x)
                                implies Set::empty().insert(key).contains(x) by {
                                let k = choose|k: int|
                                    0 <= k < str_views(path@).len() && str_views(path@)[k] == x;
                                assert(x == key);
                            }
                            assert(str_views(path@)[0] == key);
                        }
                    }
                    let mut sub = self.visit_callees(sub_callees, &pad, &path);
                    let ghost sv = str_views(sub@);
                    out.append(&mut sub);
                    proof {
                        assert(str_views(out@) =~= pre + seq!["- "@ + annotated(ms, key)]
                            + trace_callees(merged, ms, graph_lookup(merged, key), "    "@,
                                Set::empty().insert(key)));
                    }
                },
                None => {
                },
            }
            e = e + 1;
        }
        proof {
            assert(rk.skip(en as int) =~= Seq::<Seq<char>>::empty());
            assert(trace_roots(rk.skip(en as int), merged, ms) =~= Seq::<Seq<char>>::empty());
            assert(str_views(out@) + Seq::<Seq<char>>::empty() =~= str_views(out@));
        }
        out
    }
}


/// The three outputs of one reporting run: the summary rows, the verbose
/// listing when asked for, and the call traces when asked for.
#[derive(Debug)]
pub struct Report {
    pub summary: Vec<SummaryRow>,
    pub listing: Option<Vec<String>>,
    pub call_trace: Option<Vec<String>>,
}

/// The traces one record contributes: one full trace per filter entry that
/// names the record's identity.
pub open spec fn traces_for(
    m: RecordModel,
    ms: Seq<RecordModel>,
    merged: GraphModel,
    fs: Seq<Seq<char>>,
) -> Seq<Seq<char>>
    decreases fs.len(),
{
    if fs.len() == 0 {
        Seq::empty()
    } else {
        (if fs[0] == m.krate {
            full_trace(ms, merged, fs[0])
        } else {
            Seq::empty()
        }) + traces_for(m, ms, merged, fs.drop_first())
    }
}

/// The trace section of a filtered report: each record's traces, in record
/// order.
pub open spec fn trace_section(
    ms: Seq<RecordModel>,
    merged: GraphModel,
    fs: Seq<Seq<char>>,
    i: int,
) -> Seq<Seq<char>>
    decreases ms.len() - i,
{
    if i < 0 || i >= ms.len() {
        Seq::empty()
    } else {
        traces_for(ms[i], ms, merged, fs) + trace_section(ms, merged, fs, i + 1)
    }
}

/// The trace section of an unfiltered report: an absent filter puts every
/// unit in scope, so each loaded record gets its full trace, in record
/// order.
pub open spec fn trace_section_all(
    ms: Seq<RecordModel>,
    merged: GraphModel,
    i: int,
) -> Seq<Seq<char>>
    decreases ms.len() - i,
{
    if i < 0 || i >= ms.len() {
        Seq::empty()
    } else {
        full_trace(ms, merged, ms[i].krate) + trace_section_all(ms, merged, i + 1)
    }
}

/// One reporting run: the summary always; the verbose listing under
/// `verbose`; and, under `call_trace`, the call traces of every in-scope
/// unit — every loaded record with no filter, else one trace per record and
/// matching filter entry.
#[verifier::loop_isolation(false)]
pub fn report(
    records: &Records,
    filter: Option<&Vec<String>>,
    verbose: bool,
    call_trace: bool,
) -> (r: Report)
    requires
        records.wf(),
    ensures
        r.summary@.len() == selected(records.models(), filter_view(filter)).len(),
        forall|i: int|
            0 <= i < r.summary@.len() ==> row_matches(
                #[trigger] r.summary@[i],
                selected(records.models(), filter_view(filter))[i],
            ),
        verbose <==> r.listing is Some,
        verbose ==> str_views(r.listing.unwrap()@) == listing_model(
            selected(records.models(), filter_view(filter)),
        ),
        call_trace <==> r.call_trace is Some,
        call_trace ==> str_views(r.call_trace.unwrap()@) == (match filter_view(filter) {
            None => trace_section_all(records.models(), records.merged_model(), 0),
            Some(fs) => trace_section(records.models(), records.merged_model(), fs, 0),
        }),
{
    let summary = records.summary(filter);
    let listing = if verbose {
        Some(records.print_unsafe_list(filter))
    } else {
        None
    };
    let trace = if call_trace {
        let ghost ms = records.models();
        let ghost merged = records.merged_model();
        let mut out: Vec<String> = Vec::new();
        match filter {
            Some(fs) => {
                let ghost fsv = str_views(fs@);
                let n = records.raw_data.len();
                let mut i: usize = 0;
                proof {
                    assert(str_views(out@) =~= Seq::<Seq<char>>::empty());
                    assert(Seq::<Seq<char>>::empty() + trace_section(ms, merged, fsv, 0)
                        =~= trace_section(ms, merged, fsv, 0));
                }
                while i < n
                    invariant
                        n == records.raw_data@.len(),
                        0 <= i <= n,
                        trace_section(ms, merged, fsv, 0) == str_views(out@) + trace_section(
                            ms,
                            merged,
                            fsv,
                            i as int,
                        ),
                    decreases n - i,
                {
                    let ghost m = ms[i as int];
                    let fn_ = fs.len();
                    let mut j: usize = 0;
                    let ghost pre_i = str_views(out@);
                    proof {
                        assert(fsv.skip(0) =~= fsv);
                        assert(pre_i + Seq::<Seq<char>>::empty() =~= pre_i);
                    }
                    while j < fn_
                        invariant
                            0 <= i < n,
                            n == records.raw_data@.len(),
                            fn_ == fs@.len(),
                            0 <= j <= fn_,
                            m == ms[i as int],
                            pre_i + traces_for(m, ms, merged, fsv) == str_views(out@)
                                + traces_for(m, ms, merged, fsv.skip(j as int)),
                        decreases fn_ - j,
                    {
                        proof {
                            assert(fsv.skip(j as int)[0] == fsv[j as int]);
                            assert(fsv.skip(j as int).drop_first() =~= fsv.skip(j + 1));
                        }
                        if fs[j] == records.raw_data[i].krate {
                            let mut part = records.print_call_trace(&fs[j]);
                            let ghost pv = str_views(part@);
                            let ghost pre = str_views(out@);
                            out.append(&mut part);
                            proof {
                                assert(str_views(out@) =~= pre + pv);
                                assert(pv == full_trace(ms, merged, fsv[j as int]));
                            }
                        }
                        j = j + 1;
                    }
                    proof {
                        assert(fsv.skip(fn_ as int) =~= Seq::<Seq<char>>::empty());
                        assert(traces_for(m, ms, merged, fsv.skip(fn_ as int)) =~= Seq::<
                            Seq<char>,
                        >::empty());
                        assert(str_views(out@) + Seq::<Seq<char>>::empty() =~= str_views(out@));
                        assert(str_views(out@) == pre_i + traces_for(m, ms, merged, fsv));
                    }
                    i = i + 1;
                }
                proof {
                    assert(trace_section(ms, merged, fsv, n as int) =~= Seq::<Seq<char>>::empty());
                    assert(str_views(out@) + Seq::<Seq<char>>::empty() =~= str_views(out@));
                }
            },
            None => {
                let n = records.raw_data.len();
                let mut i: usize = 0;
                proof {
                    assert(str_views(out@) =~= Seq::<Seq<char>>::empty());
                    assert(Seq::<Seq<char>>::empty() + trace_section_all(ms, merged, 0)
                        =~= trace_section_all(ms, merged, 0));
                }
                while i < n
                    invariant
                        n == records.raw_data@.len(),
                        0 <= i <= n,
                        trace_section_all(ms, merged, 0) == str_views(out@) + trace_section_all(
                            ms,
                            merged,
                            i as int,
                        ),
                    decreases n - i,
                {
                    let mut part = records.print_call_trace(&records.raw_data[i].krate);
                    let ghost pv = str_views(part@);
                    let ghost pre = str_views(out@);
                    out.append(&mut part);
                    proof {
                        assert(ms[i as int].krate == records.raw_data@[i as int].krate@);
                        assert(str_views(out@) =~= pre + pv);
                        assert(pv == full_trace(ms, merged, ms[i as int].krate));
                    }
                    i = i + 1;
                }
                proof {
                    assert(trace_section_all(ms, merged, n as int) =~= Seq::<Seq<char>>::empty());
                    assert(str_views(out@) + Seq::<Seq<char>>::empty() =~= str_views(out@));
                }
            },
        }
        Some(out)
    } else {
        None
    };
    Report { summary, listing, call_trace: trace }
}

} // verus!
