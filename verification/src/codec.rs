//! Persistence codec: a self-describing, line-oriented encoding of a
//! [`Record`], and its decoder. Each line is a one-character tag, a space,
//! and a payload: `U` carries the unit identity, `F`/`B`/`T`/`I` carry an
//! item of the matching kind, `C` opens a caller entry and `E` lists one of
//! its callees. Decoding an encoded record yields the record unchanged.

use crate::record::{
    distinct_graph_keys, distinct_item_names, GraphModel, ItemModel, Record, UnsafeItem,
    UnsafeKind,
};
use crate::strutil::{concat_strs, str_views};
use vstd::prelude::*;
use vstd::string::*;

verus! {

/// The mathematical content of a [`Record`].
pub ghost struct RecordModel {
    pub krate: Seq<char>,
    pub items: Seq<ItemModel>,
    pub graph: GraphModel,
}

impl Record {
    /// The record as a value: identity, items and graph.
    pub open spec fn model(&self) -> RecordModel {
        RecordModel { krate: self.krate@, items: self.items_model(), graph: self.graph_model() }
    }
}

/// Decoding failure: the lines do not spell a record.
#[derive(Clone, Copy, PartialEq, Eq, Structural, Debug)]
pub enum CodecError {
    Malformed,
}

/// The tag character of an item line for `k`.
pub open spec fn item_tag_char(k: UnsafeKind) -> char {
    match k {
        UnsafeKind::Function => 'F',
        UnsafeKind::Block => 'B',
        UnsafeKind::Trait => 'T',
        UnsafeKind::Impl => 'I',
    }
}

/// The kind an item tag character names.
pub open spec fn kind_of_tag(c: char) -> UnsafeKind {
    if c == 'F' {
        UnsafeKind::Function
    } else if c == 'B' {
        UnsafeKind::Block
    } else if c == 'T' {
        UnsafeKind::Trait
    } else {
        UnsafeKind::Impl
    }
}

/// A line: tag character, one space, payload.
pub open spec fn tagged(tag: char, payload: Seq<char>) -> Seq<char> {
    seq![tag, ' '] + payload
}

/// True when `line` starts with `tag` and a space.
pub open spec fn is_tag_line(line: Seq<char>, tag: char) -> bool {
    line.len() >= 2 && line[0] == tag && line[1] == ' '
}

/// True when `line` carries an item of some kind.
pub open spec fn is_item_line(line: Seq<char>) -> bool {
    is_tag_line(line, 'F') || is_tag_line(line, 'B') || is_tag_line(line, 'T') || is_tag_line(
        line,
        'I',
    )
}

/// The payload of a tagged line.
pub open spec fn payload(line: Seq<char>) -> Seq<char> {
    line.skip(2)
}

/// The lines that spell the item sequence.
pub open spec fn item_lines(items: Seq<ItemModel>) -> Seq<Seq<char>> {
    items.map_values(|it: ItemModel| tagged(item_tag_char(it.0), it.1))
}

/// The lines that spell one graph entry: the caller, then its callees.
pub open spec fn entry_lines(e: (Seq<char>, Seq<Seq<char>>)) -> Seq<Seq<char>> {
    seq![tagged('C', e.0)] + e.1.map_values(|c: Seq<char>| tagged('E', c))
}

/// The lines that spell the whole graph.
pub open spec fn graph_lines(g: GraphModel) -> Seq<Seq<char>>
    decreases g.len(),
{
    if g.len() == 0 {
        Seq::empty()
    } else {
        entry_lines(g[0]) + graph_lines(g.drop_first())
    }
}

/// The full encoding of a record.
pub open spec fn encode_model(m: RecordModel) -> Seq<Seq<char>> {
    seq![tagged('U', m.krate)] + item_lines(m.items) + graph_lines(m.graph)
}

/// Greedy parse of item lines from index `i` on: the items read and the
/// index of the first line that is not an item line.
pub open spec fn parse_items(lines: Seq<Seq<char>>, i: int) -> (Seq<ItemModel>, int)
    decreases lines.len() - i,
{
    if i < lines.len() && is_item_line(lines[i]) {
        let rest = parse_items(lines, i + 1);
        (seq![(kind_of_tag(lines[i][0]), payload(lines[i]))] + rest.0, rest.1)
    } else {
        (Seq::empty(), i)
    }
}

/// Greedy parse of callee lines from index `i` on.
pub open spec fn parse_callees(lines: Seq<Seq<char>>, i: int) -> (Seq<Seq<char>>, int)
    decreases lines.len() - i,
{
    if i < lines.len() && is_tag_line(lines[i], 'E') {
        let rest = parse_callees(lines, i + 1);
        (seq![payload(lines[i])] + rest.0, rest.1)
    } else {
        (Seq::empty(), i)
    }
}

proof fn lemma_parse_callees_range(lines: Seq<Seq<char>>, i: int)
    requires
        0 <= i <= lines.len(),
    ensures
        i <= parse_callees(lines, i).1 <= lines.len(),
    decreases lines.len() - i,
{
    if i < lines.len() && is_tag_line(lines[i], 'E') {
        lemma_parse_callees_range(lines, i + 1);
    }
}

/// Greedy parse of graph entries from index `i` on.
pub open spec fn parse_entries(lines: Seq<Seq<char>>, i: int) -> (GraphModel, int)
    decreases lines.len() - i,
    when 0 <= i <= lines.len()
    via parse_entries_decreases
{
    if i < lines.len() && is_tag_line(lines[i], 'C') {
        let caller = payload(lines[i]);
        let cs = parse_callees(lines, i + 1);
        let rest = parse_entries(lines, cs.1);
        (seq![(caller, cs.0)] + rest.0, rest.1)
    } else {
        (Seq::empty(), i)
    }
}

#[via_fn]
proof fn parse_entries_decreases(lines: Seq<Seq<char>>, i: int) {
    if 0 <= i <= lines.len() && i < lines.len() && is_tag_line(lines[i], 'C') {
        lemma_parse_callees_range(lines, i + 1);
    }
}

proof fn lemma_parse_items_range(lines: Seq<Seq<char>>, i: int)
    requires
        0 <= i <= lines.len(),
    ensures
        i <= parse_items(lines, i).1 <= lines.len(),
    decreases lines.len() - i,
{
    if i < lines.len() && is_item_line(lines[i]) {
        lemma_parse_items_range(lines, i + 1);
    }
}

/// What a sequence of lines means: a record, or nothing when the lines are
/// not the encoding of any record.
pub open spec fn decode_model(lines: Seq<Seq<char>>) -> Option<RecordModel> {
    if lines.len() == 0 || !is_tag_line(lines[0], 'U') {
        None
    } else {
        let krate = payload(lines[0]);
        let pi = parse_items(lines, 1);
        let pe = parse_entries(lines, pi.1);
        if pe.1 == lines.len() && distinct_item_names(pi.0) && distinct_graph_keys(pe.0) {
            Some(RecordModel { krate, items: pi.0, graph: pe.0 })
        } else {
            None
        }
    }
}

proof fn lemma_tagged_facts(tag: char, p: Seq<char>)
    ensures
        is_tag_line(tagged(tag, p), tag),
        payload(tagged(tag, p)) == p,
        tagged(tag, p)[0] == tag,
        tagged(tag, p).len() == p.len() + 2,
{
    assert(tagged(tag, p).skip(2) =~= p);
}

proof fn lemma_parse_items_exact(lines: Seq<Seq<char>>, i: int, items: Seq<ItemModel>)
    requires
        0 <= i,
        i + items.len() <= lines.len(),
        forall|k: int| 0 <= k < items.len() ==> lines[i + k] == item_lines(items)[k],
        i + items.len() == lines.len() || !is_item_line(lines[i + items.len()]),
    ensures
        parse_items(lines, i) == (items, i + items.len()),
    decreases items.len(),
{
    if items.len() == 0 {
        assert(parse_items(lines, i) == (Seq::<ItemModel>::empty(), i));
        assert((Seq::<ItemModel>::empty(), i) == (items, i + items.len())) by {
            assert(items =~= Seq::<ItemModel>::empty());
        }
    } else {
        let it = items[0];
        lemma_tagged_facts(item_tag_char(it.0), it.1);
        assert(lines[i + 0] == item_lines(items)[0]);
        assert(item_lines(items)[0] == tagged(item_tag_char(it.0), it.1));
        assert(lines[i] == tagged(item_tag_char(it.0), it.1));
        assert(is_item_line(lines[i]));
        assert(kind_of_tag(lines[i][0]) == it.0);
        assert(payload(lines[i]) == it.1);
        assert forall|k: int| 0 <= k < items.drop_first().len() implies lines[i + 1 + k]
            == item_lines(items.drop_first())[k] by {
            assert(lines[i + 1 + k] == item_lines(items)[k + 1]);
            assert(item_lines(items)[k + 1] == item_lines(items.drop_first())[k]);
        }
        lemma_parse_items_exact(lines, i + 1, items.drop_first());
        let rest = parse_items(lines, i + 1);
        assert(parse_items(lines, i).0 =~= seq![(it.0, it.1)] + rest.0);
        assert(seq![(it.0, it.1)] + items.drop_first() =~= items);
        assert((it.0, it.1) == it);
    }
}

proof fn lemma_parse_callees_exact(lines: Seq<Seq<char>>, i: int, callees: Seq<Seq<char>>)
    requires
        0 <= i,
        i + callees.len() <= lines.len(),
        forall|k: int| 0 <= k < callees.len() ==> lines[i + k] == tagged('E', callees[k]),
        i + callees.len() == lines.len() || !is_tag_line(lines[i + callees.len()], 'E'),
    ensures
        parse_callees(lines, i) == (callees, i + callees.len()),
    decreases callees.len(),
{
    if callees.len() == 0 {
        assert((Seq::<Seq<char>>::empty(), i) == (callees, i + callees.len())) by {
            assert(callees =~= Seq::<Seq<char>>::empty());
        }
    } else {
        lemma_tagged_facts('E', callees[0]);
        assert forall|k: int| 0 <= k < callees.drop_first().len() implies lines[i + 1 + k]
            == tagged('E', callees.drop_first()[k]) by {
            assert(callees.drop_first()[k] == callees[k + 1]);
        }
        lemma_parse_callees_exact(lines, i + 1, callees.drop_first());
        let rest = parse_callees(lines, i + 1);
        assert(parse_callees(lines, i).0 =~= seq![callees[0]] + rest.0);
        assert(seq![callees[0]] + callees.drop_first() =~= callees);
    }
}

proof fn lemma_graph_lines_concat(a: GraphModel, b: GraphModel)
    ensures
        graph_lines(a + b) == graph_lines(a) + graph_lines(b),
    decreases a.len(),
{
    if a.len() == 0 {
        assert(a + b =~= b);
        assert(graph_lines(a) + graph_lines(b) =~= graph_lines(b));
    } else {
        assert((a + b)[0] == a[0]);
        assert((a + b).drop_first() =~= a.drop_first() + b);
        lemma_graph_lines_concat(a.drop_first(), b);
        assert(entry_lines(a[0]) + (graph_lines(a.drop_first()) + graph_lines(b)) =~= (entry_lines(
            a[0],
        ) + graph_lines(a.drop_first())) + graph_lines(b));
    }
}

proof fn lemma_parse_entries_exact(lines: Seq<Seq<char>>, i: int, g: GraphModel)
    requires
        0 <= i,
        i + graph_lines(g).len() == lines.len(),
        forall|k: int| 0 <= k < graph_lines(g).len() ==> lines[i + k] == graph_lines(g)[k],
    ensures
        parse_entries(lines, i) == (g, lines.len() as int),
    decreases g.len(),
{
    if g.len() == 0 {
        assert(graph_lines(g).len() == 0);
        assert(i == lines.len());
        assert((Seq::<(Seq<char>, Seq<Seq<char>>)>::empty(), i) == (g, lines.len() as int)) by {
            assert(g =~= Seq::<(Seq<char>, Seq<Seq<char>>)>::empty());
        }
    } else {
        let e = g[0];
        let el = entry_lines(e);
        let cl = e.1.map_values(|c: Seq<char>| tagged('E', c));
        assert(graph_lines(g) =~= el + graph_lines(g.drop_first()));
        assert(el.len() == 1 + e.1.len());
        assert(lines[i] == graph_lines(g)[0]);
        assert(graph_lines(g)[0] == el[0]);
        assert(el[0] == tagged('C', e.0));
        lemma_tagged_facts('C', e.0);
        assert(is_tag_line(lines[i], 'C'));
        assert(!is_item_line(lines[i])) by {
            assert(lines[i][0] == 'C');
        }
        // The callee lines sit at i + 1 .. i + 1 + e.1.len().
        assert forall|k: int| 0 <= k < e.1.len() implies lines[i + 1 + k] == tagged(
            'E',
            e.1[k],
        ) by {
            assert(lines[i + 1 + k] == graph_lines(g)[1 + k]);
            assert(graph_lines(g)[1 + k] == el[1 + k]);
            assert(el[1 + k] == cl[k]);
        }
        // What follows the callees is the next entry's 'C' line or the end.
        let after = i + 1 + e.1.len();
        if after < lines.len() {
            assert(graph_lines(g.drop_first()).len() > 0);
            assert(g.drop_first().len() > 0) by {
                if g.drop_first().len() == 0 {
                    assert(graph_lines(g.drop_first()).len() == 0);
                }
            }
            let g2 = g.drop_first();
            assert(graph_lines(g2) =~= entry_lines(g2[0]) + graph_lines(g2.drop_first()));
            assert(graph_lines(g2)[0] == entry_lines(g2[0])[0]);
            assert(entry_lines(g2[0])[0] == tagged('C', g2[0].0));
            lemma_tagged_facts('C', g2[0].0);
            assert(lines[after] == graph_lines(g)[1 + e.1.len() as int]);
            assert(graph_lines(g)[1 + e.1.len() as int] == graph_lines(g2)[0]);
            assert(!is_tag_line(lines[after], 'E')) by {
                assert(lines[after][0] == 'C');
            }
            lemma_parse_callees_exact(lines, i + 1, e.1);
        } else {
            lemma_parse_callees_exact(lines, i + 1, e.1);
        }
        assert(parse_callees(lines, i + 1) == (e.1, after));
        assert forall|k: int| 0 <= k < graph_lines(g.drop_first()).len() implies lines[after + k]
            == graph_lines(g.drop_first())[k] by {
            assert(lines[after + k] == graph_lines(g)[1 + e.1.len() + k]);
            assert(graph_lines(g)[1 + e.1.len() + k] == graph_lines(g.drop_first())[k]);
        }
        lemma_parse_entries_exact(lines, after, g.drop_first());
        let rest = parse_entries(lines, after);
        assert(payload(lines[i]) == e.0);
        assert(parse_entries(lines, i).0 =~= seq![(e.0, e.1)] + rest.0);
        assert((e.0, e.1) == e);
        assert(seq![e] + g.drop_first() =~= g);
    }
}

/// Round trip: the encoding of a record decodes to that record, items and
/// graph unchanged, for every record whose names and keys are duplicate-free
/// (as every record this crate builds is).
pub proof fn lemma_round_trip(m: RecordModel)
    requires
        distinct_item_names(m.items),
        distinct_graph_keys(m.graph),
    ensures
        decode_model(encode_model(m)) == Some(m),
{
    let lines = encode_model(m);
    let il = item_lines(m.items);
    let gl = graph_lines(m.graph);
    lemma_tagged_facts('U', m.krate);
    assert(lines[0] == tagged('U', m.krate));
    assert(is_tag_line(lines[0], 'U'));
    assert(payload(lines[0]) == m.krate);
    assert(lines.len() == 1 + il.len() + gl.len());
    assert forall|k: int| 0 <= k < m.items.len() implies lines[1 + k] == il[k] by {
        assert(lines[1 + k] == (seq![tagged('U', m.krate)] + il + gl)[1 + k]);
    }
    if gl.len() > 0 {
        assert(m.graph.len() > 0) by {
            if m.graph.len() == 0 {
                assert(gl.len() == 0);
            }
        }
        assert(gl =~= entry_lines(m.graph[0]) + graph_lines(m.graph.drop_first()));
        assert(gl[0] == entry_lines(m.graph[0])[0]);
        assert(entry_lines(m.graph[0])[0] == tagged('C', m.graph[0].0));
        lemma_tagged_facts('C', m.graph[0].0);
        assert(lines[1 + il.len() as int] == gl[0]);
        assert(!is_item_line(lines[1 + il.len() as int])) by {
            assert(lines[1 + il.len() as int][0] == 'C');
        }
    }
    lemma_parse_items_exact(lines, 1, m.items);
    assert(parse_items(lines, 1) == (m.items, 1 + m.items.len() as int));
    assert forall|k: int| 0 <= k < gl.len() implies lines[1 + il.len() + k] == gl[k] by {
        assert(lines[1 + il.len() + k] == (seq![tagged('U', m.krate)] + il + gl)[1 + il.len() + k]);
    }
    lemma_parse_entries_exact(lines, 1 + il.len() as int, m.graph);
    assert(parse_entries(lines, 1 + m.items.len() as int) == (m.graph, lines.len() as int));
}

/// Decides `is_tag_line`.
fn is_tag_line_exec(line: &String, tag: char) -> (r: bool)
    ensures
        r == is_tag_line(line@, tag),
{
    let n = line.as_str().unicode_len();
    n >= 2 && line.as_str().get_char(0) == tag && line.as_str().get_char(1) == ' '
}

/// Decides `is_item_line`.
fn is_item_line_exec(line: &String) -> (r: bool)
    ensures
        r == is_item_line(line@),
{
    is_tag_line_exec(line, 'F') || is_tag_line_exec(line, 'B') || is_tag_line_exec(line, 'T')
        || is_tag_line_exec(line, 'I')
}

/// The payload of a tagged line.
fn payload_exec(line: &String) -> (r: String)
    requires
        line@.len() >= 2,
    ensures
        r@ == payload(line@),
{
    let n = line.as_str().unicode_len();
    let mid = line.as_str().substring_char(2, n);
    proof {
        assert(line@.subrange(2, line@.len() as int) =~= line@.skip(2));
    }
    mid.to_owned()
}

/// The two-character tag prefix (tag and space) for an item of kind `k`.
fn item_tag_exec(k: UnsafeKind) -> (r: &'static str)
    ensures
        r@ == seq![item_tag_char(k), ' '],
{
    proof {
        reveal_strlit("F ");
        reveal_strlit("B ");
        reveal_strlit("T ");
        reveal_strlit("I ");
        assert("F "@ =~= seq!['F', ' ']);
        assert("B "@ =~= seq!['B', ' ']);
        assert("T "@ =~= seq!['T', ' ']);
        assert("I "@ =~= seq!['I', ' ']);
    }
    match k {
        UnsafeKind::Function => "F ",
        UnsafeKind::Block => "B ",
        UnsafeKind::Trait => "T ",
        UnsafeKind::Impl => "I ",
    }
}

/// The kind named by an item tag character.
fn kind_of_tag_exec(c: char) -> (r: UnsafeKind)
    ensures
        r == kind_of_tag(c),
{
    if c == 'F' {
        UnsafeKind::Function
    } else if c == 'B' {
        UnsafeKind::Block
    } else if c == 'T' {
        UnsafeKind::Trait
    } else {
        UnsafeKind::Impl
    }
}

impl Record {
    /// Spells the record out as tagged lines, ready to be persisted.
    #[verifier::loop_isolation(false)]
    pub fn encode(&self) -> (r: Vec<String>)
        ensures
            str_views(r@) == encode_model(self.model()),
    {
        let mut lines: Vec<String> = Vec::new();
        let uline = concat_strs("U ", self.krate.as_str());
        proof {
            reveal_strlit("U ");
            assert("U "@ =~= seq!['U', ' ']);
        }
        lines.push(uline);
        proof {
            assert(str_views(lines@) =~= seq![tagged('U', self.krate@)]);
        }
        let ni = self.items.len();
        let mut i: usize = 0;
        while i < ni
            invariant
                ni == self.items@.len(),
                0 <= i <= ni,
                str_views(lines@) == seq![tagged('U', self.krate@)] + item_lines(
                    self.items_model().take(i as int),
                ),
            decreases ni - i,
        {
            let tag = item_tag_exec(self.items[i].kind);
            let line = concat_strs(tag, self.items[i].name.as_str());
            let ghost prev = str_views(lines@);
            let ghost lview = line@;
            lines.push(line);
            proof {
                assert(lview == tagged(item_tag_char(self.items_model()[i as int].0),
                    self.items_model()[i as int].1));
                assert(str_views(lines@) =~= prev.push(lview));
                assert(self.items_model().take(i + 1) =~= self.items_model().take(
                    i as int,
                ).push(self.items_model()[i as int]));
                assert(item_lines(self.items_model().take(i + 1)) =~= item_lines(
                    self.items_model().take(i as int),
                ).push(lview));
                assert(str_views(lines@) =~= seq![tagged('U', self.krate@)] + item_lines(
                    self.items_model().take(i + 1),
                ));
            }
            i = i + 1;
        }
        proof {
            assert(self.items_model().take(ni as int) =~= self.items_model());
        }
        let ghost head = seq![tagged('U', self.krate@)] + item_lines(self.items_model());
        let ng = self.graph.len();
        let mut gi: usize = 0;
        while gi < ng
            invariant
                ng == self.graph@.len(),
                0 <= gi <= ng,
                str_views(lines@) == head + graph_lines(self.graph_model().take(gi as int)),
            decreases ng - gi,
        {
            let cline = concat_strs("C ", self.graph[gi].0.as_str());
            proof {
                reveal_strlit("C ");
                assert("C "@ =~= seq!['C', ' ']);
            }
            let ghost prevc = str_views(lines@);
            let ghost cview = cline@;
            lines.push(cline);
            let ghost entry = self.graph_model()[gi as int];
            let ghost mid = head + graph_lines(self.graph_model().take(gi as int)) + seq![
                tagged('C', entry.0),
            ];
            proof {
                assert(cview == tagged('C', entry.0));
                assert(str_views(lines@) =~= prevc.push(cview));
                assert(str_views(lines@) =~= mid);
            }
            let nc = self.graph[gi].1.len();
            let mut ci: usize = 0;
            while ci < nc
                invariant
                    0 <= gi < ng,
                    ng == self.graph@.len(),
                    nc == self.graph@[gi as int].1@.len(),
                    0 <= ci <= nc,
                    entry == self.graph_model()[gi as int],
                    mid == head + graph_lines(self.graph_model().take(gi as int)) + seq![
                        tagged('C', entry.0),
                    ],
                    str_views(lines@) == mid + entry.1.take(ci as int).map_values(
                        |c: Seq<char>| tagged('E', c),
                    ),
                decreases nc - ci,
            {
                let eline = concat_strs("E ", self.graph[gi].1[ci].as_str());
                proof {
                    reveal_strlit("E ");
                    assert("E "@ =~= seq!['E', ' ']);
                }
                let ghost preve = str_views(lines@);
                let ghost eview = eline@;
                lines.push(eline);
                proof {
                    assert(entry.1[ci as int] == self.graph@[gi as int].1@[ci as int]@);
                    assert(eview == tagged('E', entry.1[ci as int]));
                    assert(str_views(lines@) =~= preve.push(eview));
                    assert(entry.1.take(ci + 1) =~= entry.1.take(ci as int).push(
                        entry.1[ci as int],
                    ));
                    assert(entry.1.take(ci + 1).map_values(|c: Seq<char>| tagged('E', c))
                        =~= entry.1.take(ci as int).map_values(
                        |c: Seq<char>| tagged('E', c),
                    ).push(eview));
                    assert(str_views(lines@) =~= mid + entry.1.take(ci + 1).map_values(
                        |c: Seq<char>| tagged('E', c),
                    ));
                }
                ci = ci + 1;
            }
            proof {
                assert(entry.1.take(nc as int) =~= entry.1);
                assert(str_views(lines@) =~= head + graph_lines(
                    self.graph_model().take(gi + 1),
                )) by {
                    assert(self.graph_model().take(gi + 1) =~= self.graph_model().take(
                        gi as int,
                    ) + seq![entry]);
                    lemma_graph_lines_concat(self.graph_model().take(gi as int), seq![entry]);
                    assert(graph_lines(seq![entry]) =~= entry_lines(entry)) by {
                        assert(seq![entry].drop_first() =~= Seq::<(
                            Seq<char>,
                            Seq<Seq<char>>,
                        )>::empty());
                        assert(graph_lines(Seq::<(Seq<char>, Seq<Seq<char>>)>::empty())
                            =~= Seq::<Seq<char>>::empty());
                    }
                    assert(entry_lines(entry) =~= seq![tagged('C', entry.0)] + entry.1.map_values(
                        |c: Seq<char>| tagged('E', c),
                    ));
                }
            }
            gi = gi + 1;
        }
        proof {
            assert(self.graph_model().take(ng as int) =~= self.graph_model());
            assert(str_views(lines@) =~= encode_model(self.model()));
        }
        lines
    }

    /// Reads a record back from tagged lines; fails exactly when the lines
    /// are not the encoding of any record.
    #[verifier::loop_isolation(false)]
    pub fn decode(lines: &Vec<String>) -> (r: Result<Record, CodecError>)
        ensures
            match r {
                Ok(rec) => rec.wf() && decode_model(str_views(lines@)) == Some(rec.model()),
                Err(_) => decode_model(str_views(lines@)) is None,
            },
    {
        let ghost lv = str_views(lines@);
        if lines.len() == 0 {
            return Err(CodecError::Malformed);
        }
        if !is_tag_line_exec(&lines[0], 'U') {
            proof {
                assert(lv[0] == lines@[0]@);
            }
            return Err(CodecError::Malformed);
        }
        let krate = payload_exec(&lines[0]);
        let (items, after_items) = parse_items_exec(lines, 1);
        let (graph, after_entries) = parse_entries_exec(lines, after_items);
        if after_entries != lines.len() {
            return Err(CodecError::Malformed);
        }
        if !items_distinct(&items) {
            return Err(CodecError::Malformed);
        }
        if !graph_keys_distinct(&graph) {
            return Err(CodecError::Malformed);
        }
        let rec = Record { krate, items, graph };
        proof {
            assert(lv[0] == lines@[0]@);
            assert(rec.model() == RecordModel {
                krate: payload(lv[0]),
                items: parse_items(lv, 1).0,
                graph: parse_entries(lv, parse_items(lv, 1).1).0,
            });
        }
        Ok(rec)
    }
}

/// Reads item lines greedily from `start` on.
#[verifier::loop_isolation(false)]
fn parse_items_exec(lines: &Vec<String>, start: usize) -> (r: (Vec<UnsafeItem>, usize))
    requires
        start <= lines@.len(),
    ensures
        r.0@.map_values(|it: UnsafeItem| (it.kind, it.name@)) == parse_items(
            str_views(lines@),
            start as int,
        ).0,
        r.1 as int == parse_items(str_views(lines@), start as int).1,
        start <= r.1 <= lines@.len(),
{
    let ghost lv = str_views(lines@);
    let mut items: Vec<UnsafeItem> = Vec::new();
    let mut i: usize = start;
    proof {
        lemma_parse_items_range(lv, start as int);
    }
    while i < lines.len() && is_item_line_exec(&lines[i])
        invariant
            start <= i <= lines@.len(),
            parse_items(lv, start as int).0 == items@.map_values(
                |it: UnsafeItem| (it.kind, it.name@),
            ) + parse_items(lv, i as int).0,
            parse_items(lv, start as int).1 == parse_items(lv, i as int).1,
        decreases lines@.len() - i,
    {
        proof {
            assert(lv[i as int] == lines@[i as int]@);
            assert(is_item_line(lv[i as int]));
        }
        let c = lines[i].as_str().get_char(0);
        let kind = kind_of_tag_exec(c);
        let name = payload_exec(&lines[i]);
        let ghost pre = items@.map_values(|it: UnsafeItem| (it.kind, it.name@));
        items.push(UnsafeItem { kind, name });
        proof {
            let cur = items@.map_values(|it: UnsafeItem| (it.kind, it.name@));
            assert(cur =~= pre.push((kind_of_tag(lv[i as int][0]), payload(lv[i as int]))));
            assert(parse_items(lv, i as int).0 =~= seq![
                (kind_of_tag(lv[i as int][0]), payload(lv[i as int])),
            ] + parse_items(lv, i + 1).0);
            assert(pre + parse_items(lv, i as int).0 =~= cur + parse_items(lv, i + 1).0);
        }
        i = i + 1;
    }
    proof {
        assert(lines@.len() == lv.len());
        if (i as int) < lv.len() {
            assert(lv[i as int] == lines@[i as int]@);
        }
        assert(parse_items(lv, i as int).0 =~= Seq::<ItemModel>::empty());
        assert(parse_items(lv, i as int).1 == i as int);
        assert(items@.map_values(|it: UnsafeItem| (it.kind, it.name@)) + Seq::<
            ItemModel,
        >::empty() =~= items@.map_values(|it: UnsafeItem| (it.kind, it.name@)));
    }
    (items, i)
}

/// Reads callee lines greedily from `start` on.
#[verifier::loop_isolation(false)]
fn parse_callees_exec(lines: &Vec<String>, start: usize) -> (r: (Vec<String>, usize))
    requires
        start <= lines@.len(),
    ensures
        str_views(r.0@) == parse_callees(str_views(lines@), start as int).0,
        r.1 as int == parse_callees(str_views(lines@), start as int).1,
        start <= r.1 <= lines@.len(),
{
    let ghost lv = str_views(lines@);
    let mut callees: Vec<String> = Vec::new();
    let mut i: usize = start;
    proof {
        lemma_parse_callees_range(lv, start as int);
    }
    while i < lines.len() && is_tag_line_exec(&lines[i], 'E')
        invariant
            start <= i <= lines@.len(),
            parse_callees(lv, start as int).0 == str_views(callees@) + parse_callees(
                lv,
                i as int,
            ).0,
            parse_callees(lv, start as int).1 == parse_callees(lv, i as int).1,
        decreases lines@.len() - i,
    {
        proof {
            assert(lv[i as int] == lines@[i as int]@);
            assert(is_tag_line(lv[i as int], 'E'));
        }
        let name = payload_exec(&lines[i]);
        let ghost pre = str_views(callees@);
        callees.push(name);
        proof {
            assert(str_views(callees@) =~= pre.push(payload(lv[i as int])));
            assert(parse_callees(lv, i as int).0 =~= seq![payload(lv[i as int])] + parse_callees(
                lv,
                i + 1,
            ).0);
            assert(pre + parse_callees(lv, i as int).0 =~= str_views(callees@) + parse_callees(
                lv,
                i + 1,
            ).0);
        }
        i = i + 1;
    }
    proof {
        if (i as int) < lv.len() {
            assert(lv[i as int] == lines@[i as int]@);
        }
        assert(parse_callees(lv, i as int).0 =~= Seq::<Seq<char>>::empty());
        assert(str_views(callees@) + Seq::<Seq<char>>::empty() =~= str_views(callees@));
    }
    (callees, i)
}

/// Reads caller entries greedily from `start` on.
#[verifier::loop_isolation(false)]
fn parse_entries_exec(lines: &Vec<String>, start: usize) -> (r: (
    Vec<(String, Vec<String>)>,
    usize,
))
    requires
        start <= lines@.len(),
    ensures
        r.0@.map_values(|e: (String, Vec<String>)| (e.0@, str_views(e.1@))) == parse_entries(
            str_views(lines@),
            start as int,
        ).0,
        r.1 as int == parse_entries(str_views(lines@), start as int).1,
        start <= r.1 <= lines@.len(),
{
    let ghost lv = str_views(lines@);
    let mut entries: Vec<(String, Vec<String>)> = Vec::new();
    let mut i: usize = start;
    while i < lines.len() && is_tag_line_exec(&lines[i], 'C')
        invariant
            start <= i <= lines@.len(),
            parse_entries(lv, start as int).0 == entries@.map_values(
                |e: (String, Vec<String>)| (e.0@, str_views(e.1@)),
            ) + parse_entries(lv, i as int).0,
            parse_entries(lv, start as int).1 == parse_entries(lv, i as int).1,
        decreases lines@.len() - i,
    {
        proof {
            assert(lv[i as int] == lines@[i as int]@);
            assert(is_tag_line(lv[i as int], 'C'));
        }
        let caller = payload_exec(&lines[i]);
        let (callees, next) = parse_callees_exec(lines, i + 1);
        let ghost pre = entries@.map_values(|e: (String, Vec<String>)| (e.0@, str_views(e.1@)));
        entries.push((caller, callees));
        proof {
            let cur = entries@.map_values(|e: (String, Vec<String>)| (e.0@, str_views(e.1@)));
            let cs = parse_callees(lv, i + 1);
            assert(cur =~= pre.push((payload(lv[i as int]), cs.0)));
            assert(parse_entries(lv, i as int).0 =~= seq![(payload(lv[i as int]), cs.0)]
                + parse_entries(lv, cs.1).0);
            assert(parse_entries(lv, i as int).1 == parse_entries(lv, cs.1).1);
            assert(pre + parse_entries(lv, i as int).0 =~= cur + parse_entries(lv, cs.1).0);
            assert(next as int == cs.1);
        }
        i = next;
    }
    proof {
        if (i as int) < lv.len() {
            assert(lv[i as int] == lines@[i as int]@);
        }
        assert(parse_entries(lv, i as int).0 =~= Seq::<(Seq<char>, Seq<Seq<char>>)>::empty());
        assert(entries@.map_values(|e: (String, Vec<String>)| (e.0@, str_views(e.1@))) + Seq::<(
            Seq<char>,
            Seq<Seq<char>>,
        )>::empty() =~= entries@.map_values(
            |e: (String, Vec<String>)| (e.0@, str_views(e.1@)),
        ));
    }
    (entries, i)
}

/// Decides `distinct_item_names` over a decoded item vector.
#[verifier::loop_isolation(false)]
fn items_distinct(items: &Vec<UnsafeItem>) -> (r: bool)
    ensures
        r == distinct_item_names(items@.map_values(|it: UnsafeItem| (it.kind, it.name@))),
{
    let ghost m = items@.map_values(|it: UnsafeItem| (it.kind, it.name@));
    let n = items.len();
    let mut i: usize = 0;
    while i < n
        invariant
            0 <= i <= n,
            n == items@.len(),
            forall|a: int, b: int| 0 <= a < b < m.len() && a < i ==> m[a].1 != m[b].1,
        decreases n - i,
    {
        let mut j: usize = i + 1;
        while j < n
            invariant
                0 <= i < j <= n,
                n == items@.len(),
                forall|b: int| i < b < j ==> m[i as int].1 != m[b].1,
            decreases n - j,
        {
            if items[i].name == items[j].name {
                proof {
                    assert(m[i as int].1 == m[j as int].1);
                }
                return false;
            }
            j = j + 1;
        }
        i = i + 1;
    }
    true
}

/// Decides `distinct_graph_keys` over a decoded graph vector.
#[verifier::loop_isolation(false)]
fn graph_keys_distinct(graph: &Vec<(String, Vec<String>)>) -> (r: bool)
    ensures
        r == distinct_graph_keys(
            graph@.map_values(|e: (String, Vec<String>)| (e.0@, str_views(e.1@))),
        ),
{
    let ghost m = graph@.map_values(|e: (String, Vec<String>)| (e.0@, str_views(e.1@)));
    let n = graph.len();
    let mut i: usize = 0;
    while i < n
        invariant
            0 <= i <= n,
            n == graph@.len(),
            forall|a: int, b: int| 0 <= a < b < m.len() && a < i ==> m[a].0 != m[b].0,
        decreases n - i,
    {
        let mut j: usize = i + 1;
        while j < n
            invariant
                0 <= i < j <= n,
                n == graph@.len(),
                forall|b: int| i < b < j ==> m[i as int].0 != m[b].0,
            decreases n - j,
        {
            if graph[i].0 == graph[j].0 {
                proof {
                    assert(m[i as int].0 == m[j as int].0);
                }
                return false;
            }
            j = j + 1;
        }
        i = i + 1;
    }
    true
}

} // verus!
