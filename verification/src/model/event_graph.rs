//! Event graphs: what the nodes of a run did, read off a mediator log.
//!
//! Each event line of the log names a node, the function that ran and the
//! state it led to.  Per node, the states become the vertices of a graph and
//! each step from one event to the next an edge that bears the name of the
//! function that ran in between.
use crate::text::{
    chars_of, comes_before, copy_range, decimal_u32, find, find_in, lemma_text_order_total,
    lemma_text_order_transitive, lines_of, parse_u32, same_chars, split_lines, string_of,
    text_less, trim, trimmed,
};
use std::collections::HashMap;
use vstd::prelude::*;
use vstd::slice::slice_subrange;
use vstd::string::*;

verus! {

/// A step of a node from one state to another, with the function that ran.
#[derive(Debug, Clone, PartialEq, Eq, Hash)]
pub struct Edge {
    pub from: String,
    pub transition: String,
    pub to: String,
}

/// The graph of one node.
#[derive(Debug, Clone, PartialEq, Eq, Default)]
pub struct NodeGraph {
    pub states: Vec<String>,
    pub edges: Vec<Edge>,
}

/// The graphs of all the nodes of a log, by the node's number.
#[derive(Debug, Clone, PartialEq, Eq, Default)]
pub struct EventGraph {
    pub nodes: HashMap<u32, NodeGraph>,
}

/// One event of the log.
#[derive(Debug, Clone, PartialEq, Eq)]
pub struct EventRecord {
    pub node_id: u32,
    pub transition: String,
    pub state: String,
}

/// An edge as sequences of characters.
pub struct EdgeModel {
    pub from: Seq<char>,
    pub transition: Seq<char>,
    pub to: Seq<char>,
}

/// A node's graph as sequences.
pub struct NodeModel {
    pub states: Seq<Seq<char>>,
    pub edges: Seq<EdgeModel>,
}

/// An event as sequences of characters.
pub struct Event {
    pub node_id: u32,
    pub transition: Seq<char>,
    pub state: Seq<char>,
}

impl View for Edge {
    type V = EdgeModel;

    open spec fn view(&self) -> EdgeModel {
        EdgeModel { from: self.from@, transition: self.transition@, to: self.to@ }
    }
}

/// The edges as models.
pub open spec fn edge_views(edges: Seq<Edge>) -> Seq<EdgeModel> {
    edges.map_values(|edge: Edge| edge@)
}

impl View for NodeGraph {
    type V = NodeModel;

    open spec fn view(&self) -> NodeModel {
        NodeModel { states: self.states.deep_view(), edges: edge_views(self.edges@) }
    }
}

impl View for EventGraph {
    type V = Map<u32, NodeModel>;

    open spec fn view(&self) -> Map<u32, NodeModel> {
        Map::new(|id: u32| self.nodes@.contains_key(id), |id: u32| self.nodes@[id]@)
    }
}

impl View for EventRecord {
    type V = Event;

    open spec fn view(&self) -> Event {
        Event { node_id: self.node_id, transition: self.transition@, state: self.state@ }
    }
}

/// `text` from index `i` on.
pub open spec fn after(text: Seq<char>, i: int) -> Seq<char> {
    text.subrange(i, text.len() as int)
}

/// The number of the node: what stands between the tag `[Node ` that opens
/// `part` and the next blank, read as an unsigned 32-bit number.
pub open spec fn node_id_in(part: Seq<char>) -> Option<u32> {
    let start = "[Node "@.len() as int;
    match find(after(part, start), " "@) {
        Some(len) => decimal_u32(part.subrange(start, start + len)),
        None => None,
    }
}

/// The function that ran: what stands between the first `@ functionName `
/// and the next ` @ `.
pub open spec fn transition_in(part: Seq<char>) -> Option<Seq<char>> {
    let tag = "@ functionName "@;
    match find(part, tag) {
        Some(at) => {
            let start = at + tag.len();
            match find(after(part, start), " @ "@) {
                Some(len) => Some(part.subrange(start, start + len)),
                None => None,
            }
        },
        None => None,
    }
}

/// The state that was reached: what follows the first `@ state `, or else
/// the first `@ constant `, without the white space at its ends.
pub open spec fn state_in(part: Seq<char>) -> Option<Seq<char>> {
    match find(part, "@ state "@) {
        Some(at) => Some(trimmed(after(part, at + "@ state "@.len()))),
        None => match find(part, "@ constant "@) {
            Some(at) => Some(trimmed(after(part, at + "@ constant "@.len()))),
            None => None,
        },
    }
}

/// The event that `line` reports, if it reports one.  Only what follows the
/// first `[Node ` counts.
pub open spec fn event_of(line: Seq<char>) -> Option<Event> {
    match find(line, "[Node "@) {
        Some(at) => {
            let part = after(line, at);
            match (node_id_in(part), transition_in(part), state_in(part)) {
                (Some(node_id), Some(transition), Some(state)) => Some(
                    Event { node_id, transition, state },
                ),
                _ => None,
            }
        },
        None => None,
    }
}

/// Reads the number of the node off what follows the tag.
fn read_node_id(part: &[char]) -> (id: Option<u32>)
    requires
        "[Node "@.len() <= part@.len(),
    ensures
        id == node_id_in(part@),
{
    let tag = chars_of("[Node ");
    let blank = chars_of(" ");
    let start = tag.len();
    let rest = slice_subrange(part, start, part.len());
    match find_in(rest, blank.as_slice(), 0) {
        Some(len) => {
            proof {
                crate::text::lemma_find_from(rest@, blank@, 0);
            }
            let digits = slice_subrange(part, start, start + len);
            parse_u32(digits)
        },
        None => None,
    }
}

/// Reads the function that ran.
fn read_transition(part: &[char]) -> (name: Option<Vec<char>>)
    ensures
        match name {
            Some(n) => transition_in(part@) == Some(n@),
            None => transition_in(part@) is None,
        },
{
    let n = part.len();
    let tag = chars_of("@ functionName ");
    let stop = chars_of(" @ ");
    match find_in(part, tag.as_slice(), 0) {
        Some(at) => {
            proof {
                crate::text::lemma_find_from(part@, tag@, 0);
            }
            let start = at + tag.len();
            let rest = slice_subrange(part, start, n);
            match find_in(rest, stop.as_slice(), 0) {
                Some(len) => {
                    proof {
                        crate::text::lemma_find_from(rest@, stop@, 0);
                    }
                    Some(copy_range(part, start, start + len))
                },
                None => None,
            }
        },
        None => None,
    }
}

/// Reads the state that was reached.
fn read_state(part: &[char]) -> (state: Option<Vec<char>>)
    ensures
        match state {
            Some(s) => state_in(part@) == Some(s@),
            None => state_in(part@) is None,
        },
{
    let n = part.len();
    let state_tag = chars_of("@ state ");
    let constant_tag = chars_of("@ constant ");
    match find_in(part, state_tag.as_slice(), 0) {
        Some(at) => {
            proof {
                crate::text::lemma_find_from(part@, state_tag@, 0);
            }
            Some(trim(slice_subrange(part, at + state_tag.len(), n)))
        },
        None => match find_in(part, constant_tag.as_slice(), 0) {
            Some(at) => {
                proof {
                    crate::text::lemma_find_from(part@, constant_tag@, 0);
                }
                Some(trim(slice_subrange(part, at + constant_tag.len(), n)))
            },
            None => None,
        },
    }
}

/// Reads the event that one line of a mediator log reports.
pub fn parse_mediator_log_line(line: &str) -> (record: Option<EventRecord>)
    ensures
        match record {
            Some(r) => event_of(line@) == Some(r@),
            None => event_of(line@) is None,
        },
{
    let chars = chars_of(line);
    let tag = chars_of("[Node ");
    let at = match find_in(chars.as_slice(), tag.as_slice(), 0) {
        Some(at) => at,
        None => {
            return None;
        },
    };
    proof {
        crate::text::lemma_find_from(chars@, tag@, 0);
    }
    let part = slice_subrange(chars.as_slice(), at, chars.len());
    let node_id = match read_node_id(part) {
        Some(id) => id,
        None => {
            return None;
        },
    };
    let transition = match read_transition(part) {
        Some(name) => name,
        None => {
            return None;
        },
    };
    let state = match read_state(part) {
        Some(state) => state,
        None => {
            return None;
        },
    };
    Some(
        EventRecord {
            node_id,
            transition: string_of(transition.as_slice()),
            state: string_of(state.as_slice()),
        },
    )
}

/// The events that the first `n` lines report, in their order.  Each line
/// counts without the white space at its ends.
pub open spec fn events_in(lines: Seq<Seq<char>>, n: int) -> Seq<Event>
    decreases n,
{
    if n <= 0 {
        Seq::empty()
    } else {
        let before = events_in(lines, n - 1);
        match event_of(trimmed(lines[n - 1])) {
            Some(event) => before.push(event),
            None => before,
        }
    }
}

/// The events that `log` reports, in their order.
pub open spec fn events_of(log: Seq<char>) -> Seq<Event> {
    let lines = lines_of(log);
    events_in(lines, lines.len() as int)
}

/// The first index at or after `from` whose text does not come before
/// `text`, or the length of `sorted` where there is none.
pub open spec fn text_slot(sorted: Seq<Seq<char>>, text: Seq<char>, from: int) -> int
    decreases sorted.len() - from,
{
    if from < 0 || from >= sorted.len() {
        sorted.len() as int
    } else if !text_less(sorted[from], text) {
        from
    } else {
        text_slot(sorted, text, from + 1)
    }
}

/// `sorted` with `text` at its place, unless `text` stands there already.
pub open spec fn with_text(sorted: Seq<Seq<char>>, text: Seq<char>) -> Seq<Seq<char>> {
    let slot = text_slot(sorted, text, 0);
    if slot < sorted.len() && sorted[slot] == text {
        sorted
    } else {
        sorted.insert(slot, text)
    }
}

/// Does the edge `a` come before the edge `b`?  Edges are ordered by where
/// they start, then by where they lead, then by the function that ran.
pub open spec fn edge_less(a: EdgeModel, b: EdgeModel) -> bool {
    if a.from != b.from {
        text_less(a.from, b.from)
    } else if a.to != b.to {
        text_less(a.to, b.to)
    } else {
        text_less(a.transition, b.transition)
    }
}

/// The first index at or after `from` whose edge does not come before
/// `edge`, or the length of `sorted` where there is none.
pub open spec fn edge_slot(sorted: Seq<EdgeModel>, edge: EdgeModel, from: int) -> int
    decreases sorted.len() - from,
{
    if from < 0 || from >= sorted.len() {
        sorted.len() as int
    } else if !edge_less(sorted[from], edge) {
        from
    } else {
        edge_slot(sorted, edge, from + 1)
    }
}

/// `sorted` with `edge` at its place, unless `edge` stands there already.
pub open spec fn with_edge(sorted: Seq<EdgeModel>, edge: EdgeModel) -> Seq<EdgeModel> {
    let slot = edge_slot(sorted, edge, 0);
    if slot < sorted.len() && sorted[slot] == edge {
        sorted
    } else {
        sorted.insert(slot, edge)
    }
}

/// The graph without states or edges.
pub open spec fn empty_node() -> NodeModel {
    NodeModel { states: Seq::empty(), edges: Seq::empty() }
}

/// For each node, the state and the function of the last of the first `n`
/// events of that node.
pub open spec fn last_after(events: Seq<Event>, n: int) -> Map<u32, (Seq<char>, Seq<char>)>
    decreases n,
{
    if n <= 0 {
        Map::empty()
    } else {
        let event = events[n - 1];
        last_after(events, n - 1).insert(event.node_id, (event.state, event.transition))
    }
}

/// The graph of `node` after one more event of that node: the event's state
/// is a state, and where the node had an event before, the step from that
/// event's state to this one's is an edge, named by the function that ran
/// with the earlier event.
pub open spec fn node_after(
    node: NodeModel,
    previous: Option<(Seq<char>, Seq<char>)>,
    event: Event,
) -> NodeModel {
    NodeModel {
        states: with_text(node.states, event.state),
        edges: match previous {
            Some((state, transition)) => with_edge(
                node.edges,
                EdgeModel { from: state, transition, to: event.state },
            ),
            None => node.edges,
        },
    }
}

/// The graphs of the nodes after the first `n` events.
pub open spec fn graph_after(events: Seq<Event>, n: int) -> Map<u32, NodeModel>
    decreases n,
{
    if n <= 0 {
        Map::empty()
    } else {
        let graph = graph_after(events, n - 1);
        let last = last_after(events, n - 1);
        let event = events[n - 1];
        let node = if graph.contains_key(event.node_id) {
            graph[event.node_id]
        } else {
            empty_node()
        };
        let previous = if last.contains_key(event.node_id) {
            Some(last[event.node_id])
        } else {
            None
        };
        graph.insert(event.node_id, node_after(node, previous, event))
    }
}

/// The graphs of the nodes of `log`.
pub open spec fn graph_of(log: Seq<char>) -> Map<u32, NodeModel> {
    let events = events_of(log);
    graph_after(events, events.len() as int)
}

/// Does `a` come before `b`?
pub fn state_before(a: &str, b: &str) -> (before: bool)
    ensures
        before == text_less(a@, b@),
{
    let left = chars_of(a);
    let right = chars_of(b);
    comes_before(left.as_slice(), right.as_slice())
}

/// Does the edge `a` come before the edge `b`?
pub fn edge_before(a: &Edge, b: &Edge) -> (before: bool)
    ensures
        before == edge_less(a@, b@),
{
    let a_from = chars_of(a.from.as_str());
    let b_from = chars_of(b.from.as_str());
    if !same_chars(a_from.as_slice(), b_from.as_slice()) {
        return comes_before(a_from.as_slice(), b_from.as_slice());
    }
    let a_to = chars_of(a.to.as_str());
    let b_to = chars_of(b.to.as_str());
    if !same_chars(a_to.as_slice(), b_to.as_slice()) {
        return comes_before(a_to.as_slice(), b_to.as_slice());
    }
    state_before(a.transition.as_str(), b.transition.as_str())
}

/// Are `a` and `b` the same edge?
pub fn same_edge(a: &Edge, b: &Edge) -> (same: bool)
    ensures
        same == (a@ == b@),
{
    crate::text::same_text(a.from.as_str(), b.from.as_str()) && crate::text::same_text(
        a.to.as_str(),
        b.to.as_str(),
    ) && crate::text::same_text(a.transition.as_str(), b.transition.as_str())
}

/// Puts `state` at its place among the sorted `states`, unless it stands
/// there already.
pub fn insert_state(states: &mut Vec<String>, state: String)
    ensures
        final(states).deep_view() == with_text(old(states).deep_view(), state@),
{
    let ghost before = states.deep_view();
    let mut slot: usize = 0;
    while slot < states.len() && state_before(states[slot].as_str(), state.as_str())
        invariant
            0 <= slot <= states@.len(),
            states.deep_view() == before,
            text_slot(before, state@, 0) == text_slot(before, state@, slot as int),
        decreases states@.len() - slot,
    {
        assert(before[slot as int] == states@[slot as int]@);
        slot += 1;
    }
    if slot < states.len() {
        assert(before[slot as int] == states@[slot as int]@);
        if crate::text::same_text(states[slot].as_str(), state.as_str()) {
            return ;
        }
    }
    states.insert(slot, state);
    assert(states.deep_view() =~= before.insert(slot as int, state@));
}

/// Puts `edge` at its place among the sorted `edges`, unless it stands
/// there already.
pub fn insert_edge(edges: &mut Vec<Edge>, edge: Edge)
    ensures
        edge_views(final(edges)@) == with_edge(edge_views(old(edges)@), edge@),
{
    let ghost before = edge_views(edges@);
    let mut slot: usize = 0;
    while slot < edges.len() && edge_before(&edges[slot], &edge)
        invariant
            0 <= slot <= edges@.len(),
            edge_views(edges@) == before,
            edge_slot(before, edge@, 0) == edge_slot(before, edge@, slot as int),
        decreases edges@.len() - slot,
    {
        slot += 1;
    }
    if slot < edges.len() && same_edge(&edges[slot], &edge) {
        return ;
    }
    edges.insert(slot, edge);
    assert(edge_views(edges@) =~= before.insert(slot as int, edge@));
}

/// The events that the lines of `log` report, in their order.
pub fn read_events(log: &str) -> (records: Vec<EventRecord>)
    ensures
        records@.map_values(|r: EventRecord| r@) == events_of(log@),
{
    let chars = chars_of(log);
    let lines = split_lines(chars.as_slice());
    let ghost views = lines_of(log@);
    let mut records: Vec<EventRecord> = Vec::new();
    let mut i: usize = 0;
    assert(records@.map_values(|r: EventRecord| r@) =~= events_in(views, 0));
    while i < lines.len()
        invariant
            0 <= i <= lines@.len(),
            crate::text::line_views(lines@) == views,
            records@.map_values(|r: EventRecord| r@) == events_in(views, i as int),
        decreases lines@.len() - i,
    {
        let inner = trim(lines[i].as_slice());
        let text = string_of(inner.as_slice());
        assert(views[i as int] == lines@[i as int]@);
        match parse_mediator_log_line(text.as_str()) {
            Some(record) => {
                let ghost old_records = records@;
                records.push(record);
                assert(records@.map_values(|r: EventRecord| r@) =~= old_records.map_values(
                    |r: EventRecord| r@,
                ).push(record@));
            },
            None => {},
        }
        i += 1;
    }
    records
}

/// The views of the last events.
pub open spec fn last_views(last: Map<u32, (String, String)>) -> Map<u32, (Seq<char>, Seq<char>)> {
    Map::new(|id: u32| last.contains_key(id), |id: u32| (last[id].0@, last[id].1@))
}

/// Builds, for each node that `log` reports events of, the graph of its
/// states and steps.  States and edges are sorted and none occurs twice.
pub fn build_event_graph(log: &str) -> (graph: EventGraph)
    ensures
        graph@ == graph_of(log@),
{
    broadcast use vstd::std_specs::hash::group_hash_axioms;

    let records = read_events(log);
    let ghost events = events_of(log@);
    let mut nodes: HashMap<u32, NodeGraph> = HashMap::new();
    let mut last: HashMap<u32, (String, String)> = HashMap::new();
    let mut graph = EventGraph { nodes };
    assert(graph@ =~= graph_after(events, 0));
    assert(last_views(last@) =~= last_after(events, 0));
    let mut i: usize = 0;
    while i < records.len()
        invariant
            0 <= i <= records@.len(),
            records@.map_values(|r: EventRecord| r@) == events,
            graph@ == graph_after(events, i as int),
            last_views(last@) == last_after(events, i as int),
        decreases records@.len() - i,
    {
        let record = &records[i];
        assert(events[i as int] == record@);
        let ghost graph_before = graph@;
        let ghost last_before = last_views(last@);
        let id = record.node_id;
        let mut node = match graph.nodes.remove(&id) {
            Some(node) => node,
            None => NodeGraph { states: Vec::new(), edges: Vec::new() },
        };
        assert(node@.states =~= (if graph_before.contains_key(id) {
            graph_before[id]
        } else {
            empty_node()
        }).states);
        assert(node@.edges =~= (if graph_before.contains_key(id) {
            graph_before[id]
        } else {
            empty_node()
        }).edges);
        let state = record.state.clone();
        insert_state(&mut node.states, state);
        match last.get(&id) {
            Some(previous) => {
                let edge = Edge {
                    from: previous.0.clone(),
                    transition: previous.1.clone(),
                    to: record.state.clone(),
                };
                insert_edge(&mut node.edges, edge);
            },
            None => {},
        }
        graph.nodes.insert(id, node);
        last.insert(id, (record.state.clone(), record.transition.clone()));
        assert(graph@ =~= graph_after(events, i + 1));
        assert(last_views(last@) =~= last_after(events, i + 1));
        i += 1;
    }
    graph
}

/// `sorted` with `edge` at its place, beside its like if it stands there
/// already.
pub open spec fn with_edge_kept(sorted: Seq<EdgeModel>, edge: EdgeModel) -> Seq<EdgeModel> {
    sorted.insert(edge_slot(sorted, edge, 0), edge)
}

/// The first `n` of the edges in order, each as often as it occurs.
pub open spec fn sorted_edges(edges: Seq<EdgeModel>, n: int) -> Seq<EdgeModel>
    decreases n,
{
    if n <= 0 {
        Seq::empty()
    } else {
        with_edge_kept(sorted_edges(edges, n - 1), edges[n - 1])
    }
}

/// The lines that open a graph description.
pub open spec fn dot_header() -> Seq<char> {
    "digraph G{\n"@ + "    rankdir=LR;\n"@ + "    node [shape=circle, fontsize=10, width=0.5];\n"@
        + "    edge [fontsize=9];\n"@
}

/// The line that declares one state.
pub open spec fn state_line(state: Seq<char>) -> Seq<char> {
    "    \""@ + state + "\";\n"@
}

/// The lines that declare the first `n` states.
pub open spec fn states_text(states: Seq<Seq<char>>, n: int) -> Seq<char>
    decreases n,
{
    if n <= 0 {
        Seq::empty()
    } else {
        states_text(states, n - 1) + state_line(states[n - 1])
    }
}

/// Do `a` and `b` start at the same state and lead to the same state?
pub open spec fn same_ends(a: EdgeModel, b: EdgeModel) -> bool {
    a.from == b.from && a.to == b.to
}

/// What opens the line of the edges from one state to another.
pub open spec fn edge_opening(edge: EdgeModel) -> Seq<char> {
    "    \""@ + edge.from + "\" -> \""@ + edge.to + "\" [label=<"@
}

/// What the edge at index `k` adds to the text.  Edges with the same ends
/// share a line: the first opens it, each adds its label, a break between
/// two labels, and the last closes it.
pub open spec fn edge_piece(edges: Seq<EdgeModel>, k: int) -> Seq<char> {
    let opening = if k == 0 || !same_ends(edges[k - 1], edges[k]) {
        edge_opening(edges[k])
    } else {
        "<BR/>"@
    };
    let closing = if k + 1 >= edges.len() || !same_ends(edges[k], edges[k + 1]) {
        ">];\n"@
    } else {
        Seq::empty()
    };
    opening + edges[k].transition + closing
}

/// What the first `n` edges add to the text.
pub open spec fn edges_text(edges: Seq<EdgeModel>, n: int) -> Seq<char>
    decreases n,
{
    if n <= 0 {
        Seq::empty()
    } else {
        edges_text(edges, n - 1) + edge_piece(edges, n - 1)
    }
}

/// The description of a node's graph in the DOT language: the header, a
/// line for each state in the order given, a line for each pair of states
/// with an edge between them, in the order of the pairs and with the labels
/// of their edges in order, and the closing brace.
pub open spec fn dot_text(node: NodeModel) -> Seq<char> {
    let edges = sorted_edges(node.edges, node.edges.len() as int);
    dot_header() + states_text(node.states, node.states.len() as int) + edges_text(
        edges,
        edges.len() as int,
    ) + "}\n"@
}

/// The edges in order, each as often as it occurs.
pub fn sort_edges(edges: &Vec<Edge>) -> (sorted: Vec<Edge>)
    ensures
        edge_views(sorted@) == sorted_edges(edge_views(edges@), edges@.len() as int),
{
    let mut sorted: Vec<Edge> = Vec::new();
    let ghost models = edge_views(edges@);
    let mut i: usize = 0;
    assert(edge_views(sorted@) =~= sorted_edges(models, 0));
    while i < edges.len()
        invariant
            0 <= i <= edges@.len(),
            models == edge_views(edges@),
            edge_views(sorted@) == sorted_edges(models, i as int),
        decreases edges@.len() - i,
    {
        let edge = Edge {
            from: edges[i].from.clone(),
            transition: edges[i].transition.clone(),
            to: edges[i].to.clone(),
        };
        assert(edge@ == models[i as int]);
        let ghost before = edge_views(sorted@);
        let mut slot: usize = 0;
        while slot < sorted.len() && edge_before(&sorted[slot], &edge)
            invariant
                0 <= slot <= sorted@.len(),
                edge_views(sorted@) == before,
                edge_slot(before, edge@, 0) == edge_slot(before, edge@, slot as int),
            decreases sorted@.len() - slot,
        {
            slot += 1;
        }
        sorted.insert(slot, edge);
        assert(edge_views(sorted@) =~= before.insert(slot as int, edge@));
        i += 1;
    }
    sorted
}

/// Do `a` and `b` start at the same state and lead to the same state?
pub fn share_ends(a: &Edge, b: &Edge) -> (same: bool)
    ensures
        same == same_ends(a@, b@),
{
    crate::text::same_text(a.from.as_str(), b.from.as_str()) && crate::text::same_text(
        a.to.as_str(),
        b.to.as_str(),
    )
}

/// Describes a node's graph in the DOT language.
pub fn dot_for_node_graph(node: &NodeGraph) -> (dot: String)
    ensures
        dot@ == dot_text(node@),
{
    let mut out = String::new();
    out.append("digraph G{\n");
    out.append("    rankdir=LR;\n");
    out.append("    node [shape=circle, fontsize=10, width=0.5];\n");
    out.append("    edge [fontsize=9];\n");
    assert(out@ =~= dot_header());
    let ghost states = node@.states;
    let mut i: usize = 0;
    assert(out@ =~= dot_header() + states_text(states, 0));
    while i < node.states.len()
        invariant
            0 <= i <= node.states@.len(),
            states == node@.states,
            out@ == dot_header() + states_text(states, i as int),
        decreases node.states@.len() - i,
    {
        let ghost before = out@;
        assert(states[i as int] == node.states@[i as int]@);
        out.append("    \"");
        out.append(node.states[i].as_str());
        out.append("\";\n");
        assert(out@ =~= before + state_line(states[i as int]));
        assert(out@ =~= dot_header() + states_text(states, i + 1));
        i += 1;
    }
    let sorted = sort_edges(&node.edges);
    let ghost edges = edge_views(sorted@);
    let ghost head = dot_header() + states_text(states, states.len() as int);
    let mut k: usize = 0;
    assert(out@ =~= head + edges_text(edges, 0));
    while k < sorted.len()
        invariant
            0 <= k <= sorted@.len(),
            edges == edge_views(sorted@),
            out@ == head + edges_text(edges, k as int),
        decreases sorted@.len() - k,
    {
        let ghost before = out@;
        let edge = &sorted[k];
        assert(edge@ == edges[k as int]);
        if k == 0 || !share_ends(&sorted[k - 1], edge) {
            out.append("    \"");
            out.append(edge.from.as_str());
            out.append("\" -> \"");
            out.append(edge.to.as_str());
            out.append("\" [label=<");
        } else {
            out.append("<BR/>");
        }
        out.append(edge.transition.as_str());
        if k + 1 >= sorted.len() || !share_ends(edge, &sorted[k + 1]) {
            out.append(">];\n");
        }
        assert(out@ =~= before + edge_piece(edges, k as int));
        assert(out@ =~= head + edges_text(edges, k + 1));
        k += 1;
    }
    out.append("}\n");
    assert(out@ =~= dot_text(node@));
    out
}

/// Does each text come before all that follow it?
pub open spec fn ascending_texts(texts: Seq<Seq<char>>) -> bool {
    forall|i: int, j: int|
        0 <= i < j < texts.len() ==> text_less(#[trigger] texts[i], #[trigger] texts[j])
}

/// Does each edge come before all that follow it?
pub open spec fn ascending_edges(edges: Seq<EdgeModel>) -> bool {
    forall|i: int, j: int|
        0 <= i < j < edges.len() ==> edge_less(#[trigger] edges[i], #[trigger] edges[j])
}

/// Does no edge come before one that stands in front of it?
pub open spec fn ordered_edges(edges: Seq<EdgeModel>) -> bool {
    forall|i: int, j: int|
        0 <= i < j < edges.len() ==> !edge_less(#[trigger] edges[j], #[trigger] edges[i])
}

/// The order of edges is total and strict.
pub proof fn lemma_edge_order_total(a: EdgeModel, b: EdgeModel)
    ensures
        a == b || edge_less(a, b) || edge_less(b, a),
        !(edge_less(a, b) && edge_less(b, a)),
        !edge_less(a, a),
{
    lemma_text_order_total(a.from, b.from);
    lemma_text_order_total(a.to, b.to);
    lemma_text_order_total(a.transition, b.transition);
    lemma_text_order_total(a.transition, a.transition);
}

/// What comes before an edge comes before all that the edge comes before.
pub proof fn lemma_edge_order_transitive(a: EdgeModel, b: EdgeModel, c: EdgeModel)
    requires
        edge_less(a, b),
        edge_less(b, c),
    ensures
        edge_less(a, c),
{
    lemma_text_order_total(a.from, b.from);
    lemma_text_order_total(b.from, c.from);
    lemma_text_order_total(a.from, c.from);
    lemma_text_order_total(a.to, b.to);
    lemma_text_order_total(b.to, c.to);
    lemma_text_order_total(a.to, c.to);
    if text_less(a.from, b.from) && text_less(b.from, c.from) {
        lemma_text_order_transitive(a.from, b.from, c.from);
    }
    if text_less(a.to, b.to) && text_less(b.to, c.to) {
        lemma_text_order_transitive(a.to, b.to, c.to);
    }
    if text_less(a.transition, b.transition) && text_less(b.transition, c.transition) {
        lemma_text_order_transitive(a.transition, b.transition, c.transition);
    }
}

/// All that stands between `from` and the slot of a text comes before the
/// text, and what stands at the slot does not.
pub proof fn lemma_text_slot(sorted: Seq<Seq<char>>, text: Seq<char>, from: int)
    requires
        0 <= from <= sorted.len(),
    ensures
        from <= text_slot(sorted, text, from) <= sorted.len(),
        forall|k: int| from <= k < text_slot(sorted, text, from) ==> text_less(sorted[k], text),
        text_slot(sorted, text, from) < sorted.len() ==> !text_less(
            sorted[text_slot(sorted, text, from)],
            text,
        ),
    decreases sorted.len() - from,
{
    if from < sorted.len() && text_less(sorted[from], text) {
        lemma_text_slot(sorted, text, from + 1);
    }
}

/// All that stands between `from` and the slot of an edge comes before the
/// edge, and what stands at the slot does not.
pub proof fn lemma_edge_slot(sorted: Seq<EdgeModel>, edge: EdgeModel, from: int)
    requires
        0 <= from <= sorted.len(),
    ensures
        from <= edge_slot(sorted, edge, from) <= sorted.len(),
        forall|k: int| from <= k < edge_slot(sorted, edge, from) ==> edge_less(sorted[k], edge),
        edge_slot(sorted, edge, from) < sorted.len() ==> !edge_less(
            sorted[edge_slot(sorted, edge, from)],
            edge,
        ),
    decreases sorted.len() - from,
{
    if from < sorted.len() && edge_less(sorted[from], edge) {
        lemma_edge_slot(sorted, edge, from + 1);
    }
}

/// Putting a text at its place keeps the texts ascending, and adds that
/// text and no other.
pub proof fn lemma_with_text(sorted: Seq<Seq<char>>, text: Seq<char>)
    requires
        ascending_texts(sorted),
    ensures
        ascending_texts(with_text(sorted, text)),
        with_text(sorted, text).contains(text),
        forall|other: Seq<char>| #[trigger]
            with_text(sorted, text).contains(other) ==> sorted.contains(other) || other == text,
        forall|other: Seq<char>| #[trigger]
            sorted.contains(other) ==> with_text(sorted, text).contains(other),
{
    let slot = text_slot(sorted, text, 0);
    let after = with_text(sorted, text);
    lemma_text_slot(sorted, text, 0);
    if slot < sorted.len() && sorted[slot] == text {
        assert(sorted.contains(text));
    } else {
        sorted.insert_ensures(slot, text);
        assert forall|i: int, j: int| 0 <= i < j < after.len() implies text_less(
            #[trigger] after[i],
            #[trigger] after[j],
        ) by {
            if i < slot && j == slot {
            } else if i < slot && j < slot {
            } else if i < slot && j > slot {
                assert(after[j] == sorted[j - 1]);
            } else if i == slot {
                assert(after[j] == sorted[j - 1]);
                lemma_text_order_total(sorted[slot], text);
                if j - 1 > slot {
                    lemma_text_order_transitive(text, sorted[slot], sorted[j - 1]);
                }
            } else {
                assert(after[i] == sorted[i - 1]);
                assert(after[j] == sorted[j - 1]);
            }
        }
        assert forall|other: Seq<char>| after.contains(other) implies sorted.contains(other)
            || other == text by {
            let k = choose|k: int| 0 <= k < after.len() && after[k] == other;
            if k < slot {
                assert(sorted[k] == other);
            } else if k > slot {
                assert(sorted[k - 1] == other);
            }
        }
        assert forall|other: Seq<char>| sorted.contains(other) || other == text implies #[trigger] after.contains(
            other,
        ) by {
            if other == text {
                assert(after[slot] == other);
            } else {
                let k = choose|k: int| 0 <= k < sorted.len() && sorted[k] == other;
                if k < slot {
                    assert(after[k] == other);
                } else {
                    assert(after[k + 1] == other);
                }
            }
        }
    }
}

/// Putting an edge at its place keeps the edges ascending, and adds that
/// edge and no other.
pub proof fn lemma_with_edge(sorted: Seq<EdgeModel>, edge: EdgeModel)
    requires
        ascending_edges(sorted),
    ensures
        ascending_edges(with_edge(sorted, edge)),
        with_edge(sorted, edge).contains(edge),
        forall|other: EdgeModel| #[trigger]
            with_edge(sorted, edge).contains(other) ==> sorted.contains(other) || other == edge,
        forall|other: EdgeModel| #[trigger]
            sorted.contains(other) ==> with_edge(sorted, edge).contains(other),
{
    let slot = edge_slot(sorted, edge, 0);
    let after = with_edge(sorted, edge);
    lemma_edge_slot(sorted, edge, 0);
    if slot < sorted.len() && sorted[slot] == edge {
        assert(sorted.contains(edge));
    } else {
        sorted.insert_ensures(slot, edge);
        assert forall|i: int, j: int| 0 <= i < j < after.len() implies edge_less(
            #[trigger] after[i],
            #[trigger] after[j],
        ) by {
            if i < slot && j == slot {
            } else if i < slot && j < slot {
            } else if i < slot && j > slot {
                assert(after[j] == sorted[j - 1]);
            } else if i == slot {
                assert(after[j] == sorted[j - 1]);
                lemma_edge_order_total(sorted[slot], edge);
                if j - 1 > slot {
                    lemma_edge_order_transitive(edge, sorted[slot], sorted[j - 1]);
                }
            } else {
                assert(after[i] == sorted[i - 1]);
                assert(after[j] == sorted[j - 1]);
            }
        }
        assert forall|other: EdgeModel| after.contains(other) implies sorted.contains(other)
            || other == edge by {
            let k = choose|k: int| 0 <= k < after.len() && after[k] == other;
            if k < slot {
                assert(sorted[k] == other);
            } else if k > slot {
                assert(sorted[k - 1] == other);
            }
        }
        assert forall|other: EdgeModel| sorted.contains(other) || other == edge implies #[trigger] after.contains(
            other,
        ) by {
            if other == edge {
                assert(after[slot] == other);
            } else {
                let k = choose|k: int| 0 <= k < sorted.len() && sorted[k] == other;
                if k < slot {
                    assert(after[k] == other);
                } else {
                    assert(after[k + 1] == other);
                }
            }
        }
    }
}

/// Is the event at index `k` one of the node `id`?
pub open spec fn is_event_of(events: Seq<Event>, k: int, id: u32) -> bool {
    0 <= k < events.len() && events[k].node_id == id
}

/// Are the events at `j` and `k` two events of the node `id` with no event
/// of that node between them?
pub open spec fn is_step(events: Seq<Event>, j: int, k: int, id: u32) -> bool {
    &&& j < k
    &&& is_event_of(events, j, id)
    &&& is_event_of(events, k, id)
    &&& forall|m: int| j < m < k ==> !is_event_of(events, m, id)
}

/// The edge of the step from the event at `j` to the event at `k`: from the
/// state of the first to the state of the second, named by the function
/// that ran with the first.
pub open spec fn step_edge(events: Seq<Event>, j: int, k: int) -> EdgeModel {
    EdgeModel { from: events[j].state, transition: events[j].transition, to: events[k].state }
}

/// Is the event at index `j` the last of the node `id` among the first `n`?
pub open spec fn is_last_of(events: Seq<Event>, n: int, j: int, id: u32) -> bool {
    &&& j < n
    &&& is_event_of(events, j, id)
    &&& forall|m: int| j < m < n ==> !is_event_of(events, m, id)
}

/// A node has a last event as soon as it has an event, and what is kept of
/// it is its state and its function.
pub proof fn lemma_last_event(events: Seq<Event>, n: int, id: u32)
    requires
        0 <= n <= events.len(),
    ensures
        last_after(events, n).contains_key(id) <==> exists|k: int|
            k < n && is_event_of(events, k, id),
        last_after(events, n).contains_key(id) ==> exists|j: int|
            is_last_of(events, n, j, id) && last_after(events, n)[id] == (
                events[j].state,
                events[j].transition,
            ),
    decreases n,
{
    if n > 0 {
        lemma_last_event(events, n - 1, id);
        if events[n - 1].node_id == id {
            assert(is_event_of(events, n - 1, id));
            assert(is_last_of(events, n, n - 1, id));
        } else {
            if last_after(events, n).contains_key(id) {
                let k = choose|k: int| k < n - 1 && is_event_of(events, k, id);
                assert(k < n && is_event_of(events, k, id));
                let j = choose|j: int|
                    is_last_of(events, n - 1, j, id) && last_after(events, n - 1)[id] == (
                        events[j].state,
                        events[j].transition,
                    );
                assert(is_last_of(events, n, j, id));
            }
            if exists|k: int| k < n && is_event_of(events, k, id) {
                let k = choose|k: int| k < n && is_event_of(events, k, id);
                assert(k < n - 1 && is_event_of(events, k, id));
            }
        }
    }
}

/// Is `state` the state of one of the first `n` events of the node `id`?
pub open spec fn visits(events: Seq<Event>, n: int, id: u32, state: Seq<char>) -> bool {
    exists|k: int| k < n && is_event_of(events, k, id) && events[k].state == state
}

/// Is `edge` the edge of a step of the node `id` among the first `n` events?
pub open spec fn takes(events: Seq<Event>, n: int, id: u32, edge: EdgeModel) -> bool {
    exists|j: int, k: int| k < n && is_step(events, j, k, id) && step_edge(events, j, k) == edge
}

/// The nodes of the graph are those with an event, and the states of a node
/// are the states of its events, ascending.
pub proof fn lemma_graph_states(events: Seq<Event>, n: int, id: u32)
    requires
        0 <= n <= events.len(),
    ensures
        graph_after(events, n).contains_key(id) <==> exists|k: int|
            k < n && is_event_of(events, k, id),
        graph_after(events, n).contains_key(id) ==> ascending_texts(
            graph_after(events, n)[id].states,
        ),
        graph_after(events, n).contains_key(id) ==> forall|state: Seq<char>|
            graph_after(events, n)[id].states.contains(state) <==> visits(events, n, id, state),
    decreases n,
{
    if n > 0 {
        lemma_graph_states(events, n - 1, id);
        let before = graph_after(events, n - 1);
        let event = events[n - 1];
        if event.node_id == id {
            assert(is_event_of(events, n - 1, id));
            let node = if before.contains_key(id) {
                before[id]
            } else {
                empty_node()
            };
            lemma_with_text(node.states, event.state);
            let states = graph_after(events, n)[id].states;
            assert(states == with_text(node.states, event.state));
            assert forall|state: Seq<char>| states.contains(state) implies visits(
                events,
                n,
                id,
                state,
            ) by {
                if state == event.state {
                    assert(n - 1 < n && is_event_of(events, n - 1, id) && events[n - 1].state
                        == state);
                } else {
                    assert(node.states.contains(state));
                    assert(visits(events, n - 1, id, state));
                    let k = choose|k: int|
                        k < n - 1 && is_event_of(events, k, id) && events[k].state == state;
                    assert(k < n && is_event_of(events, k, id) && events[k].state == state);
                }
            }
            assert forall|state: Seq<char>| visits(events, n, id, state) implies states.contains(
                state,
            ) by {
                let k = choose|k: int|
                    k < n && is_event_of(events, k, id) && events[k].state == state;
                if k < n - 1 {
                    assert(k < n - 1 && is_event_of(events, k, id) && events[k].state == state);
                    assert(visits(events, n - 1, id, state));
                    assert(k < n - 1 && is_event_of(events, k, id));
                    assert(before.contains_key(id));
                    assert(node.states.contains(state));
                } else {
                    assert(state == event.state);
                }
                assert(with_text(node.states, event.state).contains(state));
            }
        } else {
            if graph_after(events, n).contains_key(id) {
                let k = choose|k: int| k < n - 1 && is_event_of(events, k, id);
                assert(k < n && is_event_of(events, k, id));
                let states = graph_after(events, n)[id].states;
                assert forall|state: Seq<char>| states.contains(state) implies visits(
                    events,
                    n,
                    id,
                    state,
                ) by {
                    assert(visits(events, n - 1, id, state));
                    let k = choose|k: int|
                        k < n - 1 && is_event_of(events, k, id) && events[k].state == state;
                    assert(k < n && is_event_of(events, k, id) && events[k].state == state);
                }
                assert forall|state: Seq<char>| visits(
                    events,
                    n,
                    id,
                    state,
                ) implies states.contains(state) by {
                    let k = choose|k: int|
                        k < n && is_event_of(events, k, id) && events[k].state == state;
                    assert(k < n - 1 && is_event_of(events, k, id) && events[k].state == state);
                    assert(visits(events, n - 1, id, state));
                }
            }
            if exists|k: int| k < n && is_event_of(events, k, id) {
                let k = choose|k: int| k < n && is_event_of(events, k, id);
                assert(k < n - 1 && is_event_of(events, k, id));
            }
        }
    }
}

/// The edges of a node are the edges of its steps, ascending.
pub proof fn lemma_graph_edges(events: Seq<Event>, n: int, id: u32)
    requires
        0 <= n <= events.len(),
        graph_after(events, n).contains_key(id),
    ensures
        ascending_edges(graph_after(events, n)[id].edges),
        forall|edge: EdgeModel|
            graph_after(events, n)[id].edges.contains(edge) <==> takes(events, n, id, edge),
    decreases n,
{
    let before = graph_after(events, n - 1);
    let event = events[n - 1];
    let edges = graph_after(events, n)[id].edges;
    if before.contains_key(id) {
        lemma_graph_edges(events, n - 1, id);
    }
    lemma_graph_states(events, n - 1, id);
    lemma_last_event(events, n - 1, id);
    let old_edges = if before.contains_key(id) {
        before[id].edges
    } else {
        Seq::<EdgeModel>::empty()
    };
    assert forall|edge: EdgeModel| old_edges.contains(edge) <==> takes(
        events,
        n - 1,
        id,
        edge,
    ) by {
        if !before.contains_key(id) {
            if takes(events, n - 1, id, edge) {
                let (j, k) = choose|j: int, k: int|
                    k < n - 1 && is_step(events, j, k, id) && step_edge(events, j, k) == edge;
                assert(k < n - 1 && is_event_of(events, k, id));
            }
        }
    }
    if event.node_id != id {
        assert(edges == old_edges);
        assert forall|edge: EdgeModel| takes(events, n, id, edge) implies takes(
            events,
            n - 1,
            id,
            edge,
        ) by {
            let (j, k) = choose|j: int, k: int|
                k < n && is_step(events, j, k, id) && step_edge(events, j, k) == edge;
            assert(k < n - 1 && is_step(events, j, k, id) && step_edge(events, j, k) == edge);
        }
        assert forall|edge: EdgeModel| takes(events, n - 1, id, edge) implies takes(
            events,
            n,
            id,
            edge,
        ) by {
            let (j, k) = choose|j: int, k: int|
                k < n - 1 && is_step(events, j, k, id) && step_edge(events, j, k) == edge;
            assert(k < n && is_step(events, j, k, id) && step_edge(events, j, k) == edge);
        }
    } else if !last_after(events, n - 1).contains_key(id) {
        assert(edges == old_edges);
        assert forall|edge: EdgeModel| takes(events, n, id, edge) implies takes(
            events,
            n - 1,
            id,
            edge,
        ) by {
            let (j, k) = choose|j: int, k: int|
                k < n && is_step(events, j, k, id) && step_edge(events, j, k) == edge;
            assert(j < n - 1 && is_event_of(events, j, id));
        }
    } else {
        let last = choose|j: int|
            is_last_of(events, n - 1, j, id) && last_after(events, n - 1)[id] == (
                events[j].state,
                events[j].transition,
            );
        let step = step_edge(events, last, n - 1);
        assert(is_step(events, last, n - 1, id));
        assert(edges == with_edge(old_edges, step));
        lemma_with_edge(old_edges, step);
        assert forall|edge: EdgeModel| edges.contains(edge) implies takes(
            events,
            n,
            id,
            edge,
        ) by {
            if edge == step {
                assert(n - 1 < n && is_step(events, last, n - 1, id) && step_edge(
                    events,
                    last,
                    n - 1,
                ) == edge);
            } else {
                assert(takes(events, n - 1, id, edge));
                let (j, k) = choose|j: int, k: int|
                    k < n - 1 && is_step(events, j, k, id) && step_edge(events, j, k) == edge;
                assert(k < n && is_step(events, j, k, id) && step_edge(events, j, k) == edge);
            }
        }
        assert forall|edge: EdgeModel| takes(events, n, id, edge) implies edges.contains(
            edge,
        ) by {
            let (j, k) = choose|j: int, k: int|
                k < n && is_step(events, j, k, id) && step_edge(events, j, k) == edge;
            if k < n - 1 {
                assert(k < n - 1 && is_step(events, j, k, id) && step_edge(events, j, k)
                    == edge);
                assert(takes(events, n - 1, id, edge));
                assert(old_edges.contains(edge));
            } else {
                if j < last {
                    assert(!is_event_of(events, last, id));
                } else if j > last {
                    assert(!is_event_of(events, j, id));
                }
                assert(edge == step);
            }
            assert(with_edge(old_edges, step).contains(edge));
        }
    }
}

/// What [`build_event_graph`] builds, said directly: the nodes are those
/// that the log reports events of; the states of a node are the states of
/// its events and the edges of a node the edges of its steps; both are
/// ascending, so none occurs twice.
pub proof fn lemma_graph_of(log: Seq<char>, id: u32)
    ensures
        ({
            let events = events_of(log);
            let graph = graph_of(log);
            let n = events.len() as int;
            &&& graph.contains_key(id) <==> exists|k: int| is_event_of(events, k, id)
            &&& graph.contains_key(id) ==> {
                &&& ascending_texts(graph[id].states)
                &&& ascending_edges(graph[id].edges)
                &&& forall|state: Seq<char>|
                    graph[id].states.contains(state) <==> visits(events, n, id, state)
                &&& forall|edge: EdgeModel|
                    graph[id].edges.contains(edge) <==> takes(events, n, id, edge)
            }
        }),
{
    let events = events_of(log);
    let n = events.len() as int;
    lemma_graph_states(events, n, id);
    if graph_of(log).contains_key(id) {
        lemma_graph_edges(events, n, id);
        let k = choose|k: int| k < n && is_event_of(events, k, id);
        assert(is_event_of(events, k, id));
    }
    if exists|k: int| is_event_of(events, k, id) {
        let k = choose|k: int| is_event_of(events, k, id);
        assert(k < n && is_event_of(events, k, id));
    }
}

/// Putting an edge at its place, beside its likes, keeps the edges in order
/// and adds one occurrence of that edge and nothing else.
pub proof fn lemma_with_edge_kept(sorted: Seq<EdgeModel>, edge: EdgeModel)
    requires
        ordered_edges(sorted),
    ensures
        ordered_edges(with_edge_kept(sorted, edge)),
        with_edge_kept(sorted, edge).to_multiset() == sorted.to_multiset().insert(edge),
{
    let slot = edge_slot(sorted, edge, 0);
    let after = with_edge_kept(sorted, edge);
    lemma_edge_slot(sorted, edge, 0);
    sorted.insert_ensures(slot, edge);
    vstd::seq_lib::to_multiset_insert(sorted, slot, edge);
    assert forall|i: int, j: int| 0 <= i < j < after.len() implies !edge_less(
        #[trigger] after[j],
        #[trigger] after[i],
    ) by {
        if i < slot && j == slot {
            lemma_edge_order_total(sorted[i], edge);
        } else if i < slot && j < slot {
        } else if i < slot && j > slot {
            assert(after[j] == sorted[j - 1]);
        } else if i == slot {
            assert(after[j] == sorted[j - 1]);
            lemma_edge_order_total(sorted[slot], sorted[j - 1]);
            if edge_less(sorted[j - 1], edge) && edge_less(sorted[slot], sorted[j - 1]) {
                lemma_edge_order_transitive(sorted[slot], sorted[j - 1], edge);
            }
        } else {
            assert(after[i] == sorted[i - 1]);
            assert(after[j] == sorted[j - 1]);
        }
    }
}

/// The edges in order are in order, and they are the edges that were given,
/// each as often as it was given.
pub proof fn lemma_sorted_edges(edges: Seq<EdgeModel>, n: int)
    requires
        0 <= n <= edges.len(),
    ensures
        ordered_edges(sorted_edges(edges, n)),
        sorted_edges(edges, n).to_multiset() == edges.take(n).to_multiset(),
        sorted_edges(edges, n).len() == n,
    decreases n,
{
    if n > 0 {
        lemma_sorted_edges(edges, n - 1);
        let before = sorted_edges(edges, n - 1);
        lemma_with_edge_kept(before, edges[n - 1]);
        lemma_edge_slot(before, edges[n - 1], 0);
        before.insert_ensures(edge_slot(before, edges[n - 1], 0), edges[n - 1]);
        assert(edges.take(n) =~= edges.take(n - 1).push(edges[n - 1]));
        vstd::seq_lib::to_multiset_build(edges.take(n - 1), edges[n - 1]);
    } else {
        assert(edges.take(0) =~= Seq::<EdgeModel>::empty());
    }
}

} // verus!
