use abstraktor::model::event_graph::{
    build_event_graph, dot_for_node_graph, edge_before, insert_edge, insert_state,
    parse_mediator_log_line, read_events, same_edge, share_ends, sort_edges, state_before, Edge,
    NodeGraph,
};


#[test]
fn builds_cyclic_graph_with_four_states() {
    let log = "[2025-11-10 19:56:55.000001][INFO] [FUNC_EVENT_TYPE][Node 1 Batch 1 Entry 1 / 5] FunctionExecute 1 @ functionName init @ state idle
[2025-11-10 19:56:55.000002][INFO] [FUNC_EVENT_TYPE][Node 1 Batch 1 Entry 2 / 5] FunctionExecute 2 @ functionName start @ state active
[2025-11-10 19:56:55.000003][INFO] [FUNC_EVENT_TYPE][Node 1 Batch 1 Entry 3 / 5] FunctionExecute 3 @ functionName process @ state busy
[2025-11-10 19:56:55.000004][INFO] [FUNC_EVENT_TYPE][Node 1 Batch 1 Entry 4 / 5] FunctionExecute 4 @ functionName complete @ state ready
[2025-11-10 19:56:55.000005][INFO] [FUNC_EVENT_TYPE][Node 1 Batch 1 Entry 5 / 5] FunctionExecute 5 @ functionName reset @ state idle";
    let g = build_event_graph(log);
    let node = g.nodes.get(&1).unwrap();

    assert_eq!(node.states.len(), 4);
    assert!(node.states.contains(&"idle".to_string()));
    assert!(node.states.contains(&"active".to_string()));
    assert!(node.states.contains(&"busy".to_string()));
    assert!(node.states.contains(&"ready".to_string()));

    assert_eq!(node.edges.len(), 4);
    assert!(
        node.edges
            .iter()
            .any(|e| e.from == "idle" && e.transition == "init" && e.to == "active")
    );
    assert!(
        node.edges
            .iter()
            .any(|e| e.from == "active" && e.transition == "start" && e.to == "busy")
    );
    assert!(
        node.edges
            .iter()
            .any(|e| e.from == "busy" && e.transition == "process" && e.to == "ready")
    );
    assert!(
        node.edges
            .iter()
            .any(|e| e.from == "ready" && e.transition == "complete" && e.to == "idle")
    );

    assert!(
        !node
            .edges
            .iter()
            .any(|e| e.from == "active" && e.to == "ready")
    );
    assert!(
        !node
            .edges
            .iter()
            .any(|e| e.from == "idle" && e.to == "busy")
    );
}

#[test]
fn builds_complex_non_cyclic_graph_with_five_states() {
    let log = "[2025-11-10 19:56:55.000001][INFO] [BLOCK_EVENT_TYPE][Node 1 Batch 1 Entry 1 / 9] BlockExecute 1 @ functionName boot @ state startup
[2025-11-10 19:56:55.000002][INFO] [BLOCK_EVENT_TYPE][Node 1 Batch 1 Entry 2 / 9] BlockExecute 2 @ functionName load @ state config
[2025-11-10 19:56:55.000003][INFO] [BLOCK_EVENT_TYPE][Node 1 Batch 1 Entry 3 / 9] BlockExecute 3 @ functionName validate @ state ready
[2025-11-10 19:56:55.000004][INFO] [BLOCK_EVENT_TYPE][Node 1 Batch 1 Entry 4 / 9] BlockExecute 4 @ functionName connect @ state network
[2025-11-10 19:56:55.000005][INFO] [BLOCK_EVENT_TYPE][Node 1 Batch 1 Entry 5 / 9] BlockExecute 5 @ functionName auth @ state authenticated
[2025-11-10 19:56:55.000006][INFO] [BLOCK_EVENT_TYPE][Node 1 Batch 1 Entry 6 / 9] BlockExecute 6 @ functionName error @ state network
[2025-11-10 19:56:55.000007][INFO] [BLOCK_EVENT_TYPE][Node 1 Batch 1 Entry 7 / 9] BlockExecute 7 @ functionName retry @ state authenticated
[2025-11-10 19:56:55.000008][INFO] [BLOCK_EVENT_TYPE][Node 1 Batch 1 Entry 8 / 9] BlockExecute 8 @ functionName shutdown @ state config
[2025-11-10 19:56:55.000009][INFO] [BLOCK_EVENT_TYPE][Node 1 Batch 1 Entry 9 / 9] BlockExecute 9 @ functionName cleanup @ state startup";
    let g = build_event_graph(log);
    let node = g.nodes.get(&1).unwrap();

    assert_eq!(node.states.len(), 5);
    assert!(node.states.contains(&"startup".to_string()));
    assert!(node.states.contains(&"config".to_string()));
    assert!(node.states.contains(&"ready".to_string()));
    assert!(node.states.contains(&"network".to_string()));
    assert!(node.states.contains(&"authenticated".to_string()));

    assert_eq!(node.edges.len(), 8);
    assert!(
        node.edges
            .iter()
            .any(|e| e.from == "startup" && e.transition == "boot" && e.to == "config")
    );
    assert!(
        node.edges
            .iter()
            .any(|e| e.from == "config" && e.transition == "load" && e.to == "ready")
    );
    assert!(
        node.edges
            .iter()
            .any(|e| e.from == "ready" && e.transition == "validate" && e.to == "network")
    );
    assert!(
        node.edges.iter().any(|e| e.from == "network"
            && e.transition == "connect"
            && e.to == "authenticated")
    );
    assert!(
        node.edges
            .iter()
            .any(|e| e.from == "authenticated" && e.transition == "auth" && e.to == "network")
    );
    assert!(
        node.edges
            .iter()
            .any(|e| e.from == "network" && e.transition == "error" && e.to == "authenticated")
    );
    assert!(
        node.edges
            .iter()
            .any(|e| e.from == "authenticated" && e.transition == "retry" && e.to == "config")
    );
    assert!(
        node.edges
            .iter()
            .any(|e| e.from == "config" && e.transition == "shutdown" && e.to == "startup")
    );
}

#[test]
fn builds_separate_graphs_for_different_node_ids() {
    let log = "[2025-11-10 19:56:55.000001][INFO] [FUNC_EVENT_TYPE][Node 1 Batch 1 Entry 1 / 2] FunctionExecute 1 @ functionName start @ state idle
[2025-11-10 19:56:55.000002][INFO] [FUNC_EVENT_TYPE][Node 2 Batch 1 Entry 1 / 2] FunctionExecute 2 @ functionName init @ state stopped
[2025-11-10 19:56:55.000003][INFO] [FUNC_EVENT_TYPE][Node 1 Batch 1 Entry 2 / 2] FunctionExecute 3 @ functionName work @ state active
[2025-11-10 19:56:55.000004][INFO] [FUNC_EVENT_TYPE][Node 2 Batch 1 Entry 2 / 2] FunctionExecute 4 @ functionName boot @ state running
[2025-11-10 19:56:55.000005][INFO] [FUNC_EVENT_TYPE][Node 1 Batch 2 Entry 1 / 1] FunctionExecute 5 @ functionName finish @ state idle
[2025-11-10 19:56:55.000006][INFO] [FUNC_EVENT_TYPE][Node 2 Batch 2 Entry 1 / 1] FunctionExecute 6 @ functionName halt @ state stopped";
    let g = build_event_graph(log);

    let n1 = g.nodes.get(&1).unwrap();
    assert_eq!(n1.states.len(), 2);
    assert!(n1.states.contains(&"idle".to_string()));
    assert!(n1.states.contains(&"active".to_string()));
    assert_eq!(n1.edges.len(), 2);
    assert!(
        n1.edges
            .iter()
            .any(|e| e.from == "idle" && e.transition == "start" && e.to == "active")
    );
    assert!(
        n1.edges
            .iter()
            .any(|e| e.from == "active" && e.transition == "work" && e.to == "idle")
    );

    let n2 = g.nodes.get(&2).unwrap();
    assert_eq!(n2.states.len(), 2);
    assert!(n2.states.contains(&"stopped".to_string()));
    assert!(n2.states.contains(&"running".to_string()));
    assert_eq!(n2.edges.len(), 2);
    assert!(
        n2.edges
            .iter()
            .any(|e| e.from == "stopped" && e.transition == "init" && e.to == "running")
    );
    assert!(
        n2.edges
            .iter()
            .any(|e| e.from == "running" && e.transition == "boot" && e.to == "stopped")
    );

    assert_eq!(g.nodes.len(), 2);
}

#[test]
fn skips_invalid_lines_and_continues_processing() {
    let log = "[2025-11-10 19:56:55.000001][INFO] [FUNC_EVENT_TYPE][Node 1 Batch 1 Entry 1 / 4] FunctionExecute 1 @ functionName start @ state idle
invalid line with no numbers
[2025-11-10 19:56:55.000002][INFO] [FUNC_EVENT_TYPE][Node 1 Batch 1 Entry 2 / 4] FunctionExecute 2 @ functionName work @ state active
not enough parts
too many parts here now
[2025-11-10 19:56:55.000003][INFO] [FUNC_EVENT_TYPE][Node X Batch 1 Entry 3 / 4] FunctionExecute 3 @ functionName invalid_id @ state active
[2025-11-10 19:56:55.000004][INFO] [FUNC_EVENT_TYPE][Node 1 Batch 1 Entry 3 / 4] FunctionExecute 4 @ functionName finish @ state idle
   
[2025-11-10 19:56:55.000005][INFO] [FUNC_EVENT_TYPE][Node 1 Batch 1 Entry 4 / 4] FunctionExecute 5 @ functionName restart @ state active";
    let g = build_event_graph(log);
    let node = g.nodes.get(&1).unwrap();

    assert_eq!(node.states.len(), 2);
    assert!(node.states.contains(&"idle".to_string()));
    assert!(node.states.contains(&"active".to_string()));

    assert_eq!(node.edges.len(), 3);
    assert!(
        node.edges
            .iter()
            .any(|e| e.from == "idle" && e.transition == "start" && e.to == "active")
    );
    assert!(
        node.edges
            .iter()
            .any(|e| e.from == "active" && e.transition == "work" && e.to == "idle")
    );
    assert!(
        node.edges
            .iter()
            .any(|e| e.from == "idle" && e.transition == "finish" && e.to == "active")
    );
}

#[test]
fn renders_dot_for_node_graph() {
    let log = "[2025-11-10 19:56:55.000001][INFO] [FUNC_EVENT_TYPE][Node 1 Batch 1 Entry 1 / 3] FunctionExecute 1 @ functionName A @ state s0
[2025-11-10 19:56:55.000002][INFO] [FUNC_EVENT_TYPE][Node 1 Batch 1 Entry 2 / 3] FunctionExecute 2 @ functionName B @ state s1
[2025-11-10 19:56:55.000003][INFO] [FUNC_EVENT_TYPE][Node 1 Batch 1 Entry 3 / 3] FunctionExecute 3 @ functionName C @ state s0";
    let g = build_event_graph(log);
    let dot = dot_for_node_graph(g.nodes.get(&1).unwrap());
    assert!(dot.contains("digraph G{"));
    assert!(dot.contains("rankdir=LR;"));
    assert!(dot.contains("\"s0\";"));
    assert!(dot.contains("\"s1\";"));
    assert!(dot.contains("\"s0\" -> \"s1\" [label=<A>];"));
    assert!(dot.contains("\"s1\" -> \"s0\" [label=<B>];"));
}

#[test]
fn renders_dot_labels_grouped_and_sorted() {
    let log = "[2025-11-10 19:56:55.000001][INFO] [FUNC_EVENT_TYPE][Node 1 Batch 1 Entry 1 / 5] FunctionExecute 1 @ functionName A @ state s0
[2025-11-10 19:56:55.000002][INFO] [FUNC_EVENT_TYPE][Node 1 Batch 1 Entry 2 / 5] FunctionExecute 2 @ functionName B @ state s1
[2025-11-10 19:56:55.000003][INFO] [FUNC_EVENT_TYPE][Node 1 Batch 1 Entry 3 / 5] FunctionExecute 3 @ functionName C @ state s0
[2025-11-10 19:56:55.000004][INFO] [FUNC_EVENT_TYPE][Node 1 Batch 1 Entry 4 / 5] FunctionExecute 4 @ functionName D @ state s1
[2025-11-10 19:56:55.000005][INFO] [FUNC_EVENT_TYPE][Node 1 Batch 1 Entry 5 / 5] FunctionExecute 5 @ functionName E @ state s0";
    let g = build_event_graph(log);
    let dot = dot_for_node_graph(g.nodes.get(&1).unwrap());
    assert!(dot.contains("\"s0\" -> \"s1\" [label=<A<BR/>C>];"));
    assert!(dot.contains("\"s1\" -> \"s0\" [label=<B<BR/>D>];"));
}

#[test]
fn parses_mediator_log_format() {
    let log = "[2025-11-10 19:56:55.000001][INFO] [BLOCK_EVENT_TYPE][Node 1 Batch 2 Entry 1 / 3] BlockExecute 42 @ functionName init @ state idle
[2025-11-10 19:56:55.000002][INFO] [FUNC_EVENT_TYPE][Node 1 Batch 2 Entry 2 / 3] FunctionExecute 43 @ functionName process @ state active
[2025-11-10 19:56:55.000003][INFO] [CONST_EVENT_TYPE][Node 1 Batch 2 Entry 3 / 3] ConstantExecute 44 @ functionName reset @ constant idle
[2025-11-10 19:56:55.000004][INFO] [BLOCK_EVENT_TYPE][Node 2 Batch 3 Entry 1 / 1] BlockExecute 50 @ functionName start @ state running";
    let g = build_event_graph(log);

    let n1 = g.nodes.get(&1).unwrap();
    assert_eq!(n1.states.len(), 2);
    assert!(n1.states.contains(&"idle".to_string()));
    assert!(n1.states.contains(&"active".to_string()));
    assert_eq!(n1.edges.len(), 2);
    assert!(
        n1.edges
            .iter()
            .any(|e| e.from == "idle" && e.transition == "init" && e.to == "active")
    );
    assert!(
        n1.edges
            .iter()
            .any(|e| e.from == "active" && e.transition == "process" && e.to == "idle")
    );

    let n2 = g.nodes.get(&2).unwrap();
    assert_eq!(n2.states.len(), 1);
    assert!(n2.states.contains(&"running".to_string()));
    assert_eq!(n2.edges.len(), 0);

    assert_eq!(g.nodes.len(), 2);
}

#[test]
fn skips_non_event_log_lines_in_mediator_format() {
    let log = "[2025-11-10 19:56:55.000001][INFO] Some informational message
[2025-11-10 19:56:55.000002][INFO] [BLOCK_EVENT_TYPE][Node 1 Batch 2 Entry 1 / 2] BlockExecute 42 @ functionName init @ state idle
[2025-11-10 19:56:55.000003][DEBUG] Debug message without relevant data
[2025-11-10 19:56:55.000004][INFO] [FUNC_EVENT_TYPE][Node 1 Batch 2 Entry 2 / 2] FunctionExecute 43 @ functionName process @ state active
Random log line without brackets
[2025-11-10 19:56:55.000005][ERROR] Error message";
    let g = build_event_graph(log);

    let n1 = g.nodes.get(&1).unwrap();
    assert_eq!(n1.states.len(), 2);
    assert!(n1.states.contains(&"idle".to_string()));
    assert!(n1.states.contains(&"active".to_string()));
    assert_eq!(n1.edges.len(), 1);
    assert!(
        n1.edges
            .iter()
            .any(|e| e.from == "idle" && e.transition == "init" && e.to == "active")
    );

    assert_eq!(g.nodes.len(), 1);
}

#[test]
fn parses_mediator_log_with_timestamps_and_log_levels() {
    let log = "[2025-11-10 19:56:55.662761][INFO] [BLOCK_EVENT_TYPE][Node 1 Batch 68 Entry 51 / 56] BlockExecute 94 @ functionName sendAppendEntries @ state Leader
[2025-11-10 19:56:55.662800][INFO] [FUNC_EVENT_TYPE][Node 1 Batch 68 Entry 52 / 56] FunctionExecute 95 @ functionName processResponse @ state Follower
[2025-11-10 19:56:55.663000][DEBUG] [CONST_EVENT_TYPE][Node 2 Batch 10 Entry 1 / 1] ConstantExecute 10 @ functionName timeout @ constant Candidate";
    let g = build_event_graph(log);

    let n1 = g.nodes.get(&1).unwrap();
    assert_eq!(n1.states.len(), 2);
    assert!(n1.states.contains(&"Leader".to_string()));
    assert!(n1.states.contains(&"Follower".to_string()));
    assert_eq!(n1.edges.len(), 1);
    assert!(n1.edges.iter().any(|e| e.from == "Leader"
        && e.transition == "sendAppendEntries"
        && e.to == "Follower"));

    let n2 = g.nodes.get(&2).unwrap();
    assert_eq!(n2.states.len(), 1);
    assert!(n2.states.contains(&"Candidate".to_string()));
    assert_eq!(n2.edges.len(), 0);

    assert_eq!(g.nodes.len(), 2);
}


fn edge(from: &str, transition: &str, to: &str) -> Edge {
    Edge {
        from: from.to_string(),
        transition: transition.to_string(),
        to: to.to_string(),
    }
}

#[test]
fn event_line_gives_node_function_and_state() {
    let record = parse_mediator_log_line(
        "[12:00][INFO] [FUNC_EVENT_TYPE][Node 7 Batch 1 Entry 1 / 1] FunctionExecute 1 @ functionName start @ state  idle \t",
    )
    .unwrap();
    assert_eq!(record.node_id, 7);
    assert_eq!(record.transition, "start");
    assert_eq!(record.state, "idle");
}

#[test]
fn constant_stands_in_for_a_missing_state() {
    let record =
        parse_mediator_log_line("[Node 3 x] C 1 @ functionName reset @ constant zero").unwrap();
    assert_eq!(record.node_id, 3);
    assert_eq!(record.transition, "reset");
    assert_eq!(record.state, "zero");
}

#[test]
fn state_wins_over_constant() {
    let record = parse_mediator_log_line(
        "[Node 3 x] @ functionName f @ constant zero @ state one",
    )
    .unwrap();
    assert_eq!(record.transition, "f");
    assert_eq!(record.state, "one");
}

#[test]
fn lines_that_report_no_event_give_none() {
    assert!(parse_mediator_log_line("").is_none());
    assert!(parse_mediator_log_line("no tag here @ functionName f @ state s").is_none());
    assert!(parse_mediator_log_line("[Node X y] @ functionName f @ state s").is_none());
    assert!(parse_mediator_log_line("[Node 1] @ functionName f @ state s").is_none());
    assert!(parse_mediator_log_line("[Node 4294967296 y] @ functionName f @ state s").is_none());
    assert!(parse_mediator_log_line("[Node 1 y] @ function f @ state s").is_none());
    assert!(parse_mediator_log_line("[Node 1 y] @ functionName f@ state s").is_none());
    assert!(parse_mediator_log_line("[Node 1 y] @ functionName f @ status s").is_none());
    assert!(parse_mediator_log_line("[Node 4294967295 y] @ functionName f @ state s").is_some());
    assert!(parse_mediator_log_line("[Node +5 y] @ functionName f @ state s").is_some());
}

#[test]
fn states_and_edges_are_sorted_and_single() {
    let log = "[Node 1 a] @ functionName go @ state b
[Node 1 a] @ functionName back @ state a
[Node 1 a] @ functionName go @ state b
[Node 1 a] @ functionName back @ state a
[Node 1 a] @ functionName hop @ state c
[Node 1 a] @ functionName fall @ state a";
    let g = build_event_graph(log);
    assert_eq!(g.nodes.len(), 1);
    let node = g.nodes.get(&1).unwrap();
    assert_eq!(node.states, vec!["a", "b", "c"]);
    assert_eq!(
        node.edges,
        vec![
            edge("a", "back", "b"),
            edge("a", "back", "c"),
            edge("b", "go", "a"),
            edge("c", "hop", "a"),
        ]
    );
}

#[test]
fn empty_log_has_no_nodes() {
    assert!(build_event_graph("").nodes.is_empty());
    assert!(build_event_graph("\n  \nnothing to see\n").nodes.is_empty());
}

#[test]
fn dot_text_is_exact() {
    let node = NodeGraph {
        states: vec!["s1".to_string(), "s0".to_string()],
        edges: vec![
            edge("s1", "D", "s0"),
            edge("s0", "C", "s1"),
            edge("s1", "B", "s0"),
            edge("s0", "A", "s1"),
            edge("s0", "A", "s1"),
            edge("s0", "Z", "s0"),
        ],
    };
    assert_eq!(
        dot_for_node_graph(&node),
        "digraph G{\n    rankdir=LR;\n    node [shape=circle, fontsize=10, width=0.5];\n    edge [fontsize=9];\n    \"s1\";\n    \"s0\";\n    \"s0\" -> \"s0\" [label=<Z>];\n    \"s0\" -> \"s1\" [label=<A<BR/>A<BR/>C>];\n    \"s1\" -> \"s0\" [label=<B<BR/>D>];\n}\n"
    );
}

#[test]
fn dot_text_of_an_empty_graph() {
    assert_eq!(
        dot_for_node_graph(&NodeGraph::default()),
        "digraph G{\n    rankdir=LR;\n    node [shape=circle, fontsize=10, width=0.5];\n    edge [fontsize=9];\n}\n"
    );
}

#[test]
fn shorter_text_comes_before_its_extensions() {
    let log = "[Node 1 a] @ functionName f @ state ab
[Node 1 a] @ functionName f @ state a
[Node 1 a] @ functionName f @ state B
[Node 1 a] @ functionName f @ state abc";
    let g = build_event_graph(log);
    assert_eq!(g.nodes.get(&1).unwrap().states, vec!["B", "a", "ab", "abc"]);
}

#[test]
fn states_are_inserted_at_their_place_once() {
    let mut states: Vec<String> = Vec::new();
    for state in ["m", "b", "z", "m", "a", "b", "mm"] {
        insert_state(&mut states, state.to_string());
    }
    assert_eq!(states, vec!["a", "b", "m", "mm", "z"]);
    assert!(state_before("a", "b"));
    assert!(!state_before("b", "a"));
    assert!(!state_before("a", "a"));
}

#[test]
fn edges_are_ordered_by_start_then_end_then_function() {
    assert!(edge_before(&edge("a", "z", "b"), &edge("b", "a", "a")));
    assert!(edge_before(&edge("a", "z", "b"), &edge("a", "a", "c")));
    assert!(edge_before(&edge("a", "f", "b"), &edge("a", "g", "b")));
    assert!(!edge_before(&edge("a", "f", "b"), &edge("a", "f", "b")));
    assert!(!edge_before(&edge("b", "a", "a"), &edge("a", "z", "z")));
    assert!(same_edge(&edge("a", "f", "b"), &edge("a", "f", "b")));
    assert!(!same_edge(&edge("a", "f", "b"), &edge("a", "g", "b")));
    assert!(share_ends(&edge("a", "f", "b"), &edge("a", "g", "b")));
    assert!(!share_ends(&edge("a", "f", "b"), &edge("a", "f", "c")));
    assert!(!share_ends(&edge("a", "f", "b"), &edge("c", "f", "b")));

    let mut edges: Vec<Edge> = Vec::new();
    for e in [edge("b", "f", "a"), edge("a", "g", "b"), edge("a", "f", "b"), edge("a", "g", "b")] {
        insert_edge(&mut edges, e);
    }
    assert_eq!(
        edges,
        vec![edge("a", "f", "b"), edge("a", "g", "b"), edge("b", "f", "a")]
    );

    let given = vec![edge("b", "f", "a"), edge("a", "g", "b"), edge("a", "f", "b"), edge("a", "g", "b")];
    assert_eq!(
        sort_edges(&given),
        vec![edge("a", "f", "b"), edge("a", "g", "b"), edge("a", "g", "b"), edge("b", "f", "a")]
    );
}

#[test]
fn events_are_read_in_the_order_of_the_lines() {
    let records = read_events(
        "  [Node 2 x] @ functionName f @ state s  \nnoise\n[Node 1 x] @ functionName g @ constant c\n",
    );
    assert_eq!(records.len(), 2);
    assert_eq!(records[0].node_id, 2);
    assert_eq!(records[0].transition, "f");
    assert_eq!(records[0].state, "s");
    assert_eq!(records[1].node_id, 1);
    assert_eq!(records[1].transition, "g");
    assert_eq!(records[1].state, "c");
}
