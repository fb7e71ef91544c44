use replay::change::ChangeType;
use replay::event::{DisplayType, Event, Location, Value};
use replay::state::AppState;

fn var(name: &str) -> Location {
    Location::VariableLoc(name.to_string())
}

fn text(s: &str) -> Value {
    Value::StringVal(s.to_string())
}

fn node_text(state: &AppState, id: usize) -> String {
    state.graph.node(id).value().display_string()
}

/// Values of variables and of live slots, live counts and complexity flags.
fn visible_state(state: &AppState) -> Vec<(Option<String>, usize, bool)> {
    let nodes = state.graph.nodes_iter();
    let mut shown = vec![false; nodes.len()];
    for (i, node) in nodes.iter().enumerate() {
        if state.graph.node_name(node).is_some() {
            shown[i] = true;
        }
    }
    for node in nodes.iter() {
        for slot in 0..node.num_children() {
            shown[node.children()[slot]] = true;
        }
    }
    nodes
        .iter()
        .enumerate()
        .map(|(i, n)| {
            let v = if shown[i] { Some(n.value().display_string()) } else { None };
            (v, n.num_children(), n.is_ever_complex())
        })
        .collect()
}

fn scenario() -> AppState {
    let mut state = AppState::new();
    state.add_event(Event::SetValue(var("a"), Value::I32Val(1)));
    state.add_event(Event::Push(var("x"), text("p")));
    state.add_event(Event::Push(var("x"), text("q")));
    state.add_event(Event::Pop(var("x")));
    state.player_reset_to_start();
    state
}

#[test]
fn concrete_scenario_forward_and_back() {
    let mut state = scenario();
    // a = 0, x = 1, child p = 2, child q = 3.
    for _ in 0..4 {
        state.player_advance();
    }
    let x = state.graph.node(1);
    assert_eq!(x.num_children(), 1);
    assert_eq!(node_text(&state, x.children()[0]), "\"p\"");

    state.player_rewind();
    let x = state.graph.node(1);
    assert_eq!(x.num_children(), 2);
    assert_eq!(node_text(&state, x.children()[0]), "\"p\"");
    assert_eq!(node_text(&state, x.children()[1]), "\"q\"");

    state.player_rewind();
    let x = state.graph.node(1);
    assert_eq!(x.num_children(), 1);
    assert_eq!(x.children()[1], 3);
    assert_eq!(state.graph.node(3).id(), 3);
    assert_eq!(node_text(&state, 3), "\"q\"");

    let c = state.player_rewind();
    assert_eq!(
        c,
        ChangeType::Parallel {
            changes: vec![
                ChangeType::RemoveCell { id: 2 },
                ChangeType::RemoveCell { id: 2 },
                ChangeType::RemoveCell { id: 1 },
            ],
        }
    );
    let c = state.player_rewind();
    assert_eq!(
        c,
        ChangeType::Parallel {
            changes: vec![
                ChangeType::ValueChange { id: 0, from: "1".to_string(), to: "<undefined>".to_string() },
                ChangeType::RemoveCell { id: 0 },
            ],
        }
    );
    assert_eq!(state.op_index, 0);
    assert_eq!(state.player_rewind(), ChangeType::NoChange);
}

#[test]
fn round_trip_restores_visible_state() {
    let mut state = scenario();
    state.add_event(Event::Push(var("x"), text("r")));
    state.add_event(Event::SetValue(var("a"), Value::ArrayVal(vec![Value::I32Val(2)])));
    state.add_event(Event::Display(var("x"), DisplayType::Tree));
    state.add_event(Event::Push(var("nested"), Value::ArrayVal(vec![])));
    state.add_event(Event::Push(
        Location::IndexLoc(Box::new(var("nested")), 0),
        text("inner"),
    ));
    state.player_reset_to_start();
    let start = visible_state(&state);
    let n = state.ops.len() - 1;
    for _ in 0..n {
        state.player_advance();
    }
    assert_eq!(state.op_index, n);
    for _ in 0..n {
        state.player_rewind();
    }
    assert_eq!(state.op_index, 0);
    assert_eq!(visible_state(&state), start);
}

#[test]
fn boundaries_change_nothing() {
    let mut state = scenario();
    assert_eq!(state.player_rewind(), ChangeType::NoChange);
    assert_eq!(state.op_index, 0);
    let n = state.ops.len() - 1;
    for _ in 0..n {
        state.player_advance();
    }
    let before = visible_state(&state);
    assert_eq!(state.player_advance(), ChangeType::NoChange);
    assert_eq!(state.op_index, n);
    assert_eq!(visible_state(&state), before);
}

#[test]
fn first_set_declares_one_node() {
    let mut state = AppState::new();
    state.add_event(Event::SetValue(var("a"), Value::I32Val(5)));
    state.player_reset_to_start();
    assert_eq!(state.graph.nodes_iter().len(), 1);
    assert_eq!(
        state.player_advance(),
        ChangeType::Parallel {
            changes: vec![
                ChangeType::AddCell { id: 0 },
                ChangeType::ValueChange { id: 0, from: "<undefined>".to_string(), to: "5".to_string() },
            ],
        }
    );
    // Rewinding restores the old value first, then removes the node.
    assert_eq!(
        state.player_rewind(),
        ChangeType::Parallel {
            changes: vec![
                ChangeType::ValueChange { id: 0, from: "5".to_string(), to: "<undefined>".to_string() },
                ChangeType::RemoveCell { id: 0 },
            ],
        }
    );
}

#[test]
fn first_push_declares_container_and_child() {
    let mut state = AppState::new();
    state.add_event(Event::Push(var("xs"), Value::I32Val(7)));
    state.player_reset_to_start();
    assert_eq!(
        state.player_advance(),
        ChangeType::Parallel {
            changes: vec![
                ChangeType::AddCell { id: 0 },
                ChangeType::AddCell { id: 1 },
                ChangeType::AddCell { id: 1 },
            ],
        }
    );
    assert!(state.graph.node(0).is_ever_complex());
    assert_eq!(
        state.player_rewind(),
        ChangeType::Parallel {
            changes: vec![
                ChangeType::RemoveCell { id: 1 },
                ChangeType::RemoveCell { id: 1 },
                ChangeType::RemoveCell { id: 0 },
            ],
        }
    );
}

#[test]
fn push_pop_push_reuses_the_slot() {
    let mut state = AppState::new();
    state.add_event(Event::Push(var("x"), text("p")));
    state.add_event(Event::Pop(var("x")));
    state.add_event(Event::Push(var("x"), text("q")));
    assert_eq!(state.graph.nodes_iter().len(), 2);
    let x = state.graph.node(0);
    assert_eq!(x.children().len(), 1);
    assert_eq!(x.children()[0], 1);
    assert_eq!(x.num_children(), 1);
    assert_eq!(node_text(&state, 1), "\"q\"");
}

#[test]
fn pop_of_empty_array_reports_no_change() {
    let mut state = AppState::new();
    state.add_event(Event::Pop(var("x")));
    state.player_reset_to_start();
    assert_eq!(
        state.player_advance(),
        ChangeType::Parallel {
            changes: vec![ChangeType::AddCell { id: 0 }, ChangeType::NoChange],
        }
    );
    assert_eq!(state.player_rewind(), ChangeType::RemoveCell { id: 0 });
}

#[test]
fn display_mode_is_not_restored_by_rewind() {
    let mut state = AppState::new();
    state.add_event(Event::Display(var("t"), DisplayType::Tree));
    assert_eq!(state.graph.node(0).display_type(), DisplayType::Tree);
    state.player_reset_to_start();
    state.player_advance();
    state.player_rewind();
    assert_eq!(state.graph.node(0).display_type(), DisplayType::Tree);
}

#[test]
fn set_through_index_location() {
    let mut state = AppState::new();
    state.add_event(Event::Push(var("xs"), text("A")));
    state.add_event(Event::Push(var("xs"), text("A")));
    state.add_event(Event::SetValue(Location::IndexLoc(Box::new(var("xs")), 1), text("B")));
    assert_eq!(node_text(&state, 2), "\"B\"");
    state.player_reset_to_start();
    for _ in 0..3 {
        state.player_advance();
    }
    assert_eq!(node_text(&state, 1), "\"A\"");
    assert_eq!(node_text(&state, 2), "\"B\"");
    state.player_rewind();
    assert_eq!(node_text(&state, 2), "\"A\"");
}

#[test]
fn no_op_event_adds_no_operation() {
    let mut state = AppState::new();
    state.add_event(Event::NoOp);
    assert_eq!(state.ops.len(), 1);
    assert_eq!(state.op_index, 0);
}
