//! Tests of the tree flattener and of the model constructors and lookups.

use elea::model::{Arrow, Machine, Space, State};
use elea::tree::{flatten_tree, StateTree};
use elea::yaml::Yaml;
use elea::errors::StateFileFormat;
use elea::document::state_file_format;
use elea::ids::{str_eq, str_le};

fn node(id: &str, children: Vec<StateTree>) -> StateTree {
    StateTree { id: id.to_string(), tree: children, description: None }
}

#[test]
fn leaf_child_collapses_to_root_arrow() {
    // Root r under machine m, with one leaf child l: the leaf becomes an
    // arrow back to m/r, never a state.
    let tree = node("r", vec![node("l", vec![])]);
    let states = flatten_tree("m", tree);
    assert_eq!(states.len(), 1);
    assert_eq!(states[0].id.0, "r");
    assert_eq!(states[0].arrows.len(), 1);
    assert_eq!(states[0].arrows[0].id.0, "l");
    assert_eq!(states[0].arrows[0].next.0, "m/r");
}

#[test]
fn nonleaf_child_becomes_arrow_and_state() {
    // Root r with a non-leaf child c (which has a leaf child d): c yields an
    // arrow targeting m/r/c and a state r/c of its own; d collapses back to
    // the root m/r.
    let tree = node("r", vec![node("c", vec![node("d", vec![])])]);
    let states = flatten_tree("m", tree);
    let expected = vec![
        State::new("r", vec![Arrow::new("c", "m/r/c")]),
        State::new("r/c", vec![Arrow::new("d", "m/r")]),
    ];
    assert_eq!(states, expected);
}

#[test]
fn root_without_children_yields_one_bare_state() {
    let states = flatten_tree("m", node("alone", vec![]));
    assert_eq!(states, vec![State::new("alone", vec![])]);
}

#[test]
fn state_new_sorts_arrows_and_keeps_duplicates() {
    let st = State::new(
        "s",
        vec![Arrow::new("b", "m/2"), Arrow::new("a", "m/1"), Arrow::new("b", "m/3")],
    );
    let ids: Vec<&str> = st.arrows.iter().map(|a| a.id.0.as_str()).collect();
    assert_eq!(ids, vec!["a", "b", "b"]);
    // The stable sort keeps both duplicates, in their original order.
    assert_eq!(st.arrows[1].next.0, "m/2");
    assert_eq!(st.arrows[2].next.0, "m/3");
    // The lookup answers with the later duplicate: last write wins.
    assert_eq!(st.arrow_by_id("b").unwrap().next.0, "m/3");
    assert!(st.arrow_by_id("missing").is_none());
}

#[test]
fn with_description_keeps_it_and_sorts() {
    let st = State::with_description(
        "s",
        vec![Arrow::new("b", "m/2"), Arrow::new("a", "m/1")],
        Some("kept".to_string()),
    );
    assert_eq!(st.description, Some("kept".to_string()));
    assert_eq!(st.arrows[0].id.0, "a");
    assert_eq!(st.arrows[1].id.0, "b");
}

#[test]
fn machine_and_space_lookups_find_later_entries() {
    let m1 = Machine::new("beta", vec![State::new("x", vec![])]);
    let m2 = Machine::new("alpha", vec![State::new("y", vec![])]);
    let space = Space::new(vec![m1, m2]);
    assert_eq!(space.machines[0].id.0, "alpha");
    assert_eq!(space.machines[1].id.0, "beta");
    assert_eq!(space.machine_by_id("beta").unwrap().states[0].id.0, "x");
    assert!(space.machine_by_id("gamma").is_none());
    assert_eq!(space.machine_by_id("alpha").unwrap().state_by_id("y").unwrap().id.0, "y");
}

#[test]
fn sniffer_classifies_by_top_level_keys() {
    let doc = Yaml::Mapping(vec![(Yaml::Str("arrows".to_string()), Yaml::Null)]);
    assert!(matches!(state_file_format(&doc), StateFileFormat::State));
    let doc = Yaml::Mapping(vec![(Yaml::Str("tree".to_string()), Yaml::Null)]);
    assert!(matches!(state_file_format(&doc), StateFileFormat::Tree));
    let doc = Yaml::Mapping(vec![(Yaml::Str("states".to_string()), Yaml::Null)]);
    assert!(matches!(state_file_format(&doc), StateFileFormat::StateList));
    let doc = Yaml::Mapping(vec![(Yaml::Str("other".to_string()), Yaml::Null)]);
    assert!(matches!(state_file_format(&doc), StateFileFormat::Unknown));
    assert!(matches!(state_file_format(&Yaml::Null), StateFileFormat::Unknown));
    // With several recognized keys, the later one wins.
    let doc = Yaml::Mapping(vec![
        (Yaml::Str("arrows".to_string()), Yaml::Null),
        (Yaml::Str("tree".to_string()), Yaml::Null),
    ]);
    assert!(matches!(state_file_format(&doc), StateFileFormat::Tree));
}

#[test]
fn format_names_read_as_diagnostics_print_them() {
    assert_eq!(StateFileFormat::Unknown.text(), "Unknown");
    assert_eq!(StateFileFormat::State.text(), "State");
    assert_eq!(StateFileFormat::Tree.text(), "Tree");
    assert_eq!(StateFileFormat::StateList.text(), "StateList");
}

#[test]
fn string_order_matches_byte_order() {
    assert!(str_le("a", "b"));
    assert!(str_le("a", "a"));
    assert!(!str_le("b", "a"));
    assert!(str_le("a", "a/b"));
    assert!(str_le("fix", "fix/light"));
    assert!(str_eq("same", "same"));
    assert!(!str_eq("same", "Same"));
}
