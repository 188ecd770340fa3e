//! End-to-end tests of the filesystem-to-automaton compiler.

use elea::compile::{to_machines, SourceFile};
use elea::errors::{Format, MachinesError, FormatNestedMachinesError, StateFileParseError,
    StateYAMLFileParseError, StateFileFormat};
use elea::model::{Arrow, Machine, State};

fn file(segments: &[&str], content: &str) -> SourceFile {
    SourceFile {
        segments: segments.iter().map(|s| s.to_string()).collect(),
        path_text: segments.join("/"),
        content: Ok(content.as_bytes().to_vec()),
    }
}

fn lightswitch_files() -> Vec<SourceFile> {
    vec![
        file(
            &["on.yaml"],
            "id: on\narrows:\n- id: self\n  next: default/on\n- id: off\n  next: default/off\n- id: pattern\n  next: default/pattern\n",
        ),
        file(
            &["off.yaml"],
            "id: off\narrows:\n- id: on\n  next: default/on\n- id: self\n  next: default/off\n",
        ),
        file(
            &["pattern.yaml"],
            "id: pattern\narrows:\n- id: fade\n  next: pattern/fade/levels\n- id: strobe\n  next: pattern/strobe/speeds\n",
        ),
        file(
            &["pattern", "fade", "levels.yaml"],
            "id: levels\narrows:\n- id: 20_percent\n  next: default/on\n- id: 40_percent\n  next: default/on\n- id: 60_percent\n  next: default/on\n- id: 80_percent\n  next: default/on\n- id: 100_percent\n  next: default/on\n",
        ),
        file(
            &["pattern", "strobe", "speeds.yaml"],
            "id: speeds\narrows:\n- id: slow\n  next: default/on\n- id: medium\n  next: default/on\n- id: fast\n  next: default/on\n",
        ),
        file(
            &["broken", "fix.yaml"],
            "id: fix\ntree:\n- id: power\n  tree:\n  - id: battery\n    tree:\n    - id: replace\n    - id: charge\n    - id: plug_in\n  - id: miscellaneous\n    tree:\n    - id: check_outlet_power\n    - id: check_cord\n- id: light\n  tree:\n  - id: change_bulb\n- id: structure\n  tree:\n  - id: cord\n  - id: casing\n",
        ),
    ]
}

#[test]
fn test_format_nested_machines() {
    let machine_default = Machine::new(
        "default",
        vec![
            State::new(
                "on",
                vec![
                    Arrow::new("self", "default/on"),
                    Arrow::new("off", "default/off"),
                    Arrow::new("pattern", "default/pattern"),
                ],
            ),
            State::new(
                "off",
                vec![Arrow::new("on", "default/on"), Arrow::new("self", "default/off")],
            ),
            State::new(
                "pattern",
                vec![
                    Arrow::new("fade", "pattern/fade/levels"),
                    Arrow::new("strobe", "pattern/strobe/speeds"),
                ],
            ),
        ],
    );
    let machine_pattern = Machine::new(
        "pattern",
        vec![
            State::new(
                "fade/levels",
                vec![
                    Arrow::new("20_percent", "default/on"),
                    Arrow::new("40_percent", "default/on"),
                    Arrow::new("60_percent", "default/on"),
                    Arrow::new("80_percent", "default/on"),
                    Arrow::new("100_percent", "default/on"),
                ],
            ),
            State::new(
                "strobe/speeds",
                vec![
                    Arrow::new("slow", "default/on"),
                    Arrow::new("medium", "default/on"),
                    Arrow::new("fast", "default/on"),
                ],
            ),
        ],
    );
    let machine_broken = Machine::new(
        "broken",
        vec![
            State::new(
                "fix",
                vec![
                    Arrow::new("power", "broken/fix/power"),
                    Arrow::new("light", "broken/fix/light"),
                    Arrow::new("structure", "broken/fix/structure"),
                ],
            ),
            State::new(
                "fix/power",
                vec![
                    Arrow::new("battery", "broken/fix/power/battery"),
                    Arrow::new("miscellaneous", "broken/fix/power/miscellaneous"),
                ],
            ),
            State::new(
                "fix/power/battery",
                vec![
                    Arrow::new("replace", "broken/fix"),
                    Arrow::new("charge", "broken/fix"),
                    Arrow::new("plug_in", "broken/fix"),
                ],
            ),
            State::new(
                "fix/power/miscellaneous",
                vec![
                    Arrow::new("check_outlet_power", "broken/fix"),
                    Arrow::new("check_cord", "broken/fix"),
                ],
            ),
            State::new("fix/light", vec![Arrow::new("change_bulb", "broken/fix")]),
            State::new(
                "fix/structure",
                vec![Arrow::new("cord", "broken/fix"), Arrow::new("casing", "broken/fix")],
            ),
        ],
    );
    let mut target_machines = vec![machine_default, machine_broken, machine_pattern];
    target_machines.sort_by(|m1, m2| m1.id.cmp(&m2.id));

    let files = lightswitch_files();
    let actual_machines_res = to_machines(&files, Format::NestedMachines);

    if actual_machines_res.is_err() {
        println!("{:?}", actual_machines_res);
        assert!(false);
    }
    let mut actual_machines = actual_machines_res.unwrap();
    actual_machines.sort_by(|m1, m2| m1.id.cmp(&m2.id));

    assert_eq!(target_machines, actual_machines);
}

#[test]
fn compile_is_idempotent() {
    let files = lightswitch_files();
    let first = to_machines(&files, Format::NestedMachines).unwrap();
    let second = to_machines(&files, Format::NestedMachines).unwrap();
    assert_eq!(first, second);
}

#[test]
fn root_level_file_goes_to_default_machine() {
    let files = vec![file(
        &["lamp.yaml"],
        "id: lamp\narrows:\n- id: toggle\n  next: default/lamp\n",
    )];
    let machines = to_machines(&files, Format::NestedMachines).unwrap();
    assert_eq!(machines.len(), 1);
    assert_eq!(machines[0].id.0, "default");
    assert_eq!(machines[0].states.len(), 1);
    assert_eq!(machines[0].states[0].id.0, "lamp");
}

#[test]
fn two_machines_from_root_file_and_subdirectory() {
    let files = vec![
        file(
            &["lightswitch.yaml"],
            "id: on\narrows:\n- id: fade\n  next: pattern/fade/levels\n",
        ),
        file(
            &["pattern", "fade", "levels.yaml"],
            "id: levels\narrows:\n- id: 20_percent\n  next: default/on\n- id: 40_percent\n  next: default/on\n- id: 60_percent\n  next: default/on\n- id: 80_percent\n  next: default/on\n- id: 100_percent\n  next: default/on\n",
        ),
    ];
    let mut machines = to_machines(&files, Format::NestedMachines).unwrap();
    machines.sort_by(|m1, m2| m1.id.cmp(&m2.id));
    assert_eq!(machines.len(), 2);
    assert_eq!(machines[0].id.0, "default");
    assert_eq!(machines[1].id.0, "pattern");
    let levels = &machines[1].states[0];
    assert_eq!(levels.id.0, "fade/levels");
    assert_eq!(levels.arrows.len(), 5);
    for arrow in &levels.arrows {
        assert_eq!(arrow.next.0, "default/on");
    }
}

#[test]
fn unknown_top_level_keys_fail() {
    let files = vec![file(&["odd.yaml"], "bar: 1\nbaz: 2\n")];
    let err = to_machines(&files, Format::NestedMachines).unwrap_err();
    assert!(matches!(
        err,
        MachinesError::NestedMachines(FormatNestedMachinesError::StateFile(
            StateFileParseError::YAML(StateYAMLFileParseError::UnknownFormat)
        ))
    ));
}

#[test]
fn txt_extension_is_unsupported() {
    let files = vec![file(&["notes.txt"], "just some notes\n")];
    let err = to_machines(&files, Format::NestedMachines).unwrap_err();
    assert!(matches!(
        err,
        MachinesError::NestedMachines(FormatNestedMachinesError::StateFile(
            StateFileParseError::UnsupportedExtension
        ))
    ));
}

#[test]
fn missing_extension_is_an_error() {
    let files = vec![file(&["README"], "no extension here\n")];
    let err = to_machines(&files, Format::NestedMachines).unwrap_err();
    assert!(matches!(
        err,
        MachinesError::NestedMachines(FormatNestedMachinesError::StateFile(
            StateFileParseError::NoExtensionOrError
        ))
    ));
}

#[test]
fn hidden_file_has_no_extension() {
    let files = vec![file(&[".yaml"], "id: ghost\narrows: []\n")];
    let err = to_machines(&files, Format::NestedMachines).unwrap_err();
    assert!(matches!(
        err,
        MachinesError::NestedMachines(FormatNestedMachinesError::StateFile(
            StateFileParseError::NoExtensionOrError
        ))
    ));
}

#[test]
fn empty_listing_still_yields_default_machine() {
    let files: Vec<SourceFile> = Vec::new();
    let machines = to_machines(&files, Format::NestedMachines).unwrap();
    assert_eq!(machines.len(), 1);
    assert_eq!(machines[0].id.0, "default");
    assert!(machines[0].states.is_empty());
}

#[test]
fn unreadable_yaml_file_reports_the_read_error() {
    let files = vec![SourceFile {
        segments: vec!["locked.yaml".to_string()],
        path_text: "locked.yaml".to_string(),
        content: Err("permission denied".to_string()),
    }];
    let err = to_machines(&files, Format::NestedMachines).unwrap_err();
    match err {
        MachinesError::NestedMachines(FormatNestedMachinesError::StateFile(
            StateFileParseError::YAML(StateYAMLFileParseError::File(msg)),
        )) => assert_eq!(msg, "permission denied"),
        other => panic!("unexpected error {:?}", other),
    }
}

#[test]
fn unreadable_txt_file_is_still_unsupported() {
    let files = vec![SourceFile {
        segments: vec!["locked.txt".to_string()],
        path_text: "locked.txt".to_string(),
        content: Err("permission denied".to_string()),
    }];
    let err = to_machines(&files, Format::NestedMachines).unwrap_err();
    assert!(matches!(
        err,
        MachinesError::NestedMachines(FormatNestedMachinesError::StateFile(
            StateFileParseError::UnsupportedExtension
        ))
    ));
}

#[test]
fn malformed_yaml_reports_parser_error_under_unknown_format() {
    let files = vec![file(&["broken.yaml"], "id: [unclosed\n")];
    let err = to_machines(&files, Format::NestedMachines).unwrap_err();
    match err {
        MachinesError::NestedMachines(FormatNestedMachinesError::StateFile(
            StateFileParseError::YAML(StateYAMLFileParseError::YAML(detail)),
        )) => {
            assert_eq!(detail.file_path, "broken.yaml");
            assert!(matches!(detail.format, StateFileFormat::Unknown));
            assert!(!detail.error.is_empty());
        },
        other => panic!("unexpected error {:?}", other),
    }
}

#[test]
fn arrow_without_next_reports_missing_field() {
    let files = vec![file(&["half.yaml"], "id: half\narrows:\n- id: a\n")];
    let err = to_machines(&files, Format::NestedMachines).unwrap_err();
    match err {
        MachinesError::NestedMachines(FormatNestedMachinesError::StateFile(
            StateFileParseError::YAML(StateYAMLFileParseError::YAML(detail)),
        )) => {
            assert!(matches!(detail.format, StateFileFormat::State));
            assert_eq!(detail.error, "missing field `next`");
        },
        other => panic!("unexpected error {:?}", other),
    }
}

#[test]
fn single_state_description_is_kept() {
    let files = vec![file(
        &["lamp.yaml"],
        "id: lamp\ndescription: a bedside lamp\narrows:\n- id: toggle\n  next: default/lamp\n",
    )];
    let machines = to_machines(&files, Format::NestedMachines).unwrap();
    assert_eq!(machines[0].states[0].description, Some("a bedside lamp".to_string()));
}

#[test]
fn description_survives_the_directory_prefix() {
    let files = vec![file(
        &["house", "attic", "lamp.yaml"],
        "id: lamp\ndescription: under the roof\narrows: []\n",
    )];
    let mut machines = to_machines(&files, Format::NestedMachines).unwrap();
    machines.sort_by(|m1, m2| m1.id.cmp(&m2.id));
    let house = &machines[1];
    assert_eq!(house.id.0, "house");
    assert_eq!(house.states[0].id.0, "attic/lamp");
    assert_eq!(house.states[0].description, Some("under the roof".to_string()));
}

#[test]
fn explicit_null_description_stays_empty() {
    let files = vec![file(&["lamp.yaml"], "id: lamp\ndescription: null\narrows: []\n")];
    let machines = to_machines(&files, Format::NestedMachines).unwrap();
    assert_eq!(machines[0].states[0].description, None);
}

#[test]
fn tree_parse_failure_is_tagged_with_the_tree_format() {
    let files = vec![file(&["bad.yaml"], "id: r\ntree: 5\n")];
    let err = to_machines(&files, Format::NestedMachines).unwrap_err();
    match err {
        MachinesError::NestedMachines(FormatNestedMachinesError::StateFile(
            StateFileParseError::YAML(StateYAMLFileParseError::YAML(detail)),
        )) => {
            assert!(matches!(detail.format, StateFileFormat::Tree));
            assert_eq!(detail.error, "invalid type: field `tree` must be a sequence");
        },
        other => panic!("unexpected error {:?}", other),
    }
}

#[test]
fn state_list_documents_are_accepted_but_empty() {
    let files = vec![file(&["list.yaml"], "states:\n- id: a\n")];
    let machines = to_machines(&files, Format::NestedMachines).unwrap();
    assert_eq!(machines.len(), 1);
    assert_eq!(machines[0].id.0, "default");
    assert!(machines[0].states.is_empty());
}

#[test]
fn later_recognized_key_wins_the_sniff() {
    // `arrows` comes after `tree`: the document is read as a single state,
    // so the nested nodes under `tree` produce no states.
    let arrows_last = vec![file(
        &["both.yaml"],
        "id: r\ntree:\n- id: x\n  tree:\n  - id: y\narrows: []\n",
    )];
    let machines = to_machines(&arrows_last, Format::NestedMachines).unwrap();
    assert_eq!(machines[0].states.len(), 1);
    assert_eq!(machines[0].states[0].id.0, "r");
    assert!(machines[0].states[0].arrows.is_empty());

    // `tree` comes after `arrows`: the document is read as a tree, so the
    // non-leaf child x becomes a state of its own.
    let tree_last = vec![file(
        &["both.yaml"],
        "id: r\narrows: []\ntree:\n- id: x\n  tree:\n  - id: y\n",
    )];
    let machines = to_machines(&tree_last, Format::NestedMachines).unwrap();
    let mut ids: Vec<String> = machines[0].states.iter().map(|s| s.id.0.clone()).collect();
    ids.sort();
    assert_eq!(ids, vec!["r".to_string(), "r/x".to_string()]);
}
