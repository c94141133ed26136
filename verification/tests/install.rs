use anytype_caldav::install::{
    closing, create_properties, created_property, created_type, header_change, header_line,
    header_step, missing_keys, plain, plan, prepare_type, schema, space_is_loaded, try_again,
    type_line, type_properties, type_property, types, Existing, HeaderStep, InstallError,
    ListedType, Problem, PropertySpec, Step, TypeHeader, TypePlan,
};
use anytype_caldav::object::Format;

fn property(id: &str, key: &str, format: Format) -> Existing {
    Existing { id: id.into(), key: key.into(), name: key.into(), format }
}

fn small() -> Vec<PropertySpec> {
    vec![
        plain("done", "Done", Format::Checkbox),
        plain("rrule", "Recurrence rule", Format::Text),
    ]
}

#[test]
fn an_empty_space_creates_everything() {
    let small = small();
    let steps = plan(&small, &vec![]).unwrap();
    assert!(steps.iter().all(|step| matches!(step, Step::Create(_))));
    assert_eq!(steps.len(), 2);
}

#[test]
fn a_matching_property_is_left_alone() {
    let small = small();
    let steps = plan(&small, &vec![property("id-done", "done", Format::Checkbox)]).unwrap();
    assert!(matches!(&steps[0], Step::Present { id, .. } if id == "id-done"));
    assert!(matches!(steps[1], Step::Create(spec) if spec.key == "rrule"));
}

/// A space set up by hand may have `priority` as a multi-select; the schema wants a
/// select.
#[test]
fn a_wrong_format_is_refused() {
    let schema = vec![plain("priority", "Priority", Format::Select)];
    let problems =
        plan(&schema, &vec![property("id-p", "priority", Format::MultiSelect)]).unwrap_err();
    assert_eq!(
        problems,
        vec![Problem::WrongFormat {
            key: "priority",
            id: "id-p".into(),
            found: Format::MultiSelect,
            expected: Format::Select,
        }]
    );
    assert_eq!(
        problems[0].message(),
        "priority: property id-p is multi_select, expected select; migrate its values and delete it first"
    );
}

/// The state an earlier migration can leave behind: two properties, one key.
#[test]
fn a_duplicated_key_is_refused_even_if_one_matches() {
    let small = small();
    let problems = plan(
        &small,
        &vec![property("a", "done", Format::Checkbox), property("b", "done", Format::Number)],
    )
    .unwrap_err();
    assert_eq!(
        problems,
        vec![Problem::DuplicateKey { key: "done", ids: vec!["a".into(), "b".into()] }]
    );
    assert_eq!(
        problems[0].message(),
        "done: 2 properties share this key (a, b); delete all but one first"
    );
}

#[test]
fn all_problems_are_reported_together() {
    let small = small();
    let problems = plan(
        &small,
        &vec![property("a", "done", Format::Text), property("b", "rrule", Format::Date)],
    )
    .unwrap_err();
    assert_eq!(problems.len(), 2);
}

#[test]
fn schema_keys_are_unique_and_snake_case() {
    let schema = schema();
    let mut keys: Vec<&str> = schema.iter().map(|spec| spec.key).collect();
    assert!(keys.iter().all(|key| key.chars().all(|c| c.is_ascii_lowercase() || c == '_')));
    keys.sort_unstable();
    keys.dedup();
    assert_eq!(keys.len(), schema.len());
}

#[test]
fn an_empty_or_partial_list_is_not_a_loaded_space() {
    assert!(!space_is_loaded(&vec![]));
    assert!(!space_is_loaded(&vec![property("a", "priority", Format::Select)]));
    assert!(space_is_loaded(&vec![
        property("a", "priority", Format::Select),
        property("b", "created_date", Format::Date),
    ]));
}

#[test]
fn types_use_only_known_properties() {
    // `tag` is bundled with Anytype and not part of the schema.
    let schema = schema();
    let known = |key: &str| key == "tag" || schema.iter().any(|spec| spec.key == key);
    for spec in types() {
        for key in spec.properties.iter().chain(&spec.header) {
            assert!(known(key), "{}: unknown property {key}", spec.key);
        }
    }
}

#[test]
fn missing_keys_keeps_the_wanted_order() {
    assert_eq!(missing_keys(&["b"], &["c", "b", "a"]), ["c", "a"]);
    assert!(missing_keys(&["a", "b"], &["a"]).is_empty());
}

fn ids(list: &[&str]) -> Vec<String> {
    list.iter().map(|id| id.to_string()).collect()
}

#[test]
fn the_header_is_appended_to_and_the_ordinary_list_loses_what_moved() {
    let (featured, recommended) = header_change(
        &ids(&["type", "tag"]),
        &ids(&["priority", "done", "rrule"]),
        &ids(&["rrule", "tag", "priority"]),
    )
    .unwrap();
    assert_eq!(featured, ids(&["type", "tag", "rrule", "priority"]));
    assert_eq!(recommended, ids(&["done"]));
}

#[test]
fn a_complete_header_is_not_written_again() {
    assert_eq!(
        header_change(&ids(&["type", "rrule"]), &ids(&["done"]), &ids(&["rrule"])),
        None
    );
    let (featured, recommended) =
        header_change(&ids(&["type"]), &ids(&["done", "rrule"]), &ids(&["rrule"])).unwrap();
    assert_eq!(header_change(&featured, &recommended, &ids(&["rrule"])), None);
}

#[test]
fn a_space_must_be_loaded_and_fit() {
    let small = small();
    let loaded = || property("c", "created_date", Format::Date);
    match create_properties(&small, &vec![], "space") {
        Err(err) => assert_eq!(
            err.message(),
            "space space is not readable yet: the account is not a member, or has not loaded it; nothing was changed"
        ),
        Ok(_) => panic!("the space is not loaded"),
    }
    let wrong = vec![loaded(), property("a", "done", Format::Text)];
    match create_properties(&small, &wrong, "space") {
        Err(err) => assert_eq!(
            err.message(),
            "the space does not match the schema:\n  done: property a is text, expected checkbox; migrate its values and delete it first"
        ),
        Ok(_) => panic!("the space does not fit"),
    }
    let steps = create_properties(&small, &vec![loaded()], "space").unwrap();
    assert_eq!(steps[0].line(), "  create  done (checkbox) \"Done\"");
    let present = vec![loaded(), property("a", "done", Format::Checkbox)];
    let steps = create_properties(&small, &present, "space").unwrap();
    assert_eq!(steps[0].line(), "  ok      done (checkbox) a");
}

#[test]
fn a_changed_key_ends_the_run() {
    assert!(created_property("done", "done", "a").is_ok());
    assert_eq!(
        created_property("done", "done_2", "a").unwrap_err().message(),
        "done: anytype created the property with key done_2; delete a and investigate"
    );
    assert!(created_type("event", "event", "a").is_ok());
    assert_eq!(
        created_type("event", "event_2", "a").unwrap_err().message(),
        "event: anytype created the type with key event_2; delete a and investigate"
    );
    assert_eq!(
        InstallError::Header { key: "task", message: "no".into() }.message(),
        "setting the header of task: no"
    );
    assert_eq!(InstallError::Anytype("down".into()).message(), "anytype: down");
}

#[test]
fn a_type_is_made_or_lists_what_it_lacks() {
    let task = &types()[0];
    match prepare_type(task, None) {
        TypePlan::Create(keys) => {
            assert_eq!(keys, ids(&["scheduled", "reminder_lead", "priority", "series", "occurrence"]));
        }
        other => panic!("{other:?}"),
    }
    let found = ListedType { id: "t".into(), keys: ids(&["done", "priority", "scheduled"]) };
    let step = prepare_type(task, Some(&found));
    assert_eq!(
        type_line(task, "t", &step),
        "  list    reminder_lead, series, occurrence on type task"
    );
    let all = match step {
        TypePlan::List { missing, all } => {
            assert_eq!(missing, ids(&["reminder_lead", "series", "occurrence"]));
            all
        }
        other => panic!("{other:?}"),
    };
    assert_eq!(
        all,
        ids(&["done", "priority", "scheduled", "reminder_lead", "series", "occurrence"])
    );
    let again = prepare_type(task, Some(&ListedType { id: "t".into(), keys: all }));
    assert!(matches!(again, TypePlan::Present));
    assert_eq!(type_line(task, "t", &again), "  ok      type task t");
}

#[test]
fn a_type_lists_properties_that_the_space_has() {
    let space = vec![
        property("a", "done", Format::Checkbox),
        property("b", "done", Format::Text),
    ];
    // Of two with one key the last counts.
    assert_eq!(type_property(&space, "done").unwrap().format, Format::Text);
    assert_eq!(
        type_properties(&space, &ids(&["done", "x", "y"])).unwrap_err().message(),
        "the space has no property x"
    );
    assert_eq!(type_properties(&space, &ids(&["done"])).unwrap().len(), 1);
}

#[test]
fn a_header_gains_what_it_lacks() {
    let task = &types()[0];
    let space = vec![property("id-p", "priority", Format::Select)];
    match header_step(task, None, &space) {
        HeaderStep::Later(keys) => {
            assert_eq!(keys, ids(&["priority", "due_date", "scheduled", "reminder_lead"]));
        }
        other => panic!("{other:?}"),
    }
    let found = TypeHeader { featured: ids(&["type", "id-p"]), recommended: ids(&["due_date"]) };
    let step = header_step(task, Some(&found), &space);
    assert_eq!(header_line("task", &step), "  header  task: due_date, scheduled, reminder_lead");
    match step {
        HeaderStep::Change { featured, recommended, .. } => {
            assert_eq!(featured, ids(&["type", "id-p", "due_date", "scheduled", "reminder_lead"]));
            assert!(recommended.is_empty());
        }
        other => panic!("{other:?}"),
    }
}

#[test]
fn a_run_says_how_it_ended() {
    assert_eq!(closing(false, true), Some("nothing to change"));
    assert!(closing(true, false).unwrap().starts_with("dry run"));
    assert_eq!(closing(true, true), None);
    assert_eq!(try_again(0), Some(1));
    assert_eq!(try_again(6), None);
}
