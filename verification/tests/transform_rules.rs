use alma_client::document::Value;
use alma_client::transform::{transform_record, TransformConfig, Transformed, TransformNote};

fn to_value(j: &json::JsonValue) -> Value {
    match j {
        json::JsonValue::Null => Value::Null,
        json::JsonValue::Boolean(b) => Value::Bool(*b),
        json::JsonValue::Number(_) => Value::Num(j.dump()),
        json::JsonValue::Short(s) => Value::Str(s.as_str().to_string()),
        json::JsonValue::String(s) => Value::Str(s.clone()),
        json::JsonValue::Array(items) => Value::Arr(items.iter().map(to_value).collect()),
        json::JsonValue::Object(o) => Value::Obj(
            o.iter().map(|(k, v)| (k.to_string(), to_value(v))).collect(),
        ),
    }
}

fn to_json(v: &Value) -> json::JsonValue {
    match v {
        Value::Null => json::JsonValue::Null,
        Value::Bool(b) => json::JsonValue::Boolean(*b),
        Value::Num(s) => json::parse(s).unwrap(),
        Value::Str(s) => json::JsonValue::String(s.clone()),
        Value::Arr(items) => json::JsonValue::Array(items.iter().map(to_json).collect()),
        Value::Obj(fields) => {
            let mut o = json::object::Object::new();
            for (k, v) in fields {
                o.insert(k, to_json(v));
            }
            json::JsonValue::Object(o)
        },
    }
}

fn strip_config(categories: &[&str]) -> TransformConfig {
    TransformConfig {
        normalize_title: false,
        prune_role_parameters: false,
        categories_to_remove: categories.iter().map(|c| c.to_string()).collect(),
        external_groups: vec![],
    }
}

const STRIP_INPUT: &str = r#"
        {
            "user_statistic": [
                {
                    "statistic_category": {
                        "value": "RC_60",
                        "desc": "RC Libraries"
                    },
                    "category_type": {
                        "value": "RESPONSIBILITY_CENTER",
                        "desc": "Responsibility Center (RC)"
                    },
                    "statistic_note": "Libraries",
                    "segment_type": "External"
                },
                {
                    "statistic_category": {
                        "value": "FPT_FR",
                        "desc": "FPT Fulltime Regular"
                    },
                    "category_type": {
                        "value": "FULL_PART_TIME",
                        "desc": "Full or Part Time Enrollment (FPT)"
                    },
                    "statistic_note": "Fulltime-Regular",
                    "segment_type": "External"
                },
                {
                    "statistic_category": {
                        "value": "ED_62050",
                        "desc": "ED (62050) Information Technology"
                    },
                    "category_type": {
                        "value": "EMPLOYEE_DEPT",
                        "desc": "Employee Department (ED)"
                    },
                    "statistic_note": "Information Technology",
                    "segment_type": "External"
                }
            ]
        }"#;

const STRIP_EXPECTED: &str = r#"
            {
                "user_statistic": [
                    {
                        "statistic_category": {
                            "value": "RC_60",
                            "desc": "RC Libraries"
                        },
                        "category_type": {
                            "value": "RESPONSIBILITY_CENTER",
                            "desc": "Responsibility Center (RC)"
                        },
                        "statistic_note": "Libraries",
                        "segment_type": "External"
                    },
                    {
                        "statistic_category": {
                            "value": "ED_62050",
                            "desc": "ED (62050) Information Technology"
                        },
                        "category_type": {
                            "value": "EMPLOYEE_DEPT",
                            "desc": "Employee Department (ED)"
                        },
                        "statistic_note": "Information Technology",
                        "segment_type": "External"
                    }
                ]
            }"#;

fn strip_scenario() {
    let user_json = json::parse(STRIP_INPUT).unwrap();
    let record = to_value(&user_json);
    let config = strip_config(&["FULL_PART_TIME"]);
    let (outcome, _notes) = transform_record(&record, &config);
    let updated = match outcome {
        Transformed::Changed(new_record) => {
            let expected = json::parse(STRIP_EXPECTED).unwrap();
            assert_eq!(to_json(&new_record), expected);
            true
        },
        Transformed::Unchanged => false,
    };
    assert!(updated);
}

#[test]
fn test_json_strip_fn() {
    strip_scenario();
}

#[test]
fn main_test_json_strip_fn() {
    strip_scenario();
}

fn stat(category: &str, segment: &str) -> Value {
    Value::Obj(vec![
        (
            "category_type".to_string(),
            Value::Obj(vec![("value".to_string(), Value::Str(category.to_string()))]),
        ),
        ("segment_type".to_string(), Value::Str(segment.to_string())),
    ])
}

fn stats_of(record: &Value) -> Vec<String> {
    match record.get("user_statistic") {
        Some(Value::Arr(items)) => items
            .iter()
            .map(|s| match s.get("category_type").unwrap().get("value").unwrap() {
                Value::Str(c) => c.clone(),
                _ => panic!("category is not a string"),
            })
            .collect(),
        _ => panic!("no statistics"),
    }
}

#[test]
fn three_statistics_one_removed_in_order() {
    let record = Value::Obj(vec![(
        "user_statistic".to_string(),
        Value::Arr(vec![
            stat("RESPONSIBILITY_CENTER", "External"),
            stat("FULL_PART_TIME", "External"),
            stat("EMPLOYEE_DEPT", "External"),
        ]),
    )]);
    let config = strip_config(&["FULL_PART_TIME"]);
    let (outcome, notes) = transform_record(&record, &config);
    match outcome {
        Transformed::Changed(new_record) => {
            assert_eq!(
                stats_of(&new_record),
                vec!["RESPONSIBILITY_CENTER".to_string(), "EMPLOYEE_DEPT".to_string()]
            );
        },
        Transformed::Unchanged => panic!("expected a change"),
    }
    assert!(notes.is_empty());
}

#[test]
fn transform_is_idempotent() {
    let record = Value::Obj(vec![(
        "user_statistic".to_string(),
        Value::Arr(vec![
            stat("RESPONSIBILITY_CENTER", "External"),
            stat("FULL_PART_TIME", "External"),
        ]),
    )]);
    let config = strip_config(&["FULL_PART_TIME"]);
    let (first, _) = transform_record(&record, &config);
    let edited = match first {
        Transformed::Changed(v) => v,
        Transformed::Unchanged => panic!("expected a change"),
    };
    let (second, _) = transform_record(&edited, &config);
    assert!(matches!(second, Transformed::Unchanged));
}

#[test]
fn internal_statistics_dropped_on_external_groups_with_note() {
    let record = Value::Obj(vec![
        (
            "user_group".to_string(),
            Value::Obj(vec![("value".to_string(), Value::Str("ALUM".to_string()))]),
        ),
        (
            "user_statistic".to_string(),
            Value::Arr(vec![stat("A", "Internal"), stat("B", "External")]),
        ),
    ]);
    let config = TransformConfig {
        normalize_title: false,
        prune_role_parameters: false,
        categories_to_remove: vec![],
        external_groups: vec!["ALUM".to_string()],
    };
    let (outcome, notes) = transform_record(&record, &config);
    match outcome {
        Transformed::Changed(new_record) => {
            assert_eq!(stats_of(&new_record), vec!["B".to_string()]);
        },
        Transformed::Unchanged => panic!("expected a change"),
    }
    assert!(matches!(notes[..], [TransformNote::InternalStatistic { index: 0 }]));
}

#[test]
fn title_value_upper_cased_when_description_present() {
    let record = Value::Obj(vec![
        (
            "user_title".to_string(),
            Value::Obj(vec![
                ("value".to_string(), Value::Str("dr".to_string())),
                ("desc".to_string(), Value::Str("Doctor".to_string())),
            ]),
        ),
        ("user_statistic".to_string(), Value::Arr(vec![stat("GONE", "External")])),
    ]);
    let config = TransformConfig {
        normalize_title: true,
        prune_role_parameters: false,
        categories_to_remove: vec!["GONE".to_string()],
        external_groups: vec![],
    };
    let (outcome, notes) = transform_record(&record, &config);
    match outcome {
        Transformed::Changed(new_record) => {
            let title = new_record.get("user_title").unwrap();
            match title.get("value").unwrap() {
                Value::Str(s) => assert_eq!(s, "DR"),
                _ => panic!("title value is not a string"),
            }
        },
        Transformed::Unchanged => panic!("expected a change"),
    }
    assert!(notes.is_empty());
}

#[test]
fn title_without_description_removed_and_noted() {
    let record = Value::Obj(vec![
        (
            "user_title".to_string(),
            Value::Obj(vec![("value".to_string(), Value::Str("dr".to_string()))]),
        ),
        ("user_statistic".to_string(), Value::Arr(vec![stat("GONE", "External")])),
    ]);
    let config = TransformConfig {
        normalize_title: true,
        prune_role_parameters: false,
        categories_to_remove: vec!["GONE".to_string()],
        external_groups: vec![],
    };
    let (outcome, notes) = transform_record(&record, &config);
    match outcome {
        Transformed::Changed(new_record) => {
            assert!(new_record.get("user_title").is_none());
        },
        Transformed::Unchanged => panic!("expected a change"),
    }
    assert!(matches!(notes[..], [TransformNote::TitleWithoutDescription]));
}

#[test]
fn sentinel_role_parameters_pruned() {
    let param_sentinel = Value::Obj(vec![(
        "value".to_string(),
        Value::Obj(vec![("value".to_string(), Value::Str("DEFAULT_CIRC_DESK".to_string()))]),
    )]);
    let param_kept = Value::Obj(vec![(
        "value".to_string(),
        Value::Obj(vec![
            ("value".to_string(), Value::Str("OTHER_DESK".to_string())),
            ("desc".to_string(), Value::Str("Other desk".to_string())),
        ]),
    )]);
    let record = Value::Obj(vec![
        (
            "user_role".to_string(),
            Value::Arr(vec![Value::Obj(vec![(
                "parameter".to_string(),
                Value::Arr(vec![param_sentinel, param_kept]),
            )])]),
        ),
        ("user_statistic".to_string(), Value::Arr(vec![stat("GONE", "External")])),
    ]);
    let config = TransformConfig {
        normalize_title: false,
        prune_role_parameters: true,
        categories_to_remove: vec!["GONE".to_string()],
        external_groups: vec![],
    };
    let (outcome, _) = transform_record(&record, &config);
    match outcome {
        Transformed::Changed(new_record) => {
            match new_record.get("user_role").unwrap() {
                Value::Arr(roles) => match roles[0].get("parameter").unwrap() {
                    Value::Arr(params) => assert_eq!(params.len(), 1),
                    _ => panic!("parameters are not a list"),
                },
                _ => panic!("roles are not a list"),
            }
        },
        Transformed::Unchanged => panic!("expected a change"),
    }
}

#[test]
fn title_only_change_is_written_back() {
    // No statistic is removed, but the title lacks a description: the edited
    // record still counts as changed and is written back.
    let record = Value::Obj(vec![
        (
            "user_title".to_string(),
            Value::Obj(vec![("value".to_string(), Value::Str("dr".to_string()))]),
        ),
        ("user_statistic".to_string(), Value::Arr(vec![stat("KEEP_ME", "External")])),
    ]);
    let config = TransformConfig {
        normalize_title: true,
        prune_role_parameters: false,
        categories_to_remove: vec![],
        external_groups: vec![],
    };
    let (outcome, notes) = transform_record(&record, &config);
    match outcome {
        Transformed::Changed(new_record) => {
            assert!(new_record.get("user_title").is_none());
            assert_eq!(stats_of(&new_record), vec!["KEEP_ME".to_string()]);
        },
        Transformed::Unchanged => panic!("expected a change"),
    }
    assert!(matches!(notes[..], [TransformNote::TitleWithoutDescription]));
}

#[test]
fn upper_casing_alone_is_a_change() {
    let record = Value::Obj(vec![(
        "user_title".to_string(),
        Value::Obj(vec![
            ("value".to_string(), Value::Str("dr".to_string())),
            ("desc".to_string(), Value::Str("Doctor".to_string())),
        ]),
    )]);
    let config = TransformConfig {
        normalize_title: true,
        prune_role_parameters: false,
        categories_to_remove: vec![],
        external_groups: vec![],
    };
    let (outcome, _) = transform_record(&record, &config);
    match outcome {
        Transformed::Changed(new_record) => {
            match new_record.get("user_title").unwrap().get("value").unwrap() {
                Value::Str(s) => assert_eq!(s, "DR"),
                _ => panic!("title value is not a string"),
            }
        },
        Transformed::Unchanged => panic!("expected a change"),
    }
}

#[test]
fn transform_is_idempotent_through_title_rule() {
    let record = Value::Obj(vec![
        (
            "user_title".to_string(),
            Value::Obj(vec![
                ("value".to_string(), Value::Str("dr jekyll".to_string())),
                ("desc".to_string(), Value::Str("Doctor".to_string())),
            ]),
        ),
        ("user_statistic".to_string(), Value::Arr(vec![stat("GONE", "External")])),
    ]);
    let config = TransformConfig {
        normalize_title: true,
        prune_role_parameters: true,
        categories_to_remove: vec!["GONE".to_string()],
        external_groups: vec![],
    };
    let (first, _) = transform_record(&record, &config);
    let edited = match first {
        Transformed::Changed(v) => v,
        Transformed::Unchanged => panic!("expected a change"),
    };
    let (second, _) = transform_record(&edited, &config);
    assert!(matches!(second, Transformed::Unchanged));
}

#[test]
fn already_upper_cased_title_is_unchanged() {
    let record = Value::Obj(vec![(
        "user_title".to_string(),
        Value::Obj(vec![
            ("value".to_string(), Value::Str("DR".to_string())),
            ("desc".to_string(), Value::Str("Doctor".to_string())),
        ]),
    )]);
    let config = TransformConfig {
        normalize_title: true,
        prune_role_parameters: false,
        categories_to_remove: vec![],
        external_groups: vec![],
    };
    let (outcome, _) = transform_record(&record, &config);
    assert!(matches!(outcome, Transformed::Unchanged));
}

#[test]
fn pruned_role_parameter_alone_is_a_change() {
    let param_sentinel = Value::Obj(vec![(
        "value".to_string(),
        Value::Obj(vec![("value".to_string(), Value::Str("DEFAULT_CIRC_DESK".to_string()))]),
    )]);
    let record = Value::Obj(vec![(
        "user_role".to_string(),
        Value::Arr(vec![Value::Obj(vec![(
            "parameter".to_string(),
            Value::Arr(vec![param_sentinel]),
        )])]),
    )]);
    let config = TransformConfig {
        normalize_title: false,
        prune_role_parameters: true,
        categories_to_remove: vec![],
        external_groups: vec![],
    };
    let (outcome, _) = transform_record(&record, &config);
    match outcome {
        Transformed::Changed(new_record) => {
            match new_record.get("user_role").unwrap() {
                Value::Arr(roles) => match roles[0].get("parameter").unwrap() {
                    Value::Arr(params) => assert!(params.is_empty()),
                    _ => panic!("parameters are not a list"),
                },
                _ => panic!("roles are not a list"),
            }
        },
        Transformed::Unchanged => panic!("expected a change"),
    }
}

#[test]
fn unchanged_when_no_category_matches() {
    let record = Value::Obj(vec![(
        "user_statistic".to_string(),
        Value::Arr(vec![stat("KEEP_ME", "External")]),
    )]);
    let config = strip_config(&["SOMETHING_ELSE"]);
    let (outcome, _) = transform_record(&record, &config);
    assert!(matches!(outcome, Transformed::Unchanged));
}

#[test]
fn dump_renders_documents_exactly() {
    let v = Value::Obj(vec![
        ("name".to_string(), Value::Str("a\"b".to_string())),
        ("n".to_string(), Value::Num("3".to_string())),
        ("flags".to_string(), Value::Arr(vec![Value::Bool(true), Value::Null])),
    ]);
    assert_eq!(v.dump(), "{\"name\":\"a\\\"b\",\"n\":3,\"flags\":[true,null]}");
    // Control characters get the four-digit escape.
    let c = Value::Str("a\u{1}b\u{1f}c".to_string());
    assert_eq!(c.dump(), "\"a\\u0001b\\u001fc\"");
}
