use envious::{Config, Value};

fn simple(s: &str) -> Value {
    Value::Simple(String::from(s))
}

#[test]
fn convert_list_of_key_vals_to_tree() {
    let input = vec![
        (String::from("FOO"), simple("BAR")),
        (String::from("BAZ"), simple("124")),
        (String::from("NESTED__FOO"), simple("true")),
        (String::from("NESTED__BAZ"), simple("Hello")),
    ];

    let expected = Value::Nested(vec![
        (String::from("FOO"), simple("BAR")),
        (String::from("BAZ"), simple("124")),
        (
            String::from("NESTED"),
            Value::Nested(vec![
                (String::from("FOO"), simple("true")),
                (String::from("BAZ"), simple("Hello")),
            ]),
        ),
    ]);

    let config = Config::new();
    let actual = config.create_parser(input).unwrap();

    assert_eq!(actual.current, expected);
}

#[test]
fn custom_sep() {
    let input = vec![
        (String::from("FOO"), simple("bar")),
        (String::from("BAZ"), simple("124")),
        (String::from("NESTED#FOO"), simple("true")),
        (String::from("NESTED#BAZ"), simple("Hello")),
    ];

    let expected = Value::Nested(vec![
        (String::from("FOO"), simple("bar")),
        (String::from("BAZ"), simple("124")),
        (
            String::from("NESTED"),
            Value::Nested(vec![
                (String::from("FOO"), simple("true")),
                (String::from("BAZ"), simple("Hello")),
            ]),
        ),
    ]);

    let mut config = Config::new();
    let actual = config.with_separator("#").create_parser(input).unwrap();

    assert_eq!(actual.current, expected);
}

#[test]
fn default_config_matches_new() {
    let a = Config::default();
    assert!(!a.is_case_sensitive());
    assert!(a.orders_arrays());
    let input = vec![(String::from("A__B"), simple("1"))];
    let tree = a.create_parser(input).unwrap().current;
    assert_eq!(
        tree,
        Value::Nested(vec![(
            String::from("A"),
            Value::Nested(vec![(String::from("B"), simple("1"))])
        )])
    );
}

#[test]
fn builder_setters_change_settings() {
    let mut config = Config::new();
    config.case_sensitive(true).ordered_arrays(false);
    assert!(config.is_case_sensitive());
    assert!(!config.orders_arrays());
    config.with_prefix("APP_").without_prefix();
    assert_eq!(config.normalize_key("KEY"), Some(String::from("KEY")));
}

#[test]
fn same_tree_with_either_separator() {
    let default_keys = vec![
        (String::from("FOO"), simple("bar")),
        (String::from("NESTED__FOO"), simple("true")),
        (String::from("NESTED__BAZ"), simple("Hello")),
    ];
    let hash_keys = vec![
        (String::from("FOO"), simple("bar")),
        (String::from("NESTED#FOO"), simple("true")),
        (String::from("NESTED#BAZ"), simple("Hello")),
    ];
    let first = Config::new();
    let mut second = Config::new();
    second.with_separator("#");
    let a = first.create_parser(default_keys).unwrap().current;
    let b = second.create_parser(hash_keys).unwrap().current;
    assert_eq!(a, b);
    assert_eq!(
        a,
        Value::Nested(vec![
            (String::from("FOO"), simple("bar")),
            (
                String::from("NESTED"),
                Value::Nested(vec![
                    (String::from("FOO"), simple("true")),
                    (String::from("BAZ"), simple("Hello")),
                ]),
            ),
        ])
    );
}

#[test]
fn collision_names_the_rest_of_the_path() {
    let config = Config::new();
    let input = vec![
        (String::from("test"), simple("true")),
        (String::from("test__bar"), simple("true")),
    ];
    let err = config.create_parser(input).err().unwrap();
    assert_eq!(
        err,
        envious::EnvDeserializationError::InvalidEnvNesting(vec![
            String::from("test"),
            String::from("bar")
        ])
    );
}

#[test]
fn collision_deeper_in_the_path() {
    let config = Config::new();
    let input = vec![
        (String::from("a__b"), simple("1")),
        (String::from("a__b__c__d"), simple("2")),
    ];
    let err = config.create_parser(input).err().unwrap();
    assert_eq!(
        err,
        envious::EnvDeserializationError::InvalidEnvNesting(vec![
            String::from("b"),
            String::from("c"),
            String::from("d")
        ])
    );
}

#[test]
fn deeper_key_first_then_single_key_fails() {
    let config = Config::new();
    let input = vec![
        (String::from("test__bar"), simple("true")),
        (String::from("test"), simple("true")),
    ];
    let err = config.create_parser(input).err().unwrap();
    assert_eq!(
        err,
        envious::EnvDeserializationError::InvalidEnvNesting(vec![String::from("test")])
    );
}

#[test]
fn key_ending_at_a_nested_group_fails_unchanged() {
    let mut tree = Value::Nested(Vec::new());
    tree.insert_at(&["a", "b", "c"], simple("1")).unwrap();
    let before = Value::Nested(vec![(
        String::from("a"),
        Value::Nested(vec![(
            String::from("b"),
            Value::Nested(vec![(String::from("c"), simple("1"))]),
        )]),
    )]);
    assert_eq!(tree, before);
    let err = tree.insert_at(&["a", "b"], simple("2")).unwrap_err();
    assert_eq!(
        err,
        envious::EnvDeserializationError::InvalidEnvNesting(vec![String::from("b")])
    );
    assert_eq!(tree, before);
}

#[test]
fn group_value_beside_single_value_of_same_name_fails() {
    let mut tree = Value::Nested(vec![(String::from("k"), simple("1"))]);
    let err = tree
        .insert_at(&["k"], Value::Nested(Vec::new()))
        .unwrap_err();
    assert_eq!(
        err,
        envious::EnvDeserializationError::InvalidEnvNesting(vec![String::from("k")])
    );
    assert_eq!(tree, Value::Nested(vec![(String::from("k"), simple("1"))]));
}

#[test]
fn nested_duplicate_single_values_are_both_kept() {
    let config = Config::new();
    let input = vec![
        (String::from("a__b"), simple("1")),
        (String::from("a__b"), simple("2")),
    ];
    let tree = config.create_parser(input).unwrap().current;
    assert_eq!(
        tree,
        Value::Nested(vec![(
            String::from("a"),
            Value::Nested(vec![
                (String::from("b"), simple("1")),
                (String::from("b"), simple("2")),
            ])
        )])
    );
}

#[test]
fn duplicate_single_keys_are_both_kept() {
    let config = Config::new();
    let input = vec![
        (String::from("k"), simple("1")),
        (String::from("k"), simple("2")),
    ];
    let tree = config.create_parser(input).unwrap().current;
    assert_eq!(
        tree,
        Value::Nested(vec![
            (String::from("k"), simple("1")),
            (String::from("k"), simple("2")),
        ])
    );
}

#[test]
fn empty_input_gives_empty_group() {
    let config = Config::new();
    let tree = config.create_parser(Vec::new()).unwrap().current;
    assert_eq!(tree, Value::Nested(Vec::new()));
}

#[test]
fn insert_at_creates_groups_and_appends() {
    let mut tree = Value::Nested(Vec::new());
    tree.insert_at(&["a", "b", "c"], simple("1")).unwrap();
    tree.insert_at(&["a", "d"], simple("2")).unwrap();
    assert_eq!(
        tree,
        Value::Nested(vec![(
            String::from("a"),
            Value::Nested(vec![
                (
                    String::from("b"),
                    Value::Nested(vec![(String::from("c"), simple("1"))])
                ),
                (String::from("d"), simple("2")),
            ])
        )])
    );
}

#[test]
fn insert_at_into_single_value_fails_unchanged() {
    let mut leaf = simple("x");
    let err = leaf.insert_at(&["a", "b"], simple("1")).unwrap_err();
    assert_eq!(
        err,
        envious::EnvDeserializationError::InvalidEnvNesting(vec![
            String::from("a"),
            String::from("b")
        ])
    );
    assert_eq!(leaf, simple("x"));
}

#[test]
fn empty_separator_splits_every_character() {
    let mut config = Config::new();
    config.with_separator("");
    let tree = config
        .create_parser(vec![(String::from("ab"), simple("v"))])
        .unwrap()
        .current;
    let expected = Value::Nested(vec![(
        String::from(""),
        Value::Nested(vec![(
            String::from("a"),
            Value::Nested(vec![(
                String::from("b"),
                Value::Nested(vec![(String::from(""), simple("v"))]),
            )]),
        )]),
    )]);
    assert_eq!(tree, expected);
}
