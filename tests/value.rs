use std::collections::HashMap;

use envious::{Config, EnumShape, EnvDeserializationError, Parser, Value};

fn simple(s: &str) -> Value {
    Value::Simple(String::from(s))
}

fn scalar<T>(p: Parser) -> Result<T, EnvDeserializationError>
where
    T: std::str::FromStr,
    T::Err: std::fmt::Display,
{
    let raw = p.into_scalar()?;
    raw.parse::<T>()
        .map_err(|e| EnvDeserializationError::parse_failure(&raw, &e.to_string()))
}

fn sequence<T>(p: Parser) -> Result<Vec<T>, EnvDeserializationError>
where
    T: std::str::FromStr,
    T::Err: std::fmt::Display,
{
    p.into_seq().into_iter().map(scalar::<T>).collect()
}

fn map_of<T>(p: Parser) -> Result<HashMap<String, T>, EnvDeserializationError>
where
    T: std::str::FromStr,
    T::Err: std::fmt::Display,
{
    p.into_map()?
        .into_iter()
        .map(|(k, v)| scalar::<T>(v).map(|v| (k, v)))
        .collect()
}

#[test]
fn simple_values() {
    let config = Config::new();
    assert_eq!(
        Result::<_, EnvDeserializationError>::Ok(true),
        scalar::<bool>(Parser::new(&config, simple("true")))
    );

    assert_eq!(Ok(25u32), scalar::<u32>(Parser::new(&config, simple("25"))));
    assert_eq!(
        Ok(String::from("foobar")),
        Parser::new(&config, simple("foobar")).into_scalar()
    );
    assert_eq!(
        Ok(Some(String::from("foobar"))),
        Parser::new(&config, simple("foobar")).into_scalar().map(Some)
    );
}

#[test]
fn simple_sequence() {
    let config = Config::new();
    assert_eq!(
        Result::<_, EnvDeserializationError>::Ok(vec![125u32]),
        sequence::<u32>(Parser::new(&config, simple("125")))
    );
    assert_eq!(
        Ok(vec![125u32, 200, 300]),
        sequence::<u32>(Parser::new(
            &config,
            Value::Nested(vec![
                (String::from(""), simple("125")),
                (String::from(""), simple("200")),
                (String::from(""), simple("300"))
            ])
        ))
    );
}

#[test]
fn sorted_sequence() {
    let config = Config::new();
    assert_eq!(
        Result::<_, EnvDeserializationError>::Ok(vec![125u32]),
        sequence::<u32>(Parser::new(&config, simple("125")))
    );
    assert_eq!(
        Ok(vec![200u32, 125, 300]),
        sequence::<u32>(Parser::new(
            &config,
            Value::Nested(vec![
                (String::from("1"), simple("125")),
                (String::from("0"), simple("200")),
                (String::from("4"), simple("300"))
            ])
        ))
    );
}

#[test]
fn simple_map() {
    let config = Config::new();
    assert_eq!(
        Result::<_, EnvDeserializationError>::Ok(HashMap::from([(String::from("foo"), 123)])),
        map_of::<i32>(Parser::new(
            &config,
            Value::Nested(vec![(String::from("foo"), simple("123"))])
        ))
    );

    let outer = Parser::new(
        &config,
        Value::Nested(vec![(
            String::from("foo"),
            Value::Nested(vec![(String::from("bar"), simple("123"))]),
        )]),
    );
    let nested: Result<HashMap<String, HashMap<String, i32>>, EnvDeserializationError> = outer
        .into_map()
        .unwrap()
        .into_iter()
        .map(|(k, v)| map_of::<i32>(v).map(|v| (k, v)))
        .collect();
    assert_eq!(
        Ok(HashMap::from([(
            String::from("foo"),
            HashMap::from([(String::from("bar"), 123)]),
        )])),
        nested
    );
}

#[test]
fn unordered_sequence_keeps_insertion_order() {
    let mut config = Config::new();
    config.ordered_arrays(false);
    assert_eq!(
        Ok(vec![125u32, 200, 300]),
        sequence::<u32>(Parser::new(
            &config,
            Value::Nested(vec![
                (String::from("1"), simple("125")),
                (String::from("0"), simple("200")),
                (String::from("4"), simple("300"))
            ])
        ))
    );
}

#[test]
fn ordering_puts_plain_keys_first_then_numbers_then_suffixes() {
    let config = Config::new();
    let tree = Value::Nested(vec![
        (String::from("2a"), simple("2a")),
        (String::from("10"), simple("10")),
        (String::from("1b"), simple("1b")),
        (String::from("b"), simple("b")),
        (String::from("1"), simple("1")),
        (String::from("a"), simple("a")),
        (String::from("02"), simple("02")),
    ]);
    let order: Vec<String> = Parser::new(&config, tree)
        .into_seq()
        .into_iter()
        .map(|p| p.into_scalar().unwrap())
        .collect();
    assert_eq!(order, vec!["a", "b", "1", "1b", "02", "2a", "10"]);
}

#[test]
fn ordering_treats_an_oversized_number_as_absent() {
    let config = Config::new();
    let tree = Value::Nested(vec![
        (String::from("5"), simple("five")),
        (String::from("99999999999999999999999"), simple("huge")),
        (String::from("x"), simple("x")),
    ]);
    let order: Vec<String> = Parser::new(&config, tree)
        .into_seq()
        .into_iter()
        .map(|p| p.into_scalar().unwrap())
        .collect();
    assert_eq!(order, vec!["huge", "x", "five"]);
}

#[test]
fn single_value_is_a_sequence_of_one() {
    let config = Config::new();
    let elements = Parser::new(&config, simple("125")).into_seq();
    assert_eq!(elements.len(), 1);
    assert_eq!(scalar::<u32>(Parser::new(&config, simple("125"))), Ok(125));
}

#[test]
fn group_is_no_scalar() {
    let config = Config::new();
    let p = Parser::new(&config, Value::Nested(Vec::new()));
    assert!(!p.is_simple());
    assert_eq!(p.into_scalar(), Err(EnvDeserializationError::InvalidNestedValues));
}

#[test]
fn single_value_is_no_map_or_struct() {
    let config = Config::new();
    let p = Parser::new(&config, simple("x"));
    assert!(p.is_simple());
    assert!(matches!(p.into_map(), Err(EnvDeserializationError::UnsupportedValue)));
    let q = Parser::new(&config, simple("x"));
    assert!(matches!(
        q.into_struct(&["x"]),
        Err(EnvDeserializationError::UnsupportedValue)
    ));
}

#[test]
fn parse_failure_message() {
    let config = Config::new();
    let err = scalar::<u32>(Parser::new(&config, simple("abc"))).unwrap_err();
    assert_eq!(
        err,
        EnvDeserializationError::GenericDeserialization(String::from(
            "'abc' could not be deserialized due to: invalid digit found in string"
        ))
    );
}

#[test]
fn struct_fields_ignore_case_when_insensitive() {
    let config = Config::new();
    let tree = Value::Nested(vec![
        (String::from("FIELD1"), simple("1")),
        (String::from("Field2"), simple("x")),
        (String::from("other"), simple("y")),
    ]);
    let keys: Vec<String> = Parser::new(&config, tree)
        .into_struct(&["field1", "field2"])
        .unwrap()
        .into_iter()
        .map(|(k, _)| k)
        .collect();
    assert_eq!(keys, vec!["field1", "field2", "other"]);

    let lower = Value::Nested(vec![
        (String::from("field1"), simple("1")),
        (String::from("FIELD2"), simple("x")),
    ]);
    let keys: Vec<String> = Parser::new(&config, lower)
        .into_struct(&["field1", "field2"])
        .unwrap()
        .into_iter()
        .map(|(k, _)| k)
        .collect();
    assert_eq!(keys, vec!["field1", "field2"]);
}

#[test]
fn struct_fields_keep_case_when_sensitive() {
    let mut config = Config::new();
    config.case_sensitive(true);
    let tree = Value::Nested(vec![
        (String::from("FIELD1"), simple("1")),
        (String::from("Field2"), simple("x")),
    ]);
    let keys: Vec<String> = Parser::new(&config, tree)
        .into_struct(&["field1", "field2"])
        .unwrap()
        .into_iter()
        .map(|(k, _)| k)
        .collect();
    assert_eq!(keys, vec!["FIELD1", "Field2"]);
}

#[test]
fn maybe_coerce_case_renames_to_first_match() {
    let config = Config::new();
    let renamed = config.maybe_coerce_case(
        vec![(String::from("ab"), 1), (String::from("zz"), 2)],
        &["x", "AB", "ab"],
    );
    assert_eq!(renamed, vec![(String::from("AB"), 1), (String::from("zz"), 2)]);
}

#[test]
fn enum_unit_variant_from_single_value() {
    let config = Config::new();
    match Parser::new(&config, simple("No")).into_enum(&["Yes", "No"]) {
        EnumShape::Unit(name) => assert_eq!(name, "No"),
        EnumShape::Payload(_) => panic!("expected a unit variant"),
    }
}

#[test]
fn enum_struct_variant_from_group() {
    let config = Config::new();
    let tree = Value::Nested(vec![(
        String::from("Access"),
        Value::Nested(vec![
            (String::from("password"), simple("hunter2")),
            (String::from("foo"), simple("42.0")),
        ]),
    )]);
    let payload = match Parser::new(&config, tree).into_enum(&["Access", "No"]) {
        EnumShape::Payload(v) => v,
        EnumShape::Unit(_) => panic!("expected a payload"),
    };
    assert_eq!(payload.len(), 1);
    let (variant, body) = payload.into_iter().next().unwrap();
    assert_eq!(variant, "Access");
    let fields = body.into_struct(&["password", "foo"]).unwrap();
    let mut password = None;
    let mut foo = None;
    for (k, v) in fields {
        if k == "password" {
            password = Some(v.into_scalar().unwrap());
        } else if k == "foo" {
            foo = Some(scalar::<f32>(v).unwrap());
        }
    }
    assert_eq!(password, Some(String::from("hunter2")));
    assert_eq!(foo, Some(42.0));
}

#[test]
fn enum_variant_name_ignores_case() {
    let config = Config::new();
    let tree = Value::Nested(vec![(String::from("notempty"), simple("3"))]);
    match Parser::new(&config, tree).into_enum(&["Empty", "NoTeMpTy"]) {
        EnumShape::Payload(v) => assert_eq!(v[0].0, "NoTeMpTy"),
        EnumShape::Unit(_) => panic!("expected a payload"),
    }
}
