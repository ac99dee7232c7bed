use std::collections::HashMap;

use envious::{Config, EnumShape, EnvDeserializationError, Parser};

fn pairs(vars: &[(&str, &str)]) -> Vec<(String, String)> {
    vars.iter()
        .map(|(k, v)| (String::from(*k), String::from(*v)))
        .collect()
}

fn field<'a>(entries: &mut Vec<(String, Parser<'a>)>, name: &str) -> Result<Parser<'a>, String> {
    match entries.iter().position(|(k, _)| k == name) {
        Some(pos) => Ok(entries.remove(pos).1),
        None => Err(format!("missing field `{}`", name)),
    }
}

fn number<T: std::str::FromStr>(p: Parser) -> Result<T, String> {
    let raw = p.into_scalar().map_err(|e| format!("{:?}", e))?;
    raw.parse::<T>().map_err(|_| format!("cannot parse {}", raw))
}

fn strukt<'a>(p: Parser<'a>, fields: &[&str]) -> Result<Vec<(String, Parser<'a>)>, String> {
    p.into_struct(fields).map_err(|e| format!("{:?}", e))
}

#[derive(Debug, PartialEq)]
enum Variants {
    Empty,
    AlsoEmpty,
    NotEmpty(usize),
}

#[derive(Debug, PartialEq)]
struct Inner {
    field1: usize,
    field2: Variants,
    field3: usize,
}

#[derive(Debug, PartialEq)]
struct Root {
    field1: usize,
    field2: Variants,
    field3: Inner,
}

fn variants(p: Parser) -> Result<Variants, String> {
    match p.into_enum(&["Empty", "ALSO_EMPTY", "NoTeMpTy"]) {
        EnumShape::Unit(name) => match name.as_str() {
            "Empty" => Ok(Variants::Empty),
            "ALSO_EMPTY" => Ok(Variants::AlsoEmpty),
            other => Err(format!("unknown variant {}", other)),
        },
        EnumShape::Payload(mut v) => {
            if v.is_empty() {
                return Err(String::from("no variant"));
            }
            let (name, body) = v.remove(0);
            match name.as_str() {
                "NoTeMpTy" => Ok(Variants::NotEmpty(number(body)?)),
                other => Err(format!("unknown variant {}", other)),
            }
        }
    }
}

const ROOT_FIELDS: [&str; 3] = ["field1", "FIELD2", "FiElD3"];

fn inner(p: Parser) -> Result<Inner, String> {
    let mut e = strukt(p, &ROOT_FIELDS)?;
    Ok(Inner {
        field1: number(field(&mut e, "field1")?)?,
        field2: variants(field(&mut e, "FIELD2")?)?,
        field3: number(field(&mut e, "FiElD3")?)?,
    })
}

fn root(config: &Config, vars: &[(&str, &str)]) -> Result<Root, String> {
    let p = config.build_parser(pairs(vars)).map_err(|e| format!("{:?}", e))?;
    let mut e = strukt(p, &ROOT_FIELDS)?;
    Ok(Root {
        field1: number(field(&mut e, "field1")?)?,
        field2: variants(field(&mut e, "FIELD2")?)?,
        field3: inner(field(&mut e, "FiElD3")?)?,
    })
}

#[test]
fn case_sensitivity_parse_from_env() {
    let mut config = Config::new();
    let expected = Root {
        field1: 1,
        field2: Variants::AlsoEmpty,
        field3: Inner {
            field1: 2,
            field2: Variants::NotEmpty(3),
            field3: 4,
        },
    };

    let vars = [
        ("field1", "1"),
        ("FIELD2", "ALSO_EMPTY"),
        ("FiElD3__field1", "2"),
        ("FiElD3__FIELD2__NoTeMpTy", "3"),
        ("FiElD3__FiElD3", "4"),
    ];

    config.case_sensitive(true);
    assert_eq!(root(&config, &vars).unwrap(), expected);

    config.case_sensitive(false);
    assert_eq!(root(&config, &vars).unwrap(), expected);

    let vars = [
        ("FIELD1", "1"),
        ("FIELD2", "ALSO_EMPTY"),
        ("FIELD3__FIELD1", "2"),
        ("FIELD3__FIELD2__NOTEMPTY", "3"),
        ("FIELD3__FIELD3", "4"),
    ];

    assert_eq!(root(&config, &vars).unwrap(), expected);

    config.case_sensitive(true);
    assert!(root(&config, &vars).is_err());

    let vars = [
        ("field1", "1"),
        ("field2", "ALSO_EMPTY"),
        ("field3__field1", "2"),
        ("field3__field2__notempty", "3"),
        ("field3__field3", "4"),
    ];

    assert!(root(&config, &vars).is_err());

    config.case_sensitive(false);
    assert_eq!(root(&config, &vars).unwrap(), expected);
}

#[derive(Debug, PartialEq)]
enum Material {
    Wood { kind: String },
    Plastic(f32),
    Unknown,
}

fn material(p: Parser) -> Result<Material, String> {
    match p.into_enum(&["Wood", "Plastic", "Unknown"]) {
        EnumShape::Unit(name) => match name.as_str() {
            "Unknown" => Ok(Material::Unknown),
            other => Err(format!("unknown variant {}", other)),
        },
        EnumShape::Payload(mut v) => {
            if v.is_empty() {
                return Err(String::from("no variant"));
            }
            let (name, body) = v.remove(0);
            match name.as_str() {
                "Wood" => {
                    let mut e = strukt(body, &["kind"])?;
                    let kind = field(&mut e, "kind")?
                        .into_scalar()
                        .map_err(|e| format!("{:?}", e))?;
                    Ok(Material::Wood { kind })
                }
                "Plastic" => Ok(Material::Plastic(number(body)?)),
                other => Err(format!("unknown variant {}", other)),
            }
        }
    }
}

fn doors(config: &Config, vars: &[(&str, &str)]) -> Result<Vec<Material>, String> {
    let p = config.build_parser(pairs(vars)).map_err(|e| format!("{:?}", e))?;
    let mut top = strukt(p, &["upstairs"])?;
    let mut upstairs = strukt(field(&mut top, "upstairs")?, &["doors"])?;
    let list = field(&mut upstairs, "doors")?.into_seq();
    let mut out = Vec::new();
    for door in list {
        let mut d = strukt(door, &["material"])?;
        out.push(material(field(&mut d, "material")?)?);
    }
    Ok(out)
}

#[test]
fn complex_env_parse_from_env() {
    let vars = [
        ("upstairs__doors__0__material__Wood__kind", "Mahagony"),
        ("upstairs__doors__1__material__Plastic", "25"),
        ("upstairs__doors__foo__material", "Unknown"),
    ];

    let found = doors(&Config::new(), &vars).unwrap();
    assert_eq!(
        found,
        vec![
            Material::Unknown,
            Material::Wood {
                kind: String::from("Mahagony")
            },
            Material::Plastic(25.0),
        ]
    );
}

fn door_names(config: &Config, vars: &[(&str, &str)]) -> Result<Vec<String>, String> {
    let p = config.build_parser(pairs(vars)).map_err(|e| format!("{:?}", e))?;
    let mut top = strukt(p, &["upstairs"])?;
    let mut upstairs = strukt(field(&mut top, "upstairs")?, &["doors"])?;
    let list = field(&mut upstairs, "doors")?.into_seq();
    let mut out = Vec::new();
    for door in list {
        let mut d = strukt(door, &["material"])?;
        match field(&mut d, "material")?.into_enum(&["Wood", "Plastic", "Glass"]) {
            EnumShape::Unit(name) => out.push(name),
            EnumShape::Payload(_) => return Err(String::from("expected a unit variant")),
        }
    }
    Ok(out)
}

#[test]
fn prefix_env_parse_from_env() {
    let vars = [
        ("ENVIOUS_upstairs__doors__0__material", "Wood"),
        ("ENVIOUS_upstairs__doors__2__material", "Glass"),
        ("ENVIOUS_upstairs__doors__1__material", "Plastic"),
    ];

    let mut config = Config::new();
    config.with_prefix("ENVIOUS_");
    assert_eq!(
        door_names(&config, &vars).unwrap(),
        vec!["Wood", "Plastic", "Glass"]
    );

    let mut config = Config::new();
    config.case_sensitive(false).with_prefix("envious_");
    assert_eq!(
        door_names(&config, &vars).unwrap(),
        vec!["Wood", "Plastic", "Glass"]
    );

    let mut config = Config::new();
    config.case_sensitive(true).with_prefix("envious_");
    assert!(door_names(&config, &vars).is_err());
}

#[test]
fn simple_env_parse_from_env() {
    let vars = [
        ("target_temp", "25.0"),
        ("automate_doors", "true"),
        ("staircase_orientation", "Left"),
    ];
    let config = Config::new();
    let p = config.build_parser(pairs(&vars)).unwrap();
    let mut e = strukt(
        p,
        &["target_temp", "automate_doors", "staircase_orientation"],
    )
    .unwrap();
    let temp: f32 = number(field(&mut e, "target_temp").unwrap()).unwrap();
    let doors: bool = number(field(&mut e, "automate_doors").unwrap()).unwrap();
    let orientation = match field(&mut e, "staircase_orientation")
        .unwrap()
        .into_enum(&["Left", "Right"])
    {
        EnumShape::Unit(name) => name,
        EnumShape::Payload(_) => String::new(),
    };
    assert_eq!(temp, 25.0);
    assert!(doors);
    assert_eq!(orientation, "Left");
}

#[test]
fn wrongly_nested_fields() {
    let vars = [("test", "true"), ("test__bar", "true")];
    let err = Config::new().build_parser(pairs(&vars)).err().unwrap();
    assert_eq!(
        err,
        EnvDeserializationError::InvalidEnvNesting(vec![
            String::from("test"),
            String::from("bar")
        ])
    );
}

#[test]
fn wrongly_nested_prefixed_fields() {
    let vars = [("PRE_test", "true"), ("PRE_test__bar", "true")];
    let err = Config::new().build_parser(pairs(&vars)).err().unwrap();
    assert_eq!(
        err,
        EnvDeserializationError::InvalidEnvNesting(vec![
            String::from("pre_test"),
            String::from("bar")
        ])
    );
}

#[test]
fn wrongly_nested_fields_in_reverse_order() {
    let vars = [("test__bar", "true"), ("test", "true")];
    let err = Config::new().build_parser(pairs(&vars)).err().unwrap();
    assert_eq!(
        err,
        EnvDeserializationError::InvalidEnvNesting(vec![String::from("test")])
    );
}

#[test]
fn parse_hashmap() {
    let vars = [
        ("values__0key", "first value"),
        ("values__1val", "second value"),
        ("inner__more_values__0key", "first inner value"),
    ];
    let config = Config::new();
    let p = config.build_parser(pairs(&vars)).unwrap();
    let mut outer = strukt(p, &["values", "inner"]).unwrap();
    let values: HashMap<String, String> = field(&mut outer, "values")
        .unwrap()
        .into_map()
        .unwrap()
        .into_iter()
        .map(|(k, v)| (k, v.into_scalar().unwrap()))
        .collect();
    let mut inner = strukt(field(&mut outer, "inner").unwrap(), &["more_values"]).unwrap();
    let more: HashMap<String, String> = field(&mut inner, "more_values")
        .unwrap()
        .into_map()
        .unwrap()
        .into_iter()
        .map(|(k, v)| (k, v.into_scalar().unwrap()))
        .collect();
    assert_eq!(
        values,
        HashMap::from([
            (String::from("0key"), String::from("first value")),
            (String::from("1val"), String::from("second value")),
        ])
    );
    assert_eq!(
        more,
        HashMap::from([(String::from("0key"), String::from("first inner value"))])
    );
}

#[test]
fn keys_without_the_prefix_are_dropped() {
    let mut config = Config::new();
    config.with_prefix("APP_");
    assert_eq!(config.normalize_key("APP_Port"), Some(String::from("port")));
    assert_eq!(config.normalize_key("OTHER"), None);
    config.case_sensitive(true);
    assert_eq!(config.normalize_key("APP_Port"), Some(String::from("Port")));
    assert_eq!(config.normalize_key("app_Port"), None);
}
