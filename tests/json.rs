use mork_kernel::encoding::{decode, Term};
use mork_kernel::json::JsonValue;
use mork_kernel::space::Space;

fn s(x: &str) -> JsonValue {
    JsonValue::Str(x.as_bytes().to_vec())
}

fn obj(members: Vec<(&str, JsonValue)>) -> JsonValue {
    JsonValue::Object(members.into_iter().map(|(k, v)| (k.as_bytes().to_vec(), v)).collect())
}

fn num(n: u64) -> JsonValue {
    JsonValue::Number { negative: false, mantissa: n, exponent: 0 }
}

fn lines_of(space: &Space) -> std::collections::BTreeSet<String> {
    let (text, n) = space.dump_sexpr(&Term::NewVar, &Term::VarRef(0));
    assert_eq!(n, space.len());
    String::from_utf8(text).unwrap().lines().map(|l| l.to_string()).collect()
}

const SEXPRS0: &str = r#"(first_name John)
(last_name Smith)
(is_alive true)
(age 27)
(address (street_address 21 2nd Street))
(address (city New York))
(address (state NY))
(address (postal_code 10021-3100))
(phone_numbers (0 (type home)))
(phone_numbers (0 (number 212 555-1234)))
(phone_numbers (1 (type office)))
(phone_numbers (1 (number 646 555-4567)))
(children (0 Catherine))
(children (1 Thomas))
(children (2 Trevor))
(spouse null)
"#;

fn person() -> JsonValue {
    obj(vec![
        ("first_name", s("John")),
        ("last_name", s("Smith")),
        ("is_alive", JsonValue::Bool(true)),
        ("age", num(27)),
        (
            "address",
            obj(vec![
                ("street_address", s("21 2nd Street")),
                ("city", s("New York")),
                ("state", s("NY")),
                ("postal_code", s("10021-3100")),
            ]),
        ),
        (
            "phone_numbers",
            JsonValue::Array(vec![
                obj(vec![("type", s("home")), ("number", s("212 555-1234"))]),
                obj(vec![("type", s("office")), ("number", s("646 555-4567"))]),
            ]),
        ),
        ("children", JsonValue::Array(vec![s("Catherine"), s("Thomas"), s("Trevor")])),
        ("spouse", JsonValue::Null),
    ])
}

#[test]
fn parse_json() {
    let mut space = Space::new();
    assert_eq!(16, space.load_json(&person()));
    let expected: std::collections::BTreeSet<String> = SEXPRS0.lines().map(|l| l.to_string()).collect();
    assert_eq!(lines_of(&space), expected);
    assert_eq!(space.dump_sexpr(&Term::NewVar, &Term::VarRef(0)).1, 16);

    let again = Space::deserialize_paths(&space.serialize_paths().unwrap()).unwrap();
    assert_eq!(lines_of(&again), expected);
}

#[test]
fn numbers_as_mantissa_and_exponent() {
    let mut space = Space::new();
    let v = obj(vec![
        ("pos", num(42)),
        ("neg", JsonValue::Number { negative: true, mantissa: 100, exponent: 0 }),
        ("pi", JsonValue::Number { negative: false, mantissa: 31415926, exponent: -7 }),
        ("winter", JsonValue::Number { negative: true, mantissa: 205, exponent: -1 }),
        ("google", JsonValue::Number { negative: false, mantissa: 1, exponent: 100 }),
    ]);
    assert_eq!(space.load_json(&v), 5);
    let expected: std::collections::BTreeSet<String> =
        ["(pos 42)", "(neg -100)", "(pi 31415926e-7)", "(winter -205e-1)", "(google 1e100)"].iter().map(|l| l.to_string()).collect();
    assert_eq!(lines_of(&space), expected);
}

#[test]
fn empty_containers_and_flags() {
    let mut space = Space::new();
    let v = obj(vec![("a", JsonValue::Array(vec![])), ("o", obj(vec![])), ("f", JsonValue::Bool(false))]);
    assert_eq!(space.load_json(&v), 3);
    let expected: std::collections::BTreeSet<String> = ["(a [])", "(o {})", "(f false)"].iter().map(|l| l.to_string()).collect();
    assert_eq!(lines_of(&space), expected);
    assert_eq!(space.load_json(&JsonValue::Null), 1);
    assert_eq!(space.load_json(&obj(vec![("e", s(""))])), 1);
    assert!(lines_of(&space).contains("(e \"\")"));
    assert!(space.paths().iter().any(|p| decode(p) == Some(Term::Symbol(b"null".to_vec()))));
}
