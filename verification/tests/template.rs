use bingo_gen::{BingoError, Goal, Template};

fn goal(name: &str, types: &[&str]) -> Goal {
    Goal { name: name.to_string(), types: types.iter().map(|t| t.to_string()).collect() }
}

#[test]
fn to_json() {
    let template = Template(vec![vec![goal("Red Coin Star in WF", &["WF"])]]);
    assert_eq!(
        r#"[[{"name":"Red Coin Star in WF","types":["WF"]}]]"#,
        template.to_json_string()
    );
}

#[test]
fn from_json() {
    let text = r#"[
        [ {"name": "Red Coin Star in WF", "types": ["WF"]},
          {"name": "Slide \"fast\"", "types": []} ],
        [],
        [ {"name": "Back\\slash", "types": ["A", "B"]} ]
    ]"#;
    let t = Template::from_json_str(text).unwrap();
    assert_eq!(t.0.len(), 3);
    assert_eq!(t.0[0].len(), 2);
    assert_eq!(t.0[0][0].name, "Red Coin Star in WF");
    assert_eq!(t.0[0][0].types, vec!["WF".to_string()]);
    assert_eq!(t.0[0][1].name, "Slide \"fast\"");
    assert!(t.0[0][1].types.is_empty());
    assert_eq!(t.0[1].len(), 0);
    assert_eq!(t.0[2][0].name, "Back\\slash");
    assert_eq!(t.0[2][0].types, vec!["A".to_string(), "B".to_string()]);
}

#[test]
fn from_json_rejects_malformed() {
    assert_eq!(Template::from_json_str("").unwrap_err(), BingoError::MalformedCatalog);
    assert_eq!(Template::from_json_str("{}").unwrap_err(), BingoError::MalformedCatalog);
    assert_eq!(Template::from_json_str("[[").unwrap_err(), BingoError::MalformedCatalog);
    assert_eq!(
        Template::from_json_str(r#"[[{"types":[],"name":"x"}]]"#).unwrap_err(),
        BingoError::MalformedCatalog
    );
    assert_eq!(Template::from_json_str("[] trailing").unwrap_err(), BingoError::MalformedCatalog);
}

#[test]
fn catalog_round_trip() {
    let template = Template(vec![
        vec![goal("plain name", &["a", "b", "c"]), goal("quote \" and slash \\", &[])],
        vec![],
        vec![goal("tabs\tand\nnewlines", &["x"])],
    ]);
    let text = template.to_json_string();
    let back = Template::from_json_str(&text).unwrap();
    assert_eq!(back, template);
}

#[test]
fn pretty_round_trip_and_shape() {
    let template = Template(vec![vec![goal("Red Coin Star in WF", &["WF"])]]);
    let pretty = template.to_json_string_pretty();
    let expected = "[\n  [\n    {\n      \"name\": \"Red Coin Star in WF\",\n      \"types\": [\n        \"WF\"\n      ]\n    }\n  ]\n]";
    assert_eq!(pretty, expected);
    let back = Template::from_json_str(&pretty).unwrap();
    assert_eq!(back, template);
}

#[test]
fn validate_checks_names() {
    let good = Template(vec![vec![goal("x", &[])]]);
    assert!(good.validate());
    let bad = Template(vec![vec![goal("", &[])]]);
    assert!(!bad.validate());
}
