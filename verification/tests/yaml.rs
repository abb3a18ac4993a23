use avio23::yaml::Yaml;

fn text(s: &str) -> Yaml {
    Yaml::Text(s.to_string())
}

fn document() -> Yaml {
    Yaml::Mapping(vec![
        (text("a"), text("x")),
        (Yaml::Number("1".to_string()), text("number key")),
        (text("b"), Yaml::Sequence(vec![Yaml::Number("1".to_string()), text("y")])),
        (
            text("c"),
            Yaml::Tagged("!Tag".to_string(), Box::new(Yaml::Mapping(vec![(text("d"), text("z"))]))),
        ),
        (text("e"), Yaml::Tagged("!t".to_string(), Box::new(text("tagged text")))),
        (text("f"), Yaml::Null),
        (text("g"), Yaml::Bool(true)),
    ])
}

#[test]
fn lookups_by_text_key() {
    let doc = document();
    assert_eq!(doc.get("a").and_then(|v| v.as_str()), Some("x"));
    assert!(doc.get("1").is_none());
    assert!(doc.get("missing").is_none());
    assert!(matches!(doc.get("f"), Some(Yaml::Null)));
    assert!(matches!(doc.get("g"), Some(Yaml::Bool(true))));
}

#[test]
fn sequences_and_strings() {
    let doc = document();
    let b = doc.get("b").and_then(|v| v.as_sequence()).expect("a sequence");
    assert_eq!(b.len(), 2);
    assert!(b[0].as_str().is_none());
    assert_eq!(b[1].as_str(), Some("y"));
    assert!(doc.get("a").and_then(|v| v.as_sequence()).is_none());
    assert!(doc.as_str().is_none());
    assert!(doc.as_sequence().is_none());
}

#[test]
fn tags_are_looked_through() {
    let doc = document();
    let c = doc.get("c").expect("c");
    assert!(matches!(c, Yaml::Tagged(_, _)));
    assert!(matches!(c.untag(), Yaml::Mapping(_)));
    assert_eq!(c.get("d").and_then(|v| v.as_str()), Some("z"));
    assert_eq!(doc.get("e").and_then(|v| v.as_str()), Some("tagged text"));
    let wrapped = Yaml::Tagged("!outer".to_string(), Box::new(document()));
    assert_eq!(wrapped.get("a").and_then(|v| v.as_str()), Some("x"));
    assert!(text("a").get("a").is_none());
}
