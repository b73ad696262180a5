use morbitgen::{Attribute, Attributes, Chance, Dict, Generated, Generator, Requirement, Template};

fn requirement(text: &str) -> Requirement {
    text.parse().unwrap()
}

fn option() -> Attribute {
    Attribute::default()
}

fn options(list: Vec<(&str, Attribute)>) -> Attributes {
    let mut map = Attributes::new();
    for (name, attribute) in list {
        map.insert(name.to_string(), attribute);
    }
    map
}

fn choice(list: Vec<(&str, Attribute)>) -> Attribute {
    Attribute { generator: Generator::Choose(options(list)), ..Attribute::default() }
}

fn table(pairs: &[(&str, &str)]) -> Dict<String> {
    let mut map: Dict<String> = Dict::new();
    for (key, value) in pairs {
        map.insert(key.to_string(), value.to_string());
    }
    map
}

fn names(attributes: &Attributes) -> Vec<String> {
    (0..attributes.len()).map(|i| attributes.name_at(i).clone()).collect()
}

fn option_names(attribute: &Attribute) -> Vec<String> {
    match &attribute.generator {
        Generator::Choose(options) => names(options),
        _ => panic!("not a choice"),
    }
}

fn parent() -> Template {
    Template {
        order: vec!["a".to_string(), "b".to_string()],
        attributes: options(vec![
            ("a", Attribute { requires: vec![requirement("p:1")], ..choice(vec![("x", option())]) }),
            ("b", Attribute { generator: Generator::Reuse("a".to_string()), ..Attribute::default() }),
            ("d", choice(vec![("z", option())])),
        ]),
        rename: table(&[("b", "wrong"), ("q", "r")]),
        formatting: table(&[("full", "parent [a]")]),
    }
}

fn child() -> Template {
    Template {
        order: vec!["c".to_string()],
        attributes: options(vec![
            ("a", Attribute { chance: Some(Chance::Rare), ..choice(vec![("y", option())]) }),
            ("c", option()),
        ]),
        rename: table(&[("b", "c")]),
        formatting: table(&[("full", "child [a]")]),
    }
}

#[test]
fn inheriting_puts_the_order_of_the_parent_first() {
    let mut t = child();
    t.inherit(&parent());
    assert_eq!(t.order, vec!["a", "b", "c"]);
}

#[test]
fn inheriting_lets_the_renames_of_the_child_override() {
    let mut t = child();
    t.inherit(&parent());
    assert_eq!(t.rename.get("b"), Some(&"c".to_string()));
    assert_eq!(t.rename.get("q"), Some(&"r".to_string()));
    assert_eq!(t.rename.len(), 2);
}

#[test]
fn inheriting_merges_and_takes_over_attributes() {
    let mut t = child();
    t.inherit(&parent());
    assert_eq!(names(&t.attributes), vec!["a", "c", "d"]);
    let a = t.attributes.get("a").unwrap();
    assert_eq!(option_names(a), vec!["x", "y"]);
    assert_eq!(a.requires.len(), 1);
    assert_eq!(a.requires[0].to_string(), "p:1");
    match &a.generator {
        Generator::Choose(options) => assert_eq!(options.get("x").unwrap().chance, Some(Chance::Rare)),
        _ => panic!("not a choice"),
    }
    let c = t.attributes.get("c").unwrap();
    assert_eq!(option_names(c), vec!["gen0", "gen1"]);
    assert_eq!(option_names(t.attributes.get("d").unwrap()), vec!["z"]);
}

#[test]
fn inheriting_keeps_the_texts_of_the_child() {
    let mut t = child();
    t.inherit(&parent());
    assert_eq!(t.formatting.get("full"), Some(&"child [a]".to_string()));
    assert_eq!(t.formatting.len(), 1);
}

#[test]
fn inheriting_leaves_the_parent_as_it_was() {
    let p = parent();
    let mut t = child();
    t.inherit(&p);
    assert_eq!(format!("{:?}", p), format!("{:?}", parent()));
}

#[test]
fn always_asks_the_generator_of_the_attribute() {
    let t = Template {
        order: vec![],
        attributes: options(vec![
            ("only", choice(vec![("one", option())])),
            ("two", choice(vec![("x", option()), ("y", option())])),
        ]),
        rename: Dict::new(),
        formatting: Dict::new(),
    };
    assert!(t.always("only", "one"));
    assert!(!t.always("only", "other"));
    assert!(!t.always("two", "x"));
    assert!(!t.always("missing", "x"));
}

fn generated(pairs: &[(&str, &str)]) -> Generated {
    table(pairs)
}

#[test]
fn format_uses_the_text_filed_under_the_name() {
    let t = child();
    let g = generated(&[("a", "y")]);
    assert_eq!(t.format(&g, "full"), Ok("child y".to_string()));
}

#[test]
fn format_takes_an_unknown_name_as_the_text() {
    let t = child();
    let g = generated(&[("a", "y")]);
    assert_eq!(t.format(&g, "Just [A] ."), Ok("Just Y.".to_string()));
}

#[test]
fn format_dumps_under_the_reserved_name() {
    let t = child();
    assert_eq!(t.format(&generated(&[]), "json"), Ok("{}".to_string()));
    let g = generated(&[("flavor", "normal"), ("head casing", "ro\"und\n")]);
    assert_eq!(
        t.format(&g, "json"),
        Ok("{\n    \"flavor\": \"normal\",\n    \"head casing\": \"ro\\\"und\\n\",\n}".to_string())
    );
}

#[test]
fn generate_passes_over_names_without_an_attribute() {
    let t = Template {
        order: vec!["ghost".to_string(), "only".to_string()],
        attributes: options(vec![("only", choice(vec![("one", option())]))]),
        rename: Dict::new(),
        formatting: Dict::new(),
    };
    let g = t.generate(vec![]);
    assert_eq!(g.len(), 1);
    assert_eq!(g.get("only"), Some(&"one".to_string()));
}
