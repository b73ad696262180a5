use morbitgen::{Attribute, Attributes, Chance, Generator, Requirement};

fn requirement(text: &str) -> Requirement {
    text.parse().unwrap()
}

fn option() -> Attribute {
    Attribute::default()
}

fn gated(text: &str) -> Attribute {
    Attribute { requires: vec![requirement(text)], ..Attribute::default() }
}

fn with_chance(chance: Chance) -> Attribute {
    Attribute { chance: Some(chance), ..Attribute::default() }
}

fn choice(options: Vec<(&str, Attribute)>) -> Generator {
    let mut map = Attributes::new();
    for (name, attribute) in options {
        map.insert(name.to_string(), attribute);
    }
    Generator::Choose(map)
}

fn attribute(generator: Generator) -> Attribute {
    Attribute { generator, ..Attribute::default() }
}

fn names(generator: &Generator) -> Vec<String> {
    match generator {
        Generator::Choose(options) => (0..options.len()).map(|i| options.name_at(i).clone()).collect(),
        _ => panic!("not a choice"),
    }
}

fn texts(list: &[Requirement]) -> Vec<String> {
    list.iter().map(|r| r.to_string()).collect()
}

fn get<'a>(generator: &'a Generator, name: &str) -> &'a Attribute {
    match generator {
        Generator::Choose(options) => options.get(name).unwrap(),
        _ => panic!("not a choice"),
    }
}

#[test]
fn attributes_are_held_in_the_order_of_their_names() {
    let mut map = Attributes::new();
    map.insert("pear".to_string(), option());
    map.insert("apple".to_string(), option());
    map.insert("zebra".to_string(), option());
    map.insert("apples".to_string(), option());
    map.insert("Zebra".to_string(), option());
    map.insert("".to_string(), option());
    let listed: Vec<String> = (0..map.len()).map(|i| map.name_at(i).clone()).collect();
    assert_eq!(listed, vec!["", "Zebra", "apple", "apples", "pear", "zebra"]);
}

#[test]
fn inserting_a_name_again_replaces_its_attribute() {
    let mut map = Attributes::new();
    map.insert("a".to_string(), option());
    map.insert("b".to_string(), option());
    map.insert("a".to_string(), with_chance(Chance::Rare));
    assert_eq!(map.len(), 2);
    assert_eq!(map.get("a").unwrap().chance, Some(Chance::Rare));
    assert_eq!(map.position("b"), Some(1));
    assert!(map.contains_key("a"));
    assert!(!map.contains_key("c"));
    assert!(map.get("c").is_none());
}

#[test]
fn free_name_is_the_first_unused_synthetic_name() {
    let mut map = Attributes::new();
    assert_eq!(map.free_name(), "gen0");
    map.insert("gen0".to_string(), option());
    assert_eq!(map.free_name(), "gen1");
    map.insert("gen2".to_string(), option());
    assert_eq!(map.free_name(), "gen1");
    map.insert("gen1".to_string(), option());
    assert_eq!(map.free_name(), "gen3");
}

#[test]
fn synthetic_names_count_in_decimal() {
    assert_eq!(morbitgen::attribute::synthetic_name_of(0), "gen0");
    assert_eq!(morbitgen::attribute::synthetic_name_of(9), "gen9");
    assert_eq!(morbitgen::attribute::synthetic_name_of(10), "gen10");
    assert_eq!(morbitgen::attribute::synthetic_name_of(1205), "gen1205");
}

#[test]
fn merge_into_a_child_that_replaces_changes_nothing() {
    let mut child = Attribute {
        generator: choice(vec![("a", option())]),
        replace: true,
        chance: Some(Chance::Rare),
        requires: vec![requirement("x:1")],
    };
    let parent = Attribute {
        generator: choice(vec![("b", option())]),
        replace: false,
        chance: None,
        requires: vec![requirement("y:2")],
    };
    child.add_assign(parent);
    assert!(child.replace);
    assert_eq!(child.chance, Some(Chance::Rare));
    assert_eq!(texts(&child.requires), vec!["x:1"]);
    assert_eq!(names(&child.generator), vec!["a"]);
}

#[test]
fn merge_appends_the_requirements_of_the_parent() {
    let mut child = gated("x:1");
    child.add_assign(gated("y:2|z:3"));
    assert_eq!(texts(&child.requires), vec!["x:1", "y:2|z:3"]);
    assert!(matches!(child.generator, Generator::Nothing));
}

#[test]
fn merge_of_two_choices_unites_the_options() {
    let mut child = Attribute {
        generator: choice(vec![
            ("both", gated("c:1")),
            ("kept", Attribute { replace: true, ..gated("c:2") }),
            ("own", option()),
        ]),
        chance: Some(Chance::Rare),
        ..Attribute::default()
    };
    let parent = attribute(choice(vec![
        ("both", gated("p:1")),
        ("kept", gated("p:2")),
        ("added", Attribute { chance: Some(Chance::Common), ..gated("p:3") }),
    ]));
    child.add_assign(parent);
    assert_eq!(names(&child.generator), vec!["added", "both", "kept", "own"]);
    assert_eq!(texts(&get(&child.generator, "both").requires), vec!["c:1", "p:1"]);
    assert_eq!(texts(&get(&child.generator, "kept").requires), vec!["c:2"]);
    assert_eq!(texts(&get(&child.generator, "added").requires), vec!["p:3"]);
    assert_eq!(get(&child.generator, "added").chance, Some(Chance::Rare));
    assert_eq!(get(&child.generator, "own").chance, None);
}

#[test]
fn merge_of_two_choices_keeps_the_chance_of_an_option_where_the_child_has_none() {
    let mut child = attribute(choice(vec![("own", option())]));
    let parent = attribute(choice(vec![("added", with_chance(Chance::Common))]));
    child.add_assign(parent);
    assert_eq!(get(&child.generator, "added").chance, Some(Chance::Common));
}

#[test]
fn merge_of_a_choice_with_another_generator_files_it_under_a_free_name() {
    let mut child = Attribute {
        generator: choice(vec![("gen0", option()), ("x", option())]),
        chance: Some(Chance::Uncommon),
        ..Attribute::default()
    };
    child.add_assign(attribute(Generator::Reuse("other".to_string())));
    assert_eq!(names(&child.generator), vec!["gen0", "gen1", "x"]);
    let filed = get(&child.generator, "gen1");
    assert!(matches!(&filed.generator, Generator::Reuse(name) if name == "other"));
    assert_eq!(filed.chance, Some(Chance::Uncommon));
    assert!(!filed.replace);
    assert!(filed.requires.is_empty());
}

#[test]
fn merge_of_a_choice_with_nothing_files_nothing_too() {
    let mut child = attribute(choice(vec![("x", option())]));
    child.add_assign(option());
    assert_eq!(names(&child.generator), vec!["gen0", "x"]);
    assert!(matches!(get(&child.generator, "gen0").generator, Generator::Nothing));
}

#[test]
fn merge_of_nothing_with_nothing_stays_nothing() {
    let mut child = option();
    child.add_assign(option());
    assert!(matches!(child.generator, Generator::Nothing));
}

#[test]
fn merge_of_other_generators_wraps_both_in_a_choice() {
    let mut child = Attribute {
        generator: Generator::Reuse("a".to_string()),
        chance: Some(Chance::Rare),
        ..Attribute::default()
    };
    child.add_assign(attribute(Generator::Same("b".to_string())));
    assert_eq!(names(&child.generator), vec!["gen0", "gen1"]);
    let own = get(&child.generator, "gen0");
    assert!(matches!(&own.generator, Generator::Reuse(name) if name == "a"));
    assert_eq!(own.chance, None);
    let inherited = get(&child.generator, "gen1");
    assert!(matches!(&inherited.generator, Generator::Same(name) if name == "b"));
    assert_eq!(inherited.chance, Some(Chance::Rare));
    assert_eq!(child.chance, Some(Chance::Rare));
}

#[test]
fn merge_of_nothing_with_a_choice_wraps_both() {
    let mut child = option();
    child.add_assign(attribute(choice(vec![("x", option())])));
    assert_eq!(names(&child.generator), vec!["gen0", "gen1"]);
    assert!(matches!(get(&child.generator, "gen0").generator, Generator::Nothing));
    assert_eq!(names(&get(&child.generator, "gen1").generator), vec!["x"]);
}

#[test]
fn clone_copies_the_whole_tree() {
    let whole = Attribute {
        generator: choice(vec![("a", gated("x:1")), ("b", attribute(choice(vec![("c", option())])))]),
        replace: true,
        chance: Some(Chance::Common),
        requires: vec![requirement("y")],
    };
    let copy = whole.clone();
    assert_eq!(format!("{:?}", copy), format!("{:?}", whole));
}

fn world() -> Attributes {
    let mut map = Attributes::new();
    map.insert(
        "flavor".to_string(),
        attribute(choice(vec![("normal", option()), ("spicy", gated("heat:yes"))])),
    );
    map.insert(
        "color".to_string(),
        attribute(choice(vec![
            ("warm", attribute(choice(vec![("red", option()), ("orange", option())]))),
            ("cold", Attribute { requires: vec![requirement("mood:calm")], ..attribute(choice(vec![("blue", option())])) }),
        ])),
    );
    map.insert("taste".to_string(), attribute(Generator::Reuse("flavor".to_string())));
    map.insert("echo".to_string(), attribute(Generator::Same("flavor".to_string())));
    map.insert("only".to_string(), attribute(choice(vec![("one", option())])));
    map.insert(
        "sure".to_string(),
        attribute(choice(vec![("yes", with_chance(Chance::Always)), ("no", option())])),
    );
    map.insert("loop a".to_string(), attribute(Generator::Reuse("loop b".to_string())));
    map.insert("loop b".to_string(), attribute(Generator::Reuse("loop a".to_string())));
    map
}

#[test]
fn contains_finds_options_and_nested_options() {
    let map = world();
    let flavor = &map.get("flavor").unwrap().generator;
    assert!(flavor.contains("normal", &map));
    assert!(flavor.contains("spicy", &map));
    assert!(!flavor.contains("sweet", &map));
    let color = &map.get("color").unwrap().generator;
    assert!(color.contains("red", &map));
    assert!(color.contains("blue", &map));
    assert!(!color.contains("green", &map));
    assert!(!color.contains("warm", &map));
}

#[test]
fn contains_follows_names() {
    let map = world();
    assert!(map.get("taste").unwrap().generator.contains("spicy", &map));
    assert!(map.get("echo").unwrap().generator.contains("normal", &map));
    assert!(!map.get("taste").unwrap().generator.contains("red", &map));
    assert!(!Generator::Reuse("missing".to_string()).contains("x", &map));
    assert!(!Generator::Nothing.contains("x", &map));
}

#[test]
fn questions_end_on_names_that_form_a_cycle() {
    let map = world();
    let looping = &map.get("loop a").unwrap().generator;
    assert!(!looping.contains("x", &map));
    assert!(!looping.always("x", &map));
    assert!(looping.get_requirements("x", &map).is_empty());
}

#[test]
fn always_holds_of_sole_and_certain_options() {
    let map = world();
    assert!(map.get("only").unwrap().generator.always("one", &map));
    assert!(map.get("sure").unwrap().generator.always("yes", &map));
    assert!(!map.get("sure").unwrap().generator.always("no", &map));
    assert!(!map.get("flavor").unwrap().generator.always("normal", &map));
    assert!(!map.get("color").unwrap().generator.always("red", &map));
    assert!(Generator::Same("anything".to_string()).always("x", &map));
    assert!(!Generator::Nothing.always("x", &map));
    assert!(!map.get("taste").unwrap().generator.always("normal", &map));
    assert!(Generator::Reuse("only".to_string()).always("one", &map));
}

#[test]
fn always_goes_through_a_sole_option_that_holds_the_value() {
    let map = world();
    let nested = choice(vec![("group", attribute(choice(vec![("deep", option())])))]);
    assert!(nested.always("deep", &map));
    let open = choice(vec![
        ("group", attribute(choice(vec![("deep", option())]))),
        ("other", option()),
    ]);
    assert!(!open.always("deep", &map));
}

#[test]
fn requirements_of_a_value_are_those_of_its_option() {
    let map = world();
    let flavor = map.get("flavor").unwrap();
    assert_eq!(texts(&flavor.generator.get_requirements("spicy", &map)), vec!["heat:yes"]);
    assert!(flavor.generator.get_requirements("normal", &map).is_empty());
    assert!(flavor.generator.get_requirements("sweet", &map).is_empty());
    let color = map.get("color").unwrap();
    assert_eq!(texts(&color.generator.get_requirements("blue", &map)), vec!["mood:calm"]);
    assert!(color.generator.get_requirements("red", &map).is_empty());
}

#[test]
fn requirements_of_a_value_follow_names() {
    let map = world();
    assert_eq!(
        texts(&map.get("taste").unwrap().generator.get_requirements("spicy", &map)),
        vec!["heat:yes"]
    );
    assert_eq!(
        texts(&map.get("echo").unwrap().generator.get_requirements("spicy", &map)),
        vec!["flavor:spicy"]
    );
    assert!(Generator::Nothing.get_requirements("x", &map).is_empty());
}

#[test]
fn requirements_of_an_attribute_come_before_those_of_its_generator() {
    let map = world();
    let gate = Attribute {
        generator: Generator::Same("flavor".to_string()),
        requires: vec![requirement("a:1"), requirement("b:2")],
        ..Attribute::default()
    };
    assert_eq!(texts(&gate.get_requirements("v", &map)), vec!["a:1", "b:2", "flavor:v"]);
}

#[test]
fn merge_is_also_written_with_the_operator() {
    let mut child = gated("x:1");
    child += attribute(Generator::Reuse("a".to_string()));
    assert_eq!(texts(&child.requires), vec!["x:1"]);
    assert_eq!(names(&child.generator), vec!["gen0", "gen1"]);
}

fn chain() -> Attributes {
    let mut map = Attributes::new();
    map.insert("a".to_string(), attribute(Generator::Reuse("b".to_string())));
    map.insert("b".to_string(), attribute(Generator::Reuse("c".to_string())));
    map.insert("c".to_string(), attribute(choice(vec![("x", gated("k:v"))])));
    map
}

#[test]
fn questions_follow_no_more_names_than_the_budget() {
    let map = chain();
    let a = &map.get("a").unwrap().generator;
    assert!(!a.contains_within("x", &map, 0));
    assert!(!a.contains_within("x", &map, 1));
    assert!(a.contains_within("x", &map, 2));
    assert!(a.contains("x", &map));
    assert!(!a.always_within("x", &map, 1));
    assert!(a.always_within("x", &map, 2));
    assert!(a.always("x", &map));
    assert!(a.get_requirements_within("x", &map, 1).is_empty());
    assert_eq!(texts(&a.get_requirements_within("x", &map, 2)), vec!["k:v"]);
    assert_eq!(texts(&a.get_requirements("x", &map)), vec!["k:v"]);
    let gate = Attribute { requires: vec![requirement("own")], ..attribute(Generator::Reuse("c".to_string())) };
    assert_eq!(texts(&gate.get_requirements_within("x", &map, 0)), vec!["own:*"]);
    assert_eq!(texts(&gate.get_requirements_within("x", &map, 1)), vec!["own:*", "k:v"]);
}
