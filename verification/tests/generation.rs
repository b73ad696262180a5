use morbitgen::generate::{candidates_of, pick_option};
use morbitgen::resolve::{add_requirements_with, deny_value, force_with};
use morbitgen::{
    add_requirements, Attribute, Attributes, Chance, Denied, Dict, Generated, Generator, Picker,
    Requirement, Template,
};

fn requirement(text: &str) -> Requirement {
    text.parse().unwrap()
}

fn option() -> Attribute {
    Attribute::default()
}

fn gated(text: &str) -> Attribute {
    Attribute { requires: vec![requirement(text)], ..Attribute::default() }
}

fn with_chance(chance: Chance) -> Attribute {
    Attribute { chance: Some(chance), ..Attribute::default() }
}

fn options(list: Vec<(&str, Attribute)>) -> Attributes {
    let mut map = Attributes::new();
    for (name, attribute) in list {
        map.insert(name.to_string(), attribute);
    }
    map
}

fn choice(list: Vec<(&str, Attribute)>) -> Attribute {
    Attribute { generator: Generator::Choose(options(list)), ..Attribute::default() }
}

fn generated(pairs: &[(&str, &str)]) -> Generated {
    let mut map: Generated = Dict::new();
    for (key, value) in pairs {
        map.insert(key.to_string(), value.to_string());
    }
    map
}

fn template(order: &[&str], attributes: Attributes) -> Template {
    Template {
        order: order.iter().map(|name| name.to_string()).collect(),
        attributes,
        rename: Dict::new(),
        formatting: Dict::new(),
    }
}

fn pairs(map: &Generated) -> Vec<(String, String)> {
    let mut all: Vec<(String, String)> =
        (0..map.len()).map(|i| (map.name_at(i).clone(), map.value_at(i).clone())).collect();
    all.sort();
    all
}

fn pair(key: &str, value: &str) -> (String, String) {
    (key.to_string(), value.to_string())
}

fn flavors() -> Attributes {
    options(vec![(
        "flavor",
        choice(vec![("normal", with_chance(Chance::Standard)), ("spicy", with_chance(Chance::Rare))]),
    )])
}

#[test]
fn preset_fixes_the_value_whatever_the_weights() {
    let t = template(&["flavor"], flavors());
    for _ in 0..50 {
        let g = t.generate(vec![requirement("flavor:normal")]);
        assert_eq!(pairs(&g), vec![pair("flavor", "normal")]);
    }
    for _ in 0..50 {
        let g = t.generate(vec![requirement("flavor:spicy")]);
        assert_eq!(pairs(&g), vec![pair("flavor", "spicy")]);
    }
}

#[test]
fn same_copies_the_value_generated_before() {
    let mut attributes = flavors();
    attributes.insert(
        "flavor_copy".to_string(),
        Attribute { generator: Generator::Same("flavor".to_string()), ..Attribute::default() },
    );
    let t = template(&["flavor", "flavor_copy"], attributes);
    let mut seen_normal = false;
    let mut seen_spicy = false;
    for _ in 0..200 {
        let g = t.generate(vec![]);
        let flavor = g.get("flavor").unwrap();
        assert!(flavor == "normal" || flavor == "spicy");
        assert_eq!(g.get("flavor_copy"), Some(flavor));
        seen_normal |= flavor == "normal";
        seen_spicy |= flavor == "spicy";
    }
    assert!(seen_normal);
    assert!(seen_spicy);
}

#[test]
fn same_before_its_target_generates_nothing() {
    let mut attributes = flavors();
    attributes.insert(
        "flavor_copy".to_string(),
        Attribute { generator: Generator::Same("flavor".to_string()), ..Attribute::default() },
    );
    let t = template(&["flavor_copy", "flavor"], attributes);
    let g = t.generate_with(vec![], &mut Picker::scripted(vec![1, 0]));
    assert_eq!(pairs(&g), vec![pair("flavor", "normal")]);
}

#[test]
fn scripted_numbers_pick_the_tier_and_the_option() {
    let t = template(&["flavor"], flavors());
    let spicy = t.generate_with(vec![], &mut Picker::scripted(vec![0, 0]));
    assert_eq!(pairs(&spicy), vec![pair("flavor", "spicy")]);
    let normal = t.generate_with(vec![], &mut Picker::scripted(vec![1, 0]));
    assert_eq!(pairs(&normal), vec![pair("flavor", "normal")]);
    let wrapped = t.generate_with(vec![], &mut Picker::scripted(vec![7, 3]));
    assert_eq!(pairs(&wrapped), vec![pair("flavor", "normal")]);
    let exhausted = t.generate_with(vec![], &mut Picker::scripted(vec![]));
    assert_eq!(pairs(&exhausted), vec![pair("flavor", "spicy")]);
}

#[test]
fn the_same_numbers_give_the_same_run() {
    let mut attributes = flavors();
    attributes.insert(
        "size".to_string(),
        choice(vec![("big", option()), ("small", option()), ("tiny", gated("flavor:spicy"))]),
    );
    let t = template(&["flavor", "size"], attributes);
    for script in [vec![0, 0, 0, 2], vec![1, 0, 0, 1], vec![5, 4, 3, 2, 1], vec![]] {
        let first = t.generate_with(vec![requirement("size:big|size:small")], &mut Picker::scripted(script.clone()));
        let second = t.generate_with(vec![requirement("size:big|size:small")], &mut Picker::scripted(script));
        assert_eq!(pairs(&first), pairs(&second));
    }
}

#[test]
fn generating_again_leaves_a_generated_value_alone() {
    let attributes = flavors();
    let flavor = attributes.get("flavor").unwrap();
    let mut g = generated(&[("flavor", "spicy")]);
    let mut d: Denied = Dict::new();
    for _ in 0..50 {
        flavor.generator.generate("flavor", &mut g, &mut d, &attributes);
        flavor.generate("flavor", &mut g, &mut d, &attributes);
    }
    assert_eq!(pairs(&g), vec![pair("flavor", "spicy")]);
    let mut fresh = generated(&[]);
    flavor.generator.generate("flavor", &mut fresh, &mut d, &attributes);
    let first = fresh.get("flavor").unwrap().clone();
    for _ in 0..50 {
        flavor.generator.generate("flavor", &mut fresh, &mut d, &attributes);
        assert_eq!(fresh.get("flavor"), Some(&first));
    }
}

#[test]
fn always_is_taken_and_never_is_left_out() {
    let attributes = options(vec![
        (
            "sure",
            choice(vec![
                ("a", with_chance(Chance::ExtremelyCommon)),
                ("b", with_chance(Chance::Always)),
                ("c", with_chance(Chance::Always)),
            ]),
        ),
        ("rest", choice(vec![("x", with_chance(Chance::Never)), ("y", with_chance(Chance::ExtremelyRare))])),
        ("none", choice(vec![("x", with_chance(Chance::Never))])),
    ]);
    let t = template(&["sure", "rest", "none"], attributes);
    for _ in 0..50 {
        let g = t.generate(vec![]);
        assert_eq!(pairs(&g), vec![pair("rest", "y"), pair("sure", "b")]);
    }
}

#[test]
fn candidates_are_sorted_into_tiers() {
    let list = options(vec![
        ("a", with_chance(Chance::Rare)),
        ("b", option()),
        ("c", with_chance(Chance::Never)),
        ("d", with_chance(Chance::Rare)),
        ("e", gated("heat:yes")),
        ("f", with_chance(Chance::ExtremelyCommon)),
        ("g", option()),
    ]);
    let mut d: Denied = Dict::new();
    d.insert("slot".to_string(), vec!["g".to_string()]);
    let tiers = candidates_of(&list, "slot", &generated(&[]), &d);
    let expected: Vec<Vec<&str>> =
        vec![vec![], vec![], vec![], vec!["a", "d"], vec![], vec!["b"], vec![], vec![], vec!["f"], vec![]];
    assert_eq!(tiers, expected);
    let warm = candidates_of(&list, "other", &generated(&[("heat", "yes")]), &d);
    assert_eq!(warm[5], vec!["b", "e", "g"]);
}

#[test]
fn candidates_with_an_always_hold_that_option_alone() {
    let list = options(vec![
        ("a", with_chance(Chance::Rare)),
        ("b", Attribute { chance: Some(Chance::Always), ..gated("heat:yes") }),
        ("c", with_chance(Chance::Always)),
        ("d", with_chance(Chance::Always)),
    ]);
    let tiers = candidates_of(&list, "slot", &generated(&[]), &Dict::new());
    let expected: Vec<Vec<&str>> =
        vec![vec![], vec![], vec![], vec![], vec![], vec!["c"], vec![], vec![], vec![], vec![]];
    assert_eq!(tiers, expected);
}

#[test]
fn picking_takes_the_tier_and_then_the_option() {
    let list = options(vec![
        ("a", with_chance(Chance::Rare)),
        ("b", option()),
        ("d", with_chance(Chance::Rare)),
        ("f", with_chance(Chance::ExtremelyCommon)),
    ]);
    let tiers = candidates_of(&list, "slot", &generated(&[]), &Dict::new());
    assert_eq!(pick_option(&tiers, &mut Picker::scripted(vec![0, 1])), Some("d".to_string()));
    assert_eq!(pick_option(&tiers, &mut Picker::scripted(vec![0, 2])), Some("a".to_string()));
    assert_eq!(pick_option(&tiers, &mut Picker::scripted(vec![1, 5])), Some("b".to_string()));
    assert_eq!(pick_option(&tiers, &mut Picker::scripted(vec![2])), Some("f".to_string()));
    assert_eq!(pick_option(&tiers, &mut Picker::scripted(vec![3, 0])), Some("a".to_string()));
    let none = candidates_of(&options(vec![]), "slot", &generated(&[]), &Dict::new());
    assert_eq!(pick_option(&none, &mut Picker::scripted(vec![1, 1])), None);
}

#[test]
fn picking_at_random_takes_every_option_in_time() {
    let list = options(vec![
        ("a", with_chance(Chance::ExtremelyCommon)),
        ("b", with_chance(Chance::ExtremelyCommon)),
        ("c", with_chance(Chance::VeryCommon)),
    ]);
    let tiers = candidates_of(&list, "slot", &generated(&[]), &Dict::new());
    let mut picker = Picker::random();
    let mut seen = [false; 3];
    for _ in 0..2000 {
        match pick_option(&tiers, &mut picker).unwrap().as_str() {
            "a" => seen[0] = true,
            "b" => seen[1] = true,
            "c" => seen[2] = true,
            other => panic!("unexpected option {}", other),
        }
    }
    assert_eq!(seen, [true, true, true]);
}

#[test]
fn random_positions_lie_in_range_and_vary() {
    let mut picker = Picker::random();
    let mut nonzero = false;
    for _ in 0..200 {
        let i = picker.below(1000);
        assert!(i < 1000);
        nonzero |= i != 0;
        assert_eq!(picker.below(1), 0);
    }
    assert!(nonzero);
    let weights = vec![1, 0, 1000];
    let mut heavy = false;
    for _ in 0..200 {
        let i = picker.weighted(&weights);
        assert!(i == 0 || i == 2);
        heavy |= i == 2;
    }
    assert!(heavy);
}

#[test]
fn scripted_positions_follow_the_script_and_then_zero() {
    let mut picker = Picker::scripted(vec![4, 9, 2]);
    assert_eq!(picker.below(3), 1);
    assert_eq!(picker.weighted(&vec![5, 5, 5, 5]), 1);
    assert_eq!(picker.below(10), 2);
    assert_eq!(picker.below(10), 0);
    assert_eq!(picker.weighted(&vec![1, 2]), 0);
}

#[test]
fn options_whose_requirements_fail_are_not_taken() {
    let attributes = options(vec![
        ("heat", choice(vec![("no", option())])),
        ("flavor", choice(vec![("normal", option()), ("spicy", gated("heat:yes"))])),
    ]);
    let t = template(&["heat", "flavor"], attributes);
    for _ in 0..50 {
        let g = t.generate(vec![]);
        assert_eq!(pairs(&g), vec![pair("flavor", "normal"), pair("heat", "no")]);
    }
}

#[test]
fn denied_options_are_not_taken() {
    let t = template(&["flavor"], flavors());
    for _ in 0..50 {
        let g = t.generate(vec![requirement("!flavor:normal")]);
        assert_eq!(pairs(&g), vec![pair("flavor", "spicy")]);
    }
}

#[test]
fn choice_without_options_left_generates_nothing() {
    let t = template(&["flavor"], flavors());
    let g = t.generate(vec![requirement("!flavor:normal"), requirement("!flavor:spicy")]);
    assert_eq!(pairs(&g), vec![]);
}

#[test]
fn attribute_whose_requirements_fail_generates_nothing() {
    let attributes = options(vec![(
        "flavor",
        Attribute {
            requires: vec![requirement("heat:yes"), requirement("!size")],
            ..choice(vec![("normal", option())])
        },
    )]);
    let flavor = attributes.get("flavor").unwrap();
    let mut d: Denied = Dict::new();
    let mut cold = generated(&[("heat", "no")]);
    flavor.generate("flavor", &mut cold, &mut d, &attributes);
    assert_eq!(pairs(&cold), vec![pair("heat", "no")]);
    let mut sized = generated(&[("heat", "yes"), ("size", "big")]);
    flavor.generate("flavor", &mut sized, &mut d, &attributes);
    assert_eq!(sized.get("flavor"), None);
    let mut warm = generated(&[("heat", "yes")]);
    flavor.generate("flavor", &mut warm, &mut d, &attributes);
    assert_eq!(pairs(&warm), vec![pair("flavor", "normal"), pair("heat", "yes")]);
    assert_eq!(d.len(), 0);
}

#[test]
fn nested_option_generates_in_its_turn() {
    let attributes = options(vec![(
        "color",
        choice(vec![("warm", choice(vec![("red", option())]))]),
    )]);
    let t = template(&["color"], attributes);
    let g = t.generate(vec![]);
    assert_eq!(pairs(&g), vec![pair("color", "red")]);
}

#[test]
fn reuse_generates_as_the_named_attribute() {
    let attributes = options(vec![
        ("flavor", choice(vec![("normal", option())])),
        ("taste", Attribute { generator: Generator::Reuse("flavor".to_string()), ..Attribute::default() }),
        ("lost", Attribute { generator: Generator::Reuse("missing".to_string()), ..Attribute::default() }),
        ("loop", Attribute { generator: Generator::Reuse("loop".to_string()), ..Attribute::default() }),
    ]);
    let t = template(&["taste", "lost", "loop", "unknown"], attributes);
    let g = t.generate(vec![]);
    assert_eq!(pairs(&g), vec![pair("taste", "normal")]);
}

#[test]
fn order_is_walked_through_the_renames() {
    let mut t = template(&["taste", "flavor"], flavors());
    t.rename.insert("taste".to_string(), "flavor".to_string());
    let g = t.generate_with(vec![], &mut Picker::scripted(vec![1, 0, 0, 0]));
    assert_eq!(pairs(&g), vec![pair("flavor", "normal")]);
}

#[test]
fn presets_bring_in_the_requirements_of_their_values() {
    let attributes = options(vec![
        ("heat", choice(vec![("no", option()), ("yes", option())])),
        ("flavor", choice(vec![("normal", option()), ("spicy", gated("heat:yes"))])),
        ("echo", Attribute { generator: Generator::Same("heat".to_string()), ..Attribute::default() }),
    ]);
    let t = template(&["heat", "flavor"], attributes);
    for _ in 0..20 {
        let g = t.generate(vec![requirement("flavor:spicy")]);
        assert_eq!(pairs(&g), vec![pair("flavor", "spicy"), pair("heat", "yes")]);
    }
    let g = t.generate(vec![requirement("echo:no")]);
    assert_eq!(g.get("echo"), Some(&"no".to_string()));
    assert_eq!(g.get("heat"), Some(&"no".to_string()));
}

#[test]
fn requirement_with_alternatives_waits_for_the_others() {
    let attributes = Attributes::new();
    for wanted in [vec!["x:1|x:2", "x:2"], vec!["x:2", "x:1|x:2"]] {
        let list: Vec<Requirement> = wanted.iter().map(|text| requirement(text)).collect();
        for _ in 0..20 {
            let mut g: Generated = Dict::new();
            let mut d: Denied = Dict::new();
            add_requirements(&list, &mut g, &mut d, &attributes);
            assert_eq!(pairs(&g), vec![pair("x", "2")]);
            assert_eq!(d.len(), 0);
        }
    }
}

#[test]
fn requirement_with_alternatives_is_forced_by_the_numbers() {
    let attributes = Attributes::new();
    let list = vec![requirement("x:1|x:2|x:3")];
    for (script, value) in [(vec![0], "1"), (vec![1], "2"), (vec![5], "3"), (vec![], "1")] {
        let mut g: Generated = Dict::new();
        let mut d: Denied = Dict::new();
        add_requirements_with(&list, &mut g, &mut d, &attributes, &mut Picker::scripted(script));
        assert_eq!(pairs(&g), vec![pair("x", value)]);
    }
}

#[test]
fn requirement_that_cannot_be_forced_is_dropped() {
    let attributes = Attributes::new();
    let list = vec![requirement("x:1"), requirement("x:2")];
    let mut g: Generated = Dict::new();
    let mut d: Denied = Dict::new();
    add_requirements(&list, &mut g, &mut d, &attributes);
    assert_eq!(pairs(&g), vec![pair("x", "2")]);
    assert_eq!(d.len(), 0);
}

#[test]
fn negated_requirement_denies_its_value() {
    let attributes = Attributes::new();
    let list = vec![requirement("!x"), requirement("!y:1"), requirement("!y:2"), requirement("x:2")];
    let mut g: Generated = Dict::new();
    let mut d: Denied = Dict::new();
    add_requirements(&list, &mut g, &mut d, &attributes);
    assert_eq!(pairs(&g), vec![pair("x", "2")]);
    assert_eq!(d.get("y"), Some(&vec!["2".to_string(), "1".to_string()]));
    assert_eq!(d.get("x"), Some(&vec!["*".to_string()]));
}

#[test]
fn forcing_skips_what_cannot_be_applied() {
    let g = generated(&[("x", "1"), ("y", "2")]);
    let r = requirement("x:2|!y:2|z:3|!x:1");
    let forced = force_with(&r, &g, &mut Picker::scripted(vec![0, 0, 0, 0]));
    assert_eq!(forced, Some(("z".to_string(), "3".to_string(), false)));
    let none = force_with(&requirement("x:2|!y:2"), &g, &mut Picker::scripted(vec![1, 0]));
    assert_eq!(none, None);
    let denied = force_with(&requirement("x:2|!y:3"), &g, &mut Picker::scripted(vec![1]));
    assert_eq!(denied, Some(("y".to_string(), "3".to_string(), true)));
}

#[test]
fn denying_appends_to_the_list_of_the_key() {
    let mut d: Denied = Dict::new();
    deny_value(&mut d, "a".to_string(), "1".to_string());
    deny_value(&mut d, "b".to_string(), "2".to_string());
    deny_value(&mut d, "a".to_string(), "3".to_string());
    assert_eq!(d.get("a"), Some(&vec!["1".to_string(), "3".to_string()]));
    assert_eq!(d.get("b"), Some(&vec!["2".to_string()]));
}

#[test]
fn generating_follows_no_more_names_than_the_budget() {
    let attributes = options(vec![
        ("a", Attribute { generator: Generator::Reuse("b".to_string()), ..Attribute::default() }),
        ("b", Attribute { generator: Generator::Reuse("c".to_string()), ..Attribute::default() }),
        ("c", choice(vec![("x", option())])),
    ]);
    let a = attributes.get("a").unwrap();
    let d: Denied = Dict::new();
    for (budget, expected) in [(0, vec![]), (1, vec![]), (2, vec![pair("slot", "x")]), (9, vec![pair("slot", "x")])] {
        let mut g: Generated = Dict::new();
        a.generator.generate_with("slot", &mut g, &d, &attributes, budget, &mut Picker::random());
        assert_eq!(pairs(&g), expected);
        let mut g: Generated = Dict::new();
        a.generate_with("slot", &mut g, &d, &attributes, budget, &mut Picker::scripted(vec![3, 4]));
        assert_eq!(pairs(&g), expected);
    }
}
