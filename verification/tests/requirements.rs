use morbitgen::{meets_requirement, Chance, Denied, Dict, Generated, Requirement};

fn requirement(text: &str) -> Requirement {
    text.parse().unwrap()
}

fn triple(key: &str, value: &str, negated: bool) -> (String, String, bool) {
    (key.to_string(), value.to_string(), negated)
}

fn generated(pairs: &[(&str, &str)]) -> Generated {
    let mut map: Generated = Dict::new();
    for (key, value) in pairs {
        map.insert(key.to_string(), value.to_string());
    }
    map
}

#[test]
fn parses_key_and_value() {
    assert_eq!(requirement("flavor:normal").possibilities, vec![triple("flavor", "normal", false)]);
}

#[test]
fn parses_missing_value_as_any() {
    assert_eq!(requirement("flavor").possibilities, vec![triple("flavor", "*", false)]);
}

#[test]
fn parses_negation() {
    assert_eq!(requirement("!eye shape:no").possibilities, vec![triple("eye shape", "no", true)]);
}

#[test]
fn parses_alternatives_in_order_and_trims() {
    assert_eq!(
        requirement(" a : b | !c |d:e:f").possibilities,
        vec![triple("a", "b", false), triple("c", "*", true), triple("d", "e", false)]
    );
}

#[test]
fn parses_empty_text_as_one_empty_key() {
    assert_eq!(requirement("").possibilities, vec![triple("", "*", false)]);
}

#[test]
fn negation_is_read_after_trimming() {
    assert_eq!(requirement("  ! a:b").possibilities, vec![triple(" a", "b", true)]);
}

#[test]
fn writes_canonical_text() {
    let r = Requirement {
        possibilities: vec![triple("key", "value", false), triple("key2", "value2", true)],
    };
    assert_eq!(r.to_string(), "key:value|!key2:value2");
}

#[test]
fn writes_nothing_for_no_possibility() {
    assert_eq!(Requirement::default().to_string(), "");
}

#[test]
fn round_trips_through_text() {
    let r = Requirement {
        possibilities: vec![
            triple("head casing", "round", false),
            triple("eye shape", "*", true),
            triple("", "", false),
            triple("!odd", "x y", true),
        ],
    };
    let back = requirement(&r.to_string());
    assert_eq!(back.possibilities, r.possibilities);
}

#[test]
fn text_round_trips_through_requirement() {
    assert_eq!(requirement("a:b|!c:*").to_string(), "a:b|!c:*");
    assert_eq!(requirement("a").to_string(), "a:*");
}

#[test]
fn clone_keeps_the_possibilities() {
    let r = requirement("a:b|!c");
    assert_eq!(r.clone().possibilities, r.possibilities);
}

#[test]
fn empty_requirement_always_holds() {
    let r = Requirement::default();
    assert!(meets_requirement(&r, &generated(&[]), &Dict::new()));
}

#[test]
fn present_key_is_tested_against_its_value() {
    let g = generated(&[("flavor", "normal")]);
    let d: Denied = Dict::new();
    assert!(meets_requirement(&requirement("flavor:normal"), &g, &d));
    assert!(meets_requirement(&requirement("flavor"), &g, &d));
    assert!(!meets_requirement(&requirement("flavor:spicy"), &g, &d));
    assert!(meets_requirement(&requirement("!flavor:spicy"), &g, &d));
    assert!(!meets_requirement(&requirement("!flavor:normal"), &g, &d));
    assert!(!meets_requirement(&requirement("!flavor"), &g, &d));
}

#[test]
fn absent_key_fails_unless_negated() {
    let g = generated(&[]);
    let d: Denied = Dict::new();
    assert!(!meets_requirement(&requirement("flavor:normal"), &g, &d));
    assert!(!meets_requirement(&requirement("flavor"), &g, &d));
    assert!(meets_requirement(&requirement("!flavor"), &g, &d));
    assert!(!meets_requirement(&requirement("!flavor:spicy"), &g, &d));
}

#[test]
fn absent_key_negated_holds_once_the_value_is_denied() {
    let g = generated(&[]);
    let mut d: Denied = Dict::new();
    d.insert("flavor".to_string(), vec!["mild".to_string(), "spicy".to_string()]);
    assert!(meets_requirement(&requirement("!flavor:spicy"), &g, &d));
    assert!(!meets_requirement(&requirement("!flavor:sweet"), &g, &d));
    assert!(!meets_requirement(&requirement("flavor:spicy"), &g, &d));
}

#[test]
fn any_possibility_is_enough() {
    let g = generated(&[("flavor", "normal")]);
    let d: Denied = Dict::new();
    assert!(meets_requirement(&requirement("flavor:spicy|flavor:normal"), &g, &d));
    assert!(meets_requirement(&requirement("size:big|!heat"), &g, &d));
    assert!(!meets_requirement(&requirement("flavor:spicy|size:big"), &g, &d));
}

#[test]
fn chance_weights() {
    assert_eq!(Chance::Never.chance(), 0);
    assert_eq!(Chance::ExtremelyRare.chance(), 1);
    assert_eq!(Chance::VeryRare.chance(), 3);
    assert_eq!(Chance::Rare.chance(), 9);
    assert_eq!(Chance::Uncommon.chance(), 18);
    assert_eq!(Chance::Standard.chance(), 30);
    assert_eq!(Chance::Common.chance(), 45);
    assert_eq!(Chance::VeryCommon.chance(), 60);
    assert_eq!(Chance::ExtremelyCommon.chance(), 100);
    assert_eq!(Chance::Always.chance(), 0);
}

#[test]
fn chance_default_is_standard() {
    assert_eq!(Chance::default(), Chance::Standard);
}

#[test]
fn chance_positions_run_from_never_to_always() {
    let all = [
        Chance::Never,
        Chance::ExtremelyRare,
        Chance::VeryRare,
        Chance::Rare,
        Chance::Uncommon,
        Chance::Standard,
        Chance::Common,
        Chance::VeryCommon,
        Chance::ExtremelyCommon,
        Chance::Always,
    ];
    for (position, chance) in all.iter().enumerate() {
        assert_eq!(chance.index(), position);
        assert_eq!(Chance::of_rank(position), *chance);
    }
}

#[test]
fn dict_insert_get_and_overwrite() {
    let mut map: Generated = Dict::new();
    assert_eq!(map.len(), 0);
    assert!(map.get("a").is_none());
    map.insert("a".to_string(), "1".to_string());
    map.insert("b".to_string(), "2".to_string());
    map.insert("a".to_string(), "3".to_string());
    assert_eq!(map.len(), 2);
    assert_eq!(map.get("a"), Some(&"3".to_string()));
    assert_eq!(map.get("b"), Some(&"2".to_string()));
    assert!(map.contains_key("b"));
    assert!(!map.contains_key("c"));
    assert_eq!(map.position("b"), Some(1));
    assert_eq!(map.name_at(0), "a");
    assert_eq!(map.value_at(0), "3");
}

#[test]
fn dict_absorb_overrides_and_copy_keeps() {
    let mut base = generated(&[("a", "1"), ("b", "2")]);
    let other = generated(&[("b", "9"), ("c", "3")]);
    let copy = base.copy();
    base.absorb(&other);
    assert_eq!(base.get("a"), Some(&"1".to_string()));
    assert_eq!(base.get("b"), Some(&"9".to_string()));
    assert_eq!(base.get("c"), Some(&"3".to_string()));
    assert_eq!(copy.get("b"), Some(&"2".to_string()));
    assert_eq!(copy.len(), 2);
}

#[test]
fn chances_are_ordered_from_never_to_always() {
    assert!(Chance::Never < Chance::ExtremelyRare);
    assert!(Chance::Rare < Chance::Standard);
    assert!(Chance::ExtremelyCommon < Chance::Always);
    assert_eq!(Chance::Standard.max(Chance::Common), Chance::Common);
}

#[test]
fn chance_names_are_read_in_any_case() {
    assert_eq!(Chance::parse("Standard"), Some(Chance::Standard));
    assert_eq!(Chance::parse("extremelyrare"), Some(Chance::ExtremelyRare));
    assert_eq!(Chance::parse("VERYCOMMON"), Some(Chance::VeryCommon));
    assert_eq!(Chance::parse("nEvEr"), Some(Chance::Never));
    assert_eq!(Chance::parse("always"), Some(Chance::Always));
    assert_eq!(Chance::parse("very common"), None);
    assert_eq!(Chance::parse(""), None);
    assert_eq!(Chance::parse("sometimes"), None);
}

#[test]
fn chance_names_are_read_back() {
    for rank in 0..10 {
        let chance = Chance::of_rank(rank);
        assert_eq!(Chance::parse(chance.name()), Some(chance));
    }
    assert_eq!(Chance::ExtremelyCommon.name(), "ExtremelyCommon");
    assert_eq!(Chance::Uncommon.name(), "Uncommon");
}
