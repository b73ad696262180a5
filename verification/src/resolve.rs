//! Settling requirements before anything is generated: each requirement that
//! does not hold yet is made to hold, by denying a value or by fixing one.
//!
//! This is a greedy pass. What it fixes stays fixed, and a requirement that
//! cannot be made to hold is dropped.

use vstd::prelude::*;
use crate::attribute::{Attributes, AttributesModel, append_requirements, copy_requirements};
use crate::dict::{first, lemma_first};
use crate::query::attribute_implied;
use crate::random::{Picker, head, lemma_nothing_before, lemma_regroup, tail};
use crate::requirement::{
    Denied, Generated, Possibility, Requirement, meets, meets_requirement, possibility_met,
    requirement_views,
};

verus! {

/// Whether a possibility can be made to hold: its key has no value yet, or it
/// is negated and the key has another value.
pub open spec fn applicable(p: Possibility, generated: Map<Seq<char>, Seq<char>>) -> bool {
    !generated.contains_key(p.0) || (p.2 && generated[p.0] != p.1)
}

/// The possibility that is made to hold, and what is left of the numbers:
/// possibilities are taken in the order that the numbers give, each one once,
/// until one is applicable.
pub open spec fn force(
    possibilities: Seq<Possibility>,
    generated: Map<Seq<char>, Seq<char>>,
    picks: Seq<nat>,
) -> (Option<Possibility>, Seq<nat>)
    decreases possibilities.len(),
{
    if possibilities.len() == 0 {
        (None, picks)
    } else {
        let index = (head(picks) % possibilities.len()) as int;
        if applicable(possibilities[index], generated) {
            (Some(possibilities[index]), tail(picks))
        } else {
            force(possibilities.remove(index), generated, tail(picks))
        }
    }
}

/// What is denied after `value` was denied for `key`.
pub open spec fn deny(
    denied: Map<Seq<char>, Seq<Seq<char>>>,
    key: Seq<char>,
    value: Seq<char>,
) -> Map<Seq<char>, Seq<Seq<char>>> {
    denied.insert(
        key,
        (if denied.contains_key(key) {
            denied[key]
        } else {
            Seq::empty()
        }).push(value),
    )
}

/// The number of attributes that have no value yet.
pub open spec fn unresolved(attributes: AttributesModel, generated: Map<Seq<char>, Seq<char>>) -> nat
    decreases attributes.len(),
{
    if attributes.len() == 0 {
        0
    } else {
        unresolved(attributes.drop_last(), generated) + if generated.contains_key(
            attributes.last().0,
        ) {
            0nat
        } else {
            1nat
        }
    }
}

/// Giving one more key a value leaves no more attributes without a value, and
/// fewer where the key names an attribute.
pub proof fn lemma_unresolved(
    attributes: AttributesModel,
    generated: Map<Seq<char>, Seq<char>>,
    key: Seq<char>,
    value: Seq<char>,
)
    requires
        !generated.contains_key(key),
    ensures
        unresolved(attributes, generated.insert(key, value)) <= unresolved(attributes, generated),
        first(attributes, key) is Some ==> unresolved(attributes, generated.insert(key, value))
            < unresolved(attributes, generated),
    decreases attributes.len(),
{
    if attributes.len() > 0 {
        let front = attributes.drop_last();
        lemma_unresolved(front, generated, key, value);
        lemma_first(attributes, key);
        lemma_first(front, key);
        if first(attributes, key) is Some && attributes.last().0 != key {
            let i = first(attributes, key)->0;
            assert(front[i] == attributes[i]);
        }
    }
}

/// What settling the requirements leaves generated and denied, and what it
/// leaves of the numbers.
///
/// The requirement taken is the last of `waiting`, or the last of `delayed`
/// once `waiting` is empty. One that holds is dropped. One with several
/// possibilities waits in `delayed` while `waiting` has others. Any other is
/// forced: a negated possibility denies its value, any other fixes its value
/// and brings in the requirements that go with the value.
pub open spec fn resolve(
    waiting: Seq<Seq<Possibility>>,
    delayed: Seq<Seq<Possibility>>,
    generated: Map<Seq<char>, Seq<char>>,
    denied: Map<Seq<char>, Seq<Seq<char>>>,
    attributes: AttributesModel,
    picks: Seq<nat>,
) -> (Map<Seq<char>, Seq<char>>, Map<Seq<char>, Seq<Seq<char>>>, Seq<nat>)
    decreases unresolved(attributes, generated), 2 * waiting.len() + delayed.len(),
    via resolve_decreases
{
    if waiting.len() == 0 && delayed.len() == 0 {
        (generated, denied, picks)
    } else {
        let first_list = waiting.len() > 0;
        let requirement = if first_list {
            waiting.last()
        } else {
            delayed.last()
        };
        let waiting = if first_list {
            waiting.drop_last()
        } else {
            waiting
        };
        let delayed = if first_list {
            delayed
        } else {
            delayed.drop_last()
        };
        if meets(requirement, generated, denied) {
            resolve(waiting, delayed, generated, denied, attributes, picks)
        } else if requirement.len() > 1 && waiting.len() > 0 {
            resolve(waiting, delayed.push(requirement), generated, denied, attributes, picks)
        } else {
            let (choice, rest) = force(requirement, generated, picks);
            match choice {
                None => resolve(waiting, delayed, generated, denied, attributes, rest),
                Some(p) => if p.2 {
                    resolve(waiting, delayed, generated, deny(denied, p.0, p.1), attributes, rest)
                } else {
                    resolve(
                        waiting + brought_in(attributes, p.0, p.1),
                        delayed,
                        generated.insert(p.0, p.1),
                        denied,
                        attributes,
                        rest,
                    )
                },
            }
        }
    }
}

/// The requirements that fixing `value` for `key` brings in: those that go
/// with the value at the attribute of that name, if there is one.
pub open spec fn brought_in(
    attributes: AttributesModel,
    key: Seq<char>,
    value: Seq<char>,
) -> Seq<Seq<Possibility>> {
    match first(attributes, key) {
        Some(i) => attribute_implied(attributes[i].1, value, attributes, attributes.len()),
        None => Seq::empty(),
    }
}

/// What `force` gives is one of the possibilities, and is applicable.
pub proof fn lemma_force(
    possibilities: Seq<Possibility>,
    generated: Map<Seq<char>, Seq<char>>,
    picks: Seq<nat>,
)
    ensures
        force(possibilities, generated, picks).0 matches Some(p) ==> applicable(p, generated),
    decreases possibilities.len(),
{
    if possibilities.len() > 0 {
        let index = (head(picks) % possibilities.len()) as int;
        if !applicable(possibilities[index], generated) {
            lemma_force(possibilities.remove(index), generated, tail(picks));
        }
    }
}

#[via_fn]
proof fn resolve_decreases(
    waiting: Seq<Seq<Possibility>>,
    delayed: Seq<Seq<Possibility>>,
    generated: Map<Seq<char>, Seq<char>>,
    denied: Map<Seq<char>, Seq<Seq<char>>>,
    attributes: AttributesModel,
    picks: Seq<nat>,
) {
    if waiting.len() > 0 || delayed.len() > 0 {
        let first_list = waiting.len() > 0;
        let requirement = if first_list {
            waiting.last()
        } else {
            delayed.last()
        };
        let waiting1 = if first_list {
            waiting.drop_last()
        } else {
            waiting
        };
        if !meets(requirement, generated, denied) && !(requirement.len() > 1 && waiting1.len() > 0) {
            let (choice, rest) = force(requirement, generated, picks);
            lemma_force(requirement, generated, picks);
            match choice {
                Some(p) => {
                    if !p.2 {
                        lemma_unresolved(attributes, generated, p.0, p.1);
                        if first(attributes, p.0) is None {
                            assert(waiting1 + brought_in(attributes, p.0, p.1) =~= waiting1);
                        }
                    }
                },
                None => {},
            }
        }
    }
}

/// What settling requirements has fixed stays fixed: a key that has a value
/// keeps it.
pub proof fn lemma_resolve_keeps(
    waiting: Seq<Seq<Possibility>>,
    delayed: Seq<Seq<Possibility>>,
    generated: Map<Seq<char>, Seq<char>>,
    denied: Map<Seq<char>, Seq<Seq<char>>>,
    attributes: AttributesModel,
    picks: Seq<nat>,
    key: Seq<char>,
)
    requires
        generated.contains_key(key),
    ensures
        resolve(waiting, delayed, generated, denied, attributes, picks).0.contains_key(key),
        resolve(waiting, delayed, generated, denied, attributes, picks).0[key] == generated[key],
    decreases unresolved(attributes, generated), 2 * waiting.len() + delayed.len(),
{
    if waiting.len() > 0 || delayed.len() > 0 {
        let first_list = waiting.len() > 0;
        let requirement = if first_list {
            waiting.last()
        } else {
            delayed.last()
        };
        let waiting1 = if first_list {
            waiting.drop_last()
        } else {
            waiting
        };
        let delayed1 = if first_list {
            delayed
        } else {
            delayed.drop_last()
        };
        if meets(requirement, generated, denied) {
            lemma_resolve_keeps(waiting1, delayed1, generated, denied, attributes, picks, key);
        } else if requirement.len() > 1 && waiting1.len() > 0 {
            lemma_resolve_keeps(
                waiting1,
                delayed1.push(requirement),
                generated,
                denied,
                attributes,
                picks,
                key,
            );
        } else {
            let (choice, rest) = force(requirement, generated, picks);
            lemma_force(requirement, generated, picks);
            match choice {
                None => {
                    lemma_resolve_keeps(waiting1, delayed1, generated, denied, attributes, rest, key);
                },
                Some(p) => {
                    if p.2 {
                        lemma_resolve_keeps(
                            waiting1,
                            delayed1,
                            generated,
                            deny(denied, p.0, p.1),
                            attributes,
                            rest,
                            key,
                        );
                    } else {
                        lemma_unresolved(attributes, generated, p.0, p.1);
                        if first(attributes, p.0) is None {
                            assert(waiting1 + brought_in(attributes, p.0, p.1) =~= waiting1);
                        }
                        lemma_resolve_keeps(
                            waiting1 + brought_in(attributes, p.0, p.1),
                            delayed1,
                            generated.insert(p.0, p.1),
                            denied,
                            attributes,
                            rest,
                            key,
                        );
                    }
                },
            }
        }
    }
}

/// A preset that names one value for a key without a value fixes that value,
/// whatever the numbers are.
pub proof fn lemma_preset_fixes(
    key: Seq<char>,
    value: Seq<char>,
    generated: Map<Seq<char>, Seq<char>>,
    denied: Map<Seq<char>, Seq<Seq<char>>>,
    attributes: AttributesModel,
    picks: Seq<nat>,
)
    requires
        !generated.contains_key(key),
    ensures
        resolve(
            seq![seq![(key, value, false)]],
            Seq::empty(),
            generated,
            denied,
            attributes,
            picks,
        ).0.contains_key(key),
        resolve(seq![seq![(key, value, false)]], Seq::empty(), generated, denied, attributes, picks).0[key]
            == value,
{
    let requirement = seq![(key, value, false)];
    let waiting = seq![requirement];
    let none: Seq<Seq<Possibility>> = Seq::empty();
    assert(waiting.last() == requirement);
    assert(waiting.drop_last() =~= none);
    assert(!meets(requirement, generated, denied)) by {
        if meets(requirement, generated, denied) {
            let i = choose|i: int|
                0 <= i < requirement.len() && possibility_met(
                    #[trigger] requirement[i],
                    generated,
                    denied,
                );
            assert(requirement[i] == (key, value, false));
        }
    }
    let forced = force(requirement, generated, picks);
    assert(requirement[(head(picks) % requirement.len()) as int] == (key, value, false));
    assert(forced == (Some((key, value, false)), tail(picks)));
    lemma_resolve_keeps(
        none + brought_in(attributes, key, value),
        none,
        generated.insert(key, value),
        denied,
        attributes,
        tail(picks),
        key,
    );
}

/// A possibility as plain values.
pub open spec fn possibility_view(p: Option<(String, String, bool)>) -> Option<Possibility> {
    match p {
        Some(p) => Some((p.0@, p.1@, p.2)),
        None => None,
    }
}

/// Takes possibilities of `requirement` in the order that `picker` gives, each
/// one once, until one is applicable, and gives that one.
pub fn force_with(requirement: &Requirement, generated: &Generated, picker: &mut Picker) -> (r:
    Option<(String, String, bool)>)
    requires
        old(picker).wf(),
    ensures
        final(picker).extends(*old(picker), final(picker).since(*old(picker))),
        forall|rest: Seq<nat>|
            #[trigger] force(
                requirement@,
                generated@,
                final(picker).since(*old(picker)) + rest,
            ) == (possibility_view(r), rest),
{
    let ghost start = *picker;
    let mut remaining = requirement.clone();
    proof {
        assert(picker.drawn() =~= picker.drawn() + Seq::<nat>::empty());
        picker.lemma_since(start, Seq::empty());
        assert forall|rest: Seq<nat>|
            #[trigger] force(requirement@, generated@, picker.since(start) + rest) == force(
                remaining@,
                generated@,
                rest,
            ) by {
            lemma_nothing_before(rest);
        }
    }
    while remaining.possibilities.len() > 0
        invariant
            picker.extends(start, picker.since(start)),
            start == *old(picker),
            forall|rest: Seq<nat>|
                #[trigger] force(requirement@, generated@, picker.since(start) + rest) == force(
                    remaining@,
                    generated@,
                    rest,
                ),
        decreases remaining.possibilities.len(),
    {
        let ghost middle = *picker;
        let ghost before = remaining@;
        let ghost used = picker.since(start);
        let index = picker.below(remaining.possibilities.len());
        let possibility = remaining.possibilities.remove(index);
        let fits = match generated.get(possibility.0.as_str()) {
            Some(value) => possibility.2 && !(*value == possibility.1),
            None => true,
        };
        proof {
            let a = picker.drawn().last();
            picker.lemma_extends(middle, start, used, seq![a]);
            assert(remaining@ =~= before.remove(index as int));
            assert(fits == applicable(before[index as int], generated@));
            assert forall|rest: Seq<nat>|
                #[trigger] force(requirement@, generated@, picker.since(start) + rest) == (if fits {
                    (Some(before[index as int]), rest)
                } else {
                    force(remaining@, generated@, rest)
                }) by {
                lemma_regroup(used, seq![a], rest);
                let picks = seq![a] + rest;
                assert(force(requirement@, generated@, used + picks) == force(
                    before,
                    generated@,
                    picks,
                ));
                assert(head(picks) == a);
                assert(tail(picks) =~= rest);
            }
        }
        if fits {
            return Some(possibility);
        }
    }
    None
}

/// A copy of a list of names.
fn copy_names(list: &Vec<String>) -> (r: Vec<String>)
    ensures
        r.deep_view() == list.deep_view(),
{
    let mut r: Vec<String> = Vec::new();
    let mut i: usize = 0;
    while i < list.len()
        invariant
            i <= list.len(),
            r.len() == i,
            forall|j: int| 0 <= j < i ==> (#[trigger] r[j])@ == list[j]@,
        decreases list.len() - i,
    {
        r.push(list[i].clone());
        i += 1;
    }
    assert(r.deep_view() =~= list.deep_view());
    r
}

/// Denies `value` for `key`.
pub fn deny_value(denied: &mut Denied, key: String, value: String)
    ensures
        final(denied)@ == deny(old(denied)@, key@, value@),
{
    let mut list = match denied.get(key.as_str()) {
        Some(list) => copy_names(list),
        None => {
            let list: Vec<String> = Vec::new();
            assert(list.deep_view() =~= Seq::<Seq<char>>::empty());
            list
        },
    };
    let ghost before = list.deep_view();
    list.push(value);
    assert(list.deep_view() =~= before.push(value@));
    denied.insert(key, list);
}

/// Settles the requirements of `wanted` with numbers from `picker`: fixes
/// values in `generated` and denies values in `denied` until each
/// requirement holds or has been given up.
pub fn add_requirements_with(
    wanted: &Vec<Requirement>,
    generated: &mut Generated,
    denied: &mut Denied,
    attributes: &Attributes,
    picker: &mut Picker,
)
    requires
        old(picker).wf(),
    ensures
        final(picker).extends(*old(picker), final(picker).since(*old(picker))),
        forall|rest: Seq<nat>|
            #[trigger] resolve(
                requirement_views(wanted@),
                Seq::empty(),
                old(generated)@,
                old(denied)@,
                attributes@,
                final(picker).since(*old(picker)) + rest,
            ) == (final(generated)@, final(denied)@, rest),
{
    let ghost start = *picker;
    let ghost goal = requirement_views(wanted@);
    let ghost g0 = generated@;
    let ghost d0 = denied@;
    let mut waiting = copy_requirements(wanted);
    let mut delayed: Vec<Requirement> = Vec::new();
    proof {
        assert(picker.drawn() =~= picker.drawn() + Seq::<nat>::empty());
        picker.lemma_since(start, Seq::empty());
        assert(requirement_views(delayed@) =~= Seq::empty());
        assert forall|rest: Seq<nat>|
            #[trigger] resolve(goal, Seq::empty(), g0, d0, attributes@, picker.since(start) + rest)
                == resolve(
                requirement_views(waiting@),
                requirement_views(delayed@),
                generated@,
                denied@,
                attributes@,
                rest,
            ) by {
            lemma_nothing_before(rest);
        }
    }
    while waiting.len() > 0 || delayed.len() > 0
        invariant
            picker.extends(start, picker.since(start)),
            forall|rest: Seq<nat>|
                #[trigger] resolve(
                    goal,
                    Seq::empty(),
                    g0,
                    d0,
                    attributes@,
                    picker.since(start) + rest,
                ) == resolve(
                    requirement_views(waiting@),
                    requirement_views(delayed@),
                    generated@,
                    denied@,
                    attributes@,
                    rest,
                ),
        decreases unresolved(attributes@, generated@), 2 * waiting.len() + delayed.len(),
    {
        let ghost middle = *picker;
        let ghost used = picker.since(start);
        let ghost tv = requirement_views(waiting@);
        let ghost dv = requirement_views(delayed@);
        let ghost g = generated@;
        let ghost d = denied@;
        let first_list = waiting.len() > 0;
        let requirement = if first_list {
            waiting.pop().unwrap()
        } else {
            delayed.pop().unwrap()
        };
        let ghost tv1 = requirement_views(waiting@);
        let ghost dv1 = requirement_views(delayed@);
        proof {
            if first_list {
                assert(tv1 =~= tv.drop_last());
                assert(requirement@ == tv.last());
            } else {
                assert(dv1 =~= dv.drop_last());
                assert(requirement@ == dv.last());
            }
            assert(picker.drawn() =~= picker.drawn() + Seq::<nat>::empty());
        }
        if meets_requirement(&requirement, generated, denied) {
        } else if requirement.possibilities.len() > 1 && waiting.len() > 0 {
            delayed.push(requirement);
            assert(requirement_views(delayed@) =~= dv1.push(requirement@));
        } else {
            match force_with(&requirement, generated, picker) {
                None => {},
                Some(possibility) => {
                    if possibility.2 {
                        deny_value(denied, possibility.0, possibility.1);
                    } else {
                        proof {
                            lemma_force(requirement@, g, picker.since(middle));
                            lemma_nothing_before(picker.since(middle));
                            assert(picker.since(middle) + Seq::<nat>::empty() =~= picker.since(
                                middle,
                            ));
                            lemma_unresolved(attributes@, g, possibility.0@, possibility.1@);
                        }
                        match attributes.get(possibility.0.as_str()) {
                            Some(attribute) => {
                                let more = attribute.get_requirements(
                                    possibility.1.as_str(),
                                    attributes,
                                );
                                append_requirements(&mut waiting, &more);
                            },
                            None => {
                                assert(tv1 + brought_in(attributes@, possibility.0@, possibility.1@)
                                    =~= tv1);
                            },
                        }
                        generated.insert(possibility.0, possibility.1);
                    }
                },
            }
        }
        proof {
            let more = picker.since(middle);
            assert(picker.extends(middle, more)) by {
                assert(picker.drawn() =~= middle.drawn() + more);
            }
            picker.lemma_extends(middle, start, used, more);
            assert forall|rest: Seq<nat>|
                #[trigger] resolve(
                    goal,
                    Seq::empty(),
                    g0,
                    d0,
                    attributes@,
                    picker.since(start) + rest,
                ) == resolve(
                    requirement_views(waiting@),
                    requirement_views(delayed@),
                    generated@,
                    denied@,
                    attributes@,
                    rest,
                ) by {
                lemma_regroup(used, more, rest);
                let picks = more + rest;
                assert(resolve(goal, Seq::empty(), g0, d0, attributes@, used + picks) == resolve(
                    tv,
                    dv,
                    g,
                    d,
                    attributes@,
                    picks,
                ));
                if more.len() == 0 {
                    assert(more =~= Seq::<nat>::empty());
                    lemma_nothing_before(rest);
                }
            }
        }
    }
    proof {
        assert(requirement_views(waiting@) =~= Seq::empty());
        assert(requirement_views(delayed@) =~= Seq::empty());
    }
}

/// Settles the requirements of `wanted` with numbers drawn at random.
pub fn add_requirements(
    wanted: &Vec<Requirement>,
    generated: &mut Generated,
    denied: &mut Denied,
    attributes: &Attributes,
)
    ensures
        exists|picks: Seq<nat>|
            {
                let settled = #[trigger] resolve(
                    requirement_views(wanted@),
                    Seq::empty(),
                    old(generated)@,
                    old(denied)@,
                    attributes@,
                    picks,
                );
                settled.0 == final(generated)@ && settled.1 == final(denied)@
            },
{
    let mut picker = Picker::random();
    let ghost start = picker;
    let ghost g = generated@;
    let ghost d = denied@;
    add_requirements_with(wanted, generated, denied, attributes, &mut picker);
    proof {
        let used = picker.since(start);
        assert(used + Seq::<nat>::empty() =~= used);
        let settled = resolve(
            requirement_views(wanted@),
            Seq::empty(),
            g,
            d,
            attributes@,
            used + Seq::<nat>::empty(),
        );
        assert(settled == (generated@, denied@, Seq::<nat>::empty()));
    }
}

} // verus!
