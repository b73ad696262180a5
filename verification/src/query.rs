//! What a generator can produce: whether it can yield a value, whether it
//! always yields it, and which requirements go with the value.
//!
//! `Reuse` and `Same` name other attributes, and such names may form a cycle.
//! Each question therefore follows at most as many names as it is given a
//! budget for; the template's number of attributes is enough for every chain
//! that does not visit an attribute twice.

use vstd::prelude::*;
use crate::attribute::{Attribute, AttributeModel, Attributes, AttributesModel, Generator, GeneratorModel, copy_requirements, append_requirements};
use crate::chance::Chance;
use crate::dict::first;
use crate::requirement::{Possibility, Requirement, requirement_views};

verus! {

/// Whether the generator can yield `value`, following at most `budget` names.
pub open spec fn can_yield(
    generator: GeneratorModel,
    value: Seq<char>,
    attributes: AttributesModel,
    budget: nat,
) -> bool
    decreases budget, generator, 0nat,
{
    match generator {
        GeneratorModel::Choose(options) => match first(options, value) {
            Some(i) => if 0 <= i < options.len() {
                match options[i].1.generator {
                    GeneratorModel::Nothing => true,
                    inner => can_yield(inner, value, attributes, budget),
                }
            } else {
                false
            },
            None => any_can_yield(options, 0, value, attributes, budget),
        },
        GeneratorModel::Reuse(target) | GeneratorModel::Same(target) => match first(
            attributes,
            target,
        ) {
            Some(i) => budget > 0 && 0 <= i < attributes.len() && can_yield(
                attributes[i].1.generator,
                value,
                attributes,
                (budget - 1) as nat,
            ),
            None => false,
        },
        GeneratorModel::Nothing => false,
    }
}

/// Whether the generator of one of the options from position `from` on can
/// yield `value`.
pub open spec fn any_can_yield(
    options: AttributesModel,
    from: int,
    value: Seq<char>,
    attributes: AttributesModel,
    budget: nat,
) -> bool
    decreases budget, options, options.len() - from,
{
    if 0 <= from < options.len() {
        can_yield(options[from].1.generator, value, attributes, budget) || any_can_yield(
            options,
            from + 1,
            value,
            attributes,
            budget,
        )
    } else {
        false
    }
}

/// Whether an option is certain to be taken: it is marked `Always`, or it is
/// the only option.
pub open spec fn certain(options: AttributesModel, i: int) -> bool {
    options[i].1.chance == Some(Chance::Always) || options.len() == 1
}

/// Whether the generator always yields `value`, following at most `budget`
/// names.
pub open spec fn always_yields(
    generator: GeneratorModel,
    value: Seq<char>,
    attributes: AttributesModel,
    budget: nat,
) -> bool
    decreases budget, generator, 0nat,
{
    match generator {
        GeneratorModel::Choose(options) => match first(options, value) {
            Some(i) => if 0 <= i < options.len() {
                match options[i].1.generator {
                    GeneratorModel::Nothing => certain(options, i),
                    inner => always_yields(inner, value, attributes, budget),
                }
            } else {
                false
            },
            None => first_certain_yields(options, 0, value, attributes, budget),
        },
        GeneratorModel::Reuse(target) => match first(attributes, target) {
            Some(i) => budget > 0 && 0 <= i < attributes.len() && always_yields(
                attributes[i].1.generator,
                value,
                attributes,
                (budget - 1) as nat,
            ),
            None => false,
        },
        GeneratorModel::Same(_) => true,
        GeneratorModel::Nothing => false,
    }
}

/// What the first certain option from position `from` on that can yield
/// `value` says of always yielding it; `false` where there is no such option.
pub open spec fn first_certain_yields(
    options: AttributesModel,
    from: int,
    value: Seq<char>,
    attributes: AttributesModel,
    budget: nat,
) -> bool
    decreases budget, options, options.len() - from,
{
    if 0 <= from < options.len() {
        if certain(options, from) && can_yield(options[from].1.generator, value, attributes, budget) {
            always_yields(options[from].1.generator, value, attributes, budget)
        } else {
            first_certain_yields(options, from + 1, value, attributes, budget)
        }
    } else {
        false
    }
}

/// The requirements that go with `value` at the generator, following at most
/// `budget` names.
pub open spec fn implied(
    generator: GeneratorModel,
    value: Seq<char>,
    attributes: AttributesModel,
    budget: nat,
) -> Seq<Seq<Possibility>>
    decreases budget, generator, 0nat,
{
    match generator {
        GeneratorModel::Choose(options) => match first(options, value) {
            Some(i) => if 0 <= i < options.len() {
                options[i].1.requires + implied(options[i].1.generator, value, attributes, budget)
            } else {
                Seq::empty()
            },
            None => first_implied(options, 0, value, attributes, budget),
        },
        GeneratorModel::Reuse(target) => match first(attributes, target) {
            Some(i) => if budget > 0 && 0 <= i < attributes.len() {
                implied(attributes[i].1.generator, value, attributes, (budget - 1) as nat)
            } else {
                Seq::empty()
            },
            None => Seq::empty(),
        },
        GeneratorModel::Same(target) => seq![seq![(target, value, false)]],
        GeneratorModel::Nothing => Seq::empty(),
    }
}

/// The requirements that go with `value` at the first option from position
/// `from` on whose generator can yield it: the option's own and those that
/// its generator implies. None where there is no such option.
pub open spec fn first_implied(
    options: AttributesModel,
    from: int,
    value: Seq<char>,
    attributes: AttributesModel,
    budget: nat,
) -> Seq<Seq<Possibility>>
    decreases budget, options, options.len() - from,
{
    if 0 <= from < options.len() {
        if can_yield(options[from].1.generator, value, attributes, budget) {
            options[from].1.requires + implied(
                options[from].1.generator,
                value,
                attributes,
                budget,
            )
        } else {
            first_implied(options, from + 1, value, attributes, budget)
        }
    } else {
        Seq::empty()
    }
}

/// The requirements that go with `value` at an attribute: the attribute's own
/// and those that its generator implies.
pub open spec fn attribute_implied(
    attribute: AttributeModel,
    value: Seq<char>,
    attributes: AttributesModel,
    budget: nat,
) -> Seq<Seq<Possibility>> {
    attribute.requires + implied(attribute.generator, value, attributes, budget)
}

impl Generator {
    /// Whether the generator can yield `name`.
    pub fn contains(&self, name: &str, attributes: &Attributes) -> (r: bool)
        ensures
            r == can_yield(self@, name@, attributes@, attributes@.len()),
    {
        self.contains_within(name, attributes, attributes.len())
    }

    /// Whether the generator can yield `name`, following at most `budget`
    /// names.
    pub fn contains_within(&self, name: &str, attributes: &Attributes, budget: usize) -> (r: bool)
        ensures
            r == can_yield(self@, name@, attributes@, budget as nat),
        decreases budget, self,
    {
        match self {
            Generator::Choose(options) => {
                match options.position(name) {
                    Some(i) => {
                        let option = options.attribute_at(i);
                        match &option.generator {
                            Generator::Nothing => true,
                            inner => inner.contains_within(name, attributes, budget),
                        }
                    },
                    None => {
                        let mut j: usize = options.len();
                        let mut found = false;
                        while j > 0
                            invariant
                                j <= options@.len(),
                                *self matches Generator::Choose(o) && o == *options,
                                found == any_can_yield(
                                    options@,
                                    j as int,
                                    name@,
                                    attributes@,
                                    budget as nat,
                                ),
                            decreases j,
                        {
                            j -= 1;
                            let option = options.attribute_at(j);
                            let here = option.generator.contains_within(name, attributes, budget);
                            found = here || found;
                        }
                        found
                    },
                }
            },
            Generator::Reuse(target) | Generator::Same(target) => {
                match attributes.get(target.as_str()) {
                    Some(attribute) => budget > 0 && attribute.generator.contains_within(
                        name,
                        attributes,
                        budget - 1,
                    ),
                    None => false,
                }
            },
            Generator::Nothing => false,
        }
    }

    /// Whether the generator always yields `name`.
    pub fn always(&self, name: &str, attributes: &Attributes) -> (r: bool)
        ensures
            r == always_yields(self@, name@, attributes@, attributes@.len()),
    {
        self.always_within(name, attributes, attributes.len())
    }

    /// Whether the generator always yields `name`, following at most `budget`
    /// names.
    pub fn always_within(&self, name: &str, attributes: &Attributes, budget: usize) -> (r: bool)
        ensures
            r == always_yields(self@, name@, attributes@, budget as nat),
        decreases budget, self,
    {
        match self {
            Generator::Choose(options) => {
                match options.position(name) {
                    Some(i) => {
                        let option = options.attribute_at(i);
                        match &option.generator {
                            Generator::Nothing => is_always(&option.chance) || options.len() == 1,
                            inner => inner.always_within(name, attributes, budget),
                        }
                    },
                    None => {
                        let mut j: usize = 0;
                        while j < options.len()
                            invariant
                                j <= options@.len(),
                                *self matches Generator::Choose(o) && o == *options,
                                first(options@, name@) is None,
                                first_certain_yields(options@, 0, name@, attributes@, budget as nat)
                                    == first_certain_yields(
                                    options@,
                                    j as int,
                                    name@,
                                    attributes@,
                                    budget as nat,
                                ),
                            decreases options@.len() - j,
                        {
                            let option = options.attribute_at(j);
                            if (is_always(&option.chance) || options.len() == 1)
                                && option.generator.contains_within(name, attributes, budget) {
                                return option.generator.always_within(name, attributes, budget);
                            }
                            j += 1;
                        }
                        false
                    },
                }
            },
            Generator::Reuse(target) => {
                match attributes.get(target.as_str()) {
                    Some(attribute) => budget > 0 && attribute.generator.always_within(
                        name,
                        attributes,
                        budget - 1,
                    ),
                    None => false,
                }
            },
            Generator::Same(_) => true,
            Generator::Nothing => false,
        }
    }

    /// The requirements that go with the value `name`.
    pub fn get_requirements(&self, name: &str, attributes: &Attributes) -> (r: Vec<Requirement>)
        ensures
            requirement_views(r@) == implied(self@, name@, attributes@, attributes@.len()),
    {
        self.get_requirements_within(name, attributes, attributes.len())
    }

    /// The requirements that go with the value `name`, following at most
    /// `budget` names.
    pub fn get_requirements_within(
        &self,
        name: &str,
        attributes: &Attributes,
        budget: usize,
    ) -> (r: Vec<Requirement>)
        ensures
            requirement_views(r@) == implied(self@, name@, attributes@, budget as nat),
        decreases budget, self, 1nat,
    {
        match self {
            Generator::Choose(options) => {
                match options.position(name) {
                    Some(i) => {
                        let option = options.attribute_at(i);
                        option.get_requirements_within(name, attributes, budget)
                    },
                    None => {
                        let mut j: usize = 0;
                        while j < options.len()
                            invariant
                                j <= options@.len(),
                                *self matches Generator::Choose(o) && o == *options,
                                first(options@, name@) is None,
                                first_implied(options@, 0, name@, attributes@, budget as nat)
                                    == first_implied(
                                    options@,
                                    j as int,
                                    name@,
                                    attributes@,
                                    budget as nat,
                                ),
                            decreases options@.len() - j,
                        {
                            let option = options.attribute_at(j);
                            if option.generator.contains_within(name, attributes, budget) {
                                return option.get_requirements_within(name, attributes, budget);
                            }
                            j += 1;
                        }
                        let none: Vec<Requirement> = Vec::new();
                        assert(requirement_views(none@) =~= Seq::empty());
                        none
                    },
                }
            },
            Generator::Reuse(target) => {
                match attributes.get(target.as_str()) {
                    Some(attribute) => {
                        if budget > 0 {
                            attribute.generator.get_requirements_within(
                                name,
                                attributes,
                                budget - 1,
                            )
                        } else {
                            let none: Vec<Requirement> = Vec::new();
                            assert(requirement_views(none@) =~= Seq::empty());
                            none
                        }
                    },
                    None => {
                        let none: Vec<Requirement> = Vec::new();
                        assert(requirement_views(none@) =~= Seq::empty());
                        none
                    },
                }
            },
            Generator::Same(target) => {
                let mut possibilities: Vec<(String, String, bool)> = Vec::new();
                possibilities.push((target.clone(), name.to_owned(), false));
                let requirement = Requirement { possibilities };
                assert(requirement@ =~= seq![(target@, name@, false)]);
                let mut list: Vec<Requirement> = Vec::new();
                list.push(requirement);
                assert(requirement_views(list@) =~= seq![seq![(target@, name@, false)]]);
                list
            },
            Generator::Nothing => {
                let none: Vec<Requirement> = Vec::new();
                assert(requirement_views(none@) =~= Seq::empty());
                none
            },
        }
    }
}

/// Whether a chance is given and is `Always`.
fn is_always(chance: &Option<Chance>) -> (r: bool)
    ensures
        r == (*chance == Some(Chance::Always)),
{
    match chance {
        Some(Chance::Always) => true,
        _ => false,
    }
}

impl Attribute {
    /// The requirements that go with the value `name`: the attribute's own and
    /// those that its generator implies.
    pub fn get_requirements(&self, name: &str, attributes: &Attributes) -> (r: Vec<Requirement>)
        ensures
            requirement_views(r@) == attribute_implied(
                self@,
                name@,
                attributes@,
                attributes@.len(),
            ),
    {
        self.get_requirements_within(name, attributes, attributes.len())
    }

    /// The requirements that go with the value `name`, following at most
    /// `budget` names.
    pub fn get_requirements_within(
        &self,
        name: &str,
        attributes: &Attributes,
        budget: usize,
    ) -> (r: Vec<Requirement>)
        ensures
            requirement_views(r@) == attribute_implied(self@, name@, attributes@, budget as nat),
        decreases budget, self, 0nat,
    {
        let mut requirements = copy_requirements(&self.requires);
        let more = self.generator.get_requirements_within(name, attributes, budget);
        append_requirements(&mut requirements, &more);
        requirements
    }
}

} // verus!
