//! Attributes and their generators: the tree that a template is made of, the
//! merge of a parent attribute into a child, and the questions that
//! requirement resolution asks of a generator.

use vstd::prelude::*;
use crate::chance::Chance;
use crate::dict::{as_map, first, lemma_first, lemma_first_is};
use crate::order::{lemma_merge_ordered, lemma_put_ordered, ordered, well_ordered};
use crate::requirement::{Possibility, Requirement, requirement_views};
use crate::text::{
    append_chars, chars_of, decimal, decimal_of, lemma_decimal, lemma_lex_total,
    lemma_lex_transitive, less, lex_less, string_from,
};
use vstd::set_lib::{lemma_int_range, lemma_map_size, lemma_subset_equality, set_int_range};

verus! {

/// A named slot of a template: how its value is produced, and what gates it.
#[derive(Debug)]
pub struct Attribute {
    pub generator: Generator,
    /// Replace the parent's attribute of the same name instead of merging
    /// with it.
    pub replace: bool,
    /// Overrides the chance of options taken over from a parent.
    pub chance: Option<Chance>,
    /// All of these must hold for the attribute to be considered.
    pub requires: Vec<Requirement>,
}

/// How the value of an attribute is produced.
#[derive(Debug)]
pub enum Generator {
    /// Pick one of the named options by chance, among those whose
    /// requirements hold.
    Choose(Attributes),
    /// Generate as the named attribute would.
    Reuse(String),
    /// Copy the value that the named attribute has.
    Same(String),
    /// Produce nothing.
    Nothing,
}

/// Attributes by name, held in the order of their names.
#[derive(Debug)]
pub struct Attributes {
    entries: Vec<(String, Attribute)>,
}

/// An attribute as a plain value.
pub struct AttributeModel {
    pub generator: GeneratorModel,
    pub replace: bool,
    pub chance: Option<Chance>,
    pub requires: Seq<Seq<Possibility>>,
}

/// A generator as a plain value.
pub enum GeneratorModel {
    Choose(Seq<(Seq<char>, AttributeModel)>),
    Reuse(Seq<char>),
    Same(Seq<char>),
    Nothing,
}

/// Named attributes as plain values, in their order.
pub type AttributesModel = Seq<(Seq<char>, AttributeModel)>;

impl Attributes {
    /// The entries as plain values, in the order in which they are held.
    pub closed spec fn view(&self) -> AttributesModel
        decreases self,
    {
        Seq::new(
            self.entries.len() as nat,
            |i: int|
                if 0 <= i < self.entries.len() {
                    (self.entries[i].0@, self.entries[i].1.view())
                } else {
                    arbitrary()
                },
        )
    }
}

impl Generator {
    /// The generator as a plain value.
    pub open spec fn view(&self) -> GeneratorModel
        decreases self,
    {
        match self {
            Generator::Choose(options) => GeneratorModel::Choose(options.view()),
            Generator::Reuse(name) => GeneratorModel::Reuse(name@),
            Generator::Same(name) => GeneratorModel::Same(name@),
            Generator::Nothing => GeneratorModel::Nothing,
        }
    }
}

impl Attribute {
    /// The attribute as a plain value.
    pub open spec fn view(&self) -> AttributeModel
        decreases self,
    {
        AttributeModel {
            generator: self.generator.view(),
            replace: self.replace,
            chance: self.chance,
            requires: requirement_views(self.requires@),
        }
    }
}

/// Whether the names stand in strictly rising order, so that none occurs
/// twice.
pub open spec fn sorted(entries: AttributesModel) -> bool {
    forall|i: int, j: int|
        0 <= i < j < entries.len() ==> lex_less(#[trigger] entries[i].0, #[trigger] entries[j].0)
}

/// Entries with another value at one position stand in order as before.
pub proof fn lemma_update_sorted(entries: AttributesModel, j: int, value: AttributeModel)
    requires
        0 <= j < entries.len(),
        sorted(entries),
    ensures
        sorted(entries.update(j, (entries[j].0, value))),
{
    let after = entries.update(j, (entries[j].0, value));
    assert forall|a: int, b: int| 0 <= a < b < after.len() implies lex_less(
        #[trigger] after[a].0,
        #[trigger] after[b].0,
    ) by {
        assert(after[a].0 == entries[a].0 && after[b].0 == entries[b].0);
    }
}

/// The entries with `value` under `key`: in place of the first entry of that
/// name, or else before the first entry of a later name, or else at the end.
pub open spec fn put(entries: AttributesModel, key: Seq<char>, value: AttributeModel) -> AttributesModel
    decreases entries.len(),
{
    if entries.len() == 0 {
        seq![(key, value)]
    } else if entries[0].0 == key {
        entries.update(0, (key, value))
    } else if lex_less(key, entries[0].0) {
        seq![(key, value)] + entries
    } else {
        seq![entries[0]] + put(entries.drop_first(), key, value)
    }
}

/// Looking a name up after `put`: the key gives the value that was put, any
/// other name gives what it gave before.
pub proof fn lemma_put_lookup(
    entries: AttributesModel,
    key: Seq<char>,
    value: AttributeModel,
    name: Seq<char>,
)
    ensures
        match first(put(entries, key, value), name) {
            Some(i) => 0 <= i < put(entries, key, value).len() && put(entries, key, value)[i].1
                == (if name == key {
                value
            } else {
                entries[first(entries, name)->0].1
            }) && (name == key || first(entries, name) is Some),
            None => name != key && first(entries, name) is None,
        },
    decreases entries.len(),
{
    let after = put(entries, key, value);
    lemma_first(entries, name);
    lemma_first(after, name);
    if entries.len() == 0 {
    } else if entries[0].0 == key {
        if name != key {
            assert(after.drop_first() =~= entries.drop_first());
        }
    } else if lex_less(key, entries[0].0) {
        assert(after.drop_first() =~= entries);
    } else {
        let rest = entries.drop_first();
        assert(after.drop_first() =~= put(rest, key, value));
        assert(after[0] == entries[0]);
        if name != entries[0].0 {
            lemma_put_lookup(rest, key, value, name);
            lemma_first(rest, name);
            lemma_first(put(rest, key, value), name);
            match first(put(rest, key, value), name) {
                Some(i) => {
                    assert(after[i + 1] == put(rest, key, value)[i]);
                    if name != key {
                        let j = first(rest, name)->0;
                        assert(rest[j] == entries[j + 1]);
                    }
                },
                None => {},
            }
        }
    }
}

/// As a map, what `put` gives is the entries with the value under the key.
pub proof fn lemma_put_map(entries: AttributesModel, key: Seq<char>, value: AttributeModel)
    ensures
        as_map(put(entries, key, value)) == as_map(entries).insert(key, value),
{
    let after = as_map(put(entries, key, value));
    let target = as_map(entries).insert(key, value);
    assert forall|name: Seq<char>|
        #![trigger after.dom().contains(name)]
        #![trigger target.dom().contains(name)]
        after.dom().contains(name) == target.dom().contains(name) && (after.dom().contains(name)
            ==> after[name] == target[name]) by {
        lemma_put_lookup(entries, key, value, name);
    }
    assert(after =~= target);
}

/// Whether `name` is the name of one of the entries.
pub open spec fn names(entries: AttributesModel, name: Seq<char>) -> bool {
    exists|i: int| 0 <= i < entries.len() && #[trigger] entries[i].0 == name
}

/// What `put` gives holds the names that the entries held and the key, and
/// no others.
pub proof fn lemma_put_names(
    entries: AttributesModel,
    key: Seq<char>,
    value: AttributeModel,
    name: Seq<char>,
)
    ensures
        names(put(entries, key, value), name) <==> (name == key || names(entries, name)),
    decreases entries.len(),
{
    let after = put(entries, key, value);
    if entries.len() == 0 {
        assert(after[0].0 == key);
    } else if entries[0].0 == key {
        assert(after[0].0 == key && entries[0].0 == key);
        if names(after, name) {
            let i = choose|i: int| 0 <= i < after.len() && after[i].0 == name;
            assert(entries[i].0 == name);
        }
        if names(entries, name) {
            let i = choose|i: int| 0 <= i < entries.len() && entries[i].0 == name;
            assert(after[i].0 == name);
        }
    } else if lex_less(key, entries[0].0) {
        assert(after[0].0 == key);
        if names(after, name) {
            let i = choose|i: int| 0 <= i < after.len() && after[i].0 == name;
            if i > 0 {
                assert(entries[i - 1].0 == name);
            }
        }
        if names(entries, name) {
            let i = choose|i: int| 0 <= i < entries.len() && entries[i].0 == name;
            assert(after[i + 1].0 == name);
        }
    } else {
        let rest = entries.drop_first();
        let tail = put(rest, key, value);
        lemma_put_names(rest, key, value, name);
        assert(after[0] == entries[0]);
        if names(after, name) {
            let i = choose|i: int| 0 <= i < after.len() && after[i].0 == name;
            if i > 0 {
                assert(tail[i - 1] == after[i]);
                assert(names(tail, name));
                if name != key {
                    let j = choose|j: int| 0 <= j < rest.len() && rest[j].0 == name;
                    assert(rest[j] == entries[j + 1]);
                }
            }
        }
        if names(entries, name) && entries[0].0 != name {
            let j = choose|j: int| 0 <= j < entries.len() && entries[j].0 == name;
            assert(rest[j - 1] == entries[j]);
            assert(names(rest, name));
        }
        if names(tail, name) {
            let i = choose|i: int| 0 <= i < tail.len() && tail[i].0 == name;
            assert(after[i + 1] == tail[i]);
        }
    }
}

/// Putting a value under a key keeps the names in order.
pub proof fn lemma_put_sorted(entries: AttributesModel, key: Seq<char>, value: AttributeModel)
    requires
        sorted(entries),
    ensures
        sorted(put(entries, key, value)),
    decreases entries.len(),
{
    let after = put(entries, key, value);
    if entries.len() == 0 {
    } else if entries[0].0 == key {
        assert forall|i: int, j: int| 0 <= i < j < after.len() implies lex_less(
            #[trigger] after[i].0,
            #[trigger] after[j].0,
        ) by {
            assert(after[i].0 == entries[i].0 && after[j].0 == entries[j].0);
        }
    } else if lex_less(key, entries[0].0) {
        assert forall|i: int, j: int| 0 <= i < j < after.len() implies lex_less(
            #[trigger] after[i].0,
            #[trigger] after[j].0,
        ) by {
            assert(after[j].0 == entries[j - 1].0);
            if i == 0 {
                if j > 1 {
                    assert(lex_less(entries[0].0, entries[j - 1].0));
                    lemma_lex_transitive(key, entries[0].0, entries[j - 1].0);
                }
            } else {
                assert(after[i].0 == entries[i - 1].0);
                assert(lex_less(entries[i - 1].0, entries[j - 1].0));
            }
        }
    } else {
        let rest = entries.drop_first();
        let tail = put(rest, key, value);
        assert(sorted(rest)) by {
            assert forall|i: int, j: int| 0 <= i < j < rest.len() implies lex_less(
                #[trigger] rest[i].0,
                #[trigger] rest[j].0,
            ) by {
                assert(rest[i].0 == entries[i + 1].0 && rest[j].0 == entries[j + 1].0);
            }
        }
        lemma_put_sorted(rest, key, value);
        lemma_lex_total(key, entries[0].0);
        assert forall|i: int, j: int| 0 <= i < j < after.len() implies lex_less(
            #[trigger] after[i].0,
            #[trigger] after[j].0,
        ) by {
            assert(after[j] == tail[j - 1]);
            if i == 0 {
                let name = tail[j - 1].0;
                lemma_put_names(rest, key, value, name);
                assert(names(tail, name));
                if name != key {
                    let k = choose|k: int| 0 <= k < rest.len() && rest[k].0 == name;
                    assert(rest[k] == entries[k + 1]);
                    assert(lex_less(entries[0].0, entries[k + 1].0));
                }
            } else {
                assert(after[i] == tail[i - 1]);
                assert(lex_less(tail[i - 1].0, tail[j - 1].0));
            }
        }
    }
}

impl Attributes {
    /// Attributes without an entry.
    pub fn new() -> (m: Self)
        ensures
            m@ == AttributesModel::empty(),
            sorted(m@),
    {
        let m = Attributes { entries: Vec::new() };
        assert(m@ =~= AttributesModel::empty());
        m
    }

    /// The number of entries.
    pub fn len(&self) -> (n: usize)
        ensures
            n == self@.len(),
    {
        self.entries.len()
    }

    /// The name of the entry at position `i`.
    pub fn name_at(&self, i: usize) -> (name: &String)
        requires
            i < self@.len(),
        ensures
            name@ == self@[i as int].0,
    {
        &self.entries[i].0
    }

    /// The attribute at position `i`, which is a part of `self`.
    pub fn attribute_at(&self, i: usize) -> (attribute: &Attribute)
        requires
            i < self@.len(),
        ensures
            attribute@ == self@[i as int].1,
            decreases_to!(self => attribute),
    {
        &self.entries[i].1
    }

    /// The position of the first entry named `key`.
    pub fn position(&self, key: &str) -> (r: Option<usize>)
        ensures
            first(self@, key@) == (match r {
                Some(i) => Some(i as int),
                None => None,
            }),
            r matches Some(i) ==> i < self@.len(),
    {
        let k = key.to_owned();
        let mut i: usize = 0;
        while i < self.entries.len()
            invariant
                i <= self.entries.len(),
                k@ == key@,
                forall|j: int| 0 <= j < i ==> self@[j].0 != key@,
            decreases self.entries.len() - i,
        {
            if self.entries[i].0 == k {
                proof {
                    lemma_first_is(self@, key@, i as int);
                }
                return Some(i);
            }
            i += 1;
        }
        proof {
            lemma_first_is(self@, key@, i as int);
        }
        None
    }

    /// Whether an entry is named `key`.
    pub fn contains_key(&self, key: &str) -> (r: bool)
        ensures
            r == first(self@, key@) is Some,
    {
        self.position(key).is_some()
    }

    /// The first attribute named `key`, which is a part of `self`.
    pub fn get(&self, key: &str) -> (r: Option<&Attribute>)
        ensures
            match r {
                Some(attribute) => first(self@, key@) matches Some(i) && 0 <= i < self@.len()
                    && attribute@ == self@[i].1 && decreases_to!(self => attribute),
                None => first(self@, key@) is None,
            },
    {
        match self.position(key) {
            Some(i) => Some(self.attribute_at(i)),
            None => None,
        }
    }

    /// Puts `value` under `key`, keeping the names in order.
    pub fn insert(&mut self, key: String, value: Attribute)
        ensures
            final(self)@ == put(old(self)@, key@, value@),
            as_map(final(self)@) == as_map(old(self)@).insert(key@, value@),
            sorted(old(self)@) ==> sorted(final(self)@),
            well_ordered(old(self)@) && ordered(value@.generator) ==> well_ordered(final(self)@),
    {
        proof {
            lemma_put_map(self@, key@, value@);
            if sorted(self@) {
                lemma_put_sorted(self@, key@, value@);
            }
            if well_ordered(self@) && ordered(value@.generator) {
                lemma_put_ordered(self@, key@, value@);
            }
        }
        let ghost model = self@;
        let ghost pair = (key@, value@);
        let mut i: usize = 0;
        assert(model.skip(0) == model);
        while i < self.entries.len()
            invariant
                i <= self.entries.len(),
                self@ == model,
                model == old(self)@,
                as_map(put(model, pair.0, pair.1)) == as_map(model).insert(pair.0, pair.1),
                sorted(model) ==> sorted(put(model, pair.0, pair.1)),
                well_ordered(model) && ordered(pair.1.generator) ==> well_ordered(
                    put(model, pair.0, pair.1),
                ),
                put(model, pair.0, pair.1) == model.take(i as int) + put(
                    model.skip(i as int),
                    pair.0,
                    pair.1,
                ),
                pair == (key@, value@),
            decreases self.entries.len() - i,
        {
            let ghost rest = model.skip(i as int);
            assert(rest[0] == model[i as int]);
            if self.entries[i].0 == key {
                self.entries.set(i, (key, value));
                assert(self@ =~= model.take(i as int) + rest.update(0, pair));
                return ;
            }
            if less(key.as_str(), self.entries[i].0.as_str()) {
                self.entries.insert(i, (key, value));
                assert(self@ =~= model.take(i as int) + (seq![pair] + rest));
                return ;
            }
            proof {
                assert(rest.drop_first() == model.skip(i + 1));
                assert(model.take(i + 1) == model.take(i as int) + seq![rest[0]]);
                let tail = put(model.skip(i + 1), pair.0, pair.1);
                assert(model.take(i as int) + (seq![rest[0]] + tail) == model.take(i + 1) + tail);
            }
            i += 1;
        }
        self.entries.push((key, value));
        assert(self@ =~= model.take(i as int) + seq![pair]);
    }
}

/// The models of a list of requirements, after one more was pushed.
pub proof fn lemma_requirement_views_push(list: Seq<Requirement>, r: Requirement)
    ensures
        requirement_views(list.push(r)) == requirement_views(list).push(r@),
{
    assert(requirement_views(list.push(r)) =~= requirement_views(list).push(r@));
}

/// A copy of a list of requirements.
pub fn copy_requirements(list: &Vec<Requirement>) -> (r: Vec<Requirement>)
    ensures
        requirement_views(r@) == requirement_views(list@),
{
    let mut r: Vec<Requirement> = Vec::new();
    let mut i: usize = 0;
    while i < list.len()
        invariant
            i <= list.len(),
            requirement_views(r@) == requirement_views(list@.take(i as int)),
        decreases list.len() - i,
    {
        proof {
            lemma_requirement_views_push(r@, list@[i as int]);
            assert(list@.take(i + 1) == list@.take(i as int).push(list@[i as int]));
        }
        let copy = list[i].clone();
        proof {
            lemma_requirement_views_push(r@, copy);
            lemma_requirement_views_push(list@.take(i as int), list@[i as int]);
        }
        r.push(copy);
        i += 1;
    }
    assert(list@.take(i as int) == list@);
    r
}

/// Appends copies of the requirements of `more` to `list`.
pub fn append_requirements(list: &mut Vec<Requirement>, more: &Vec<Requirement>)
    ensures
        requirement_views(final(list)@) == requirement_views(old(list)@) + requirement_views(
            more@,
        ),
{
    let mut i: usize = 0;
    while i < more.len()
        invariant
            i <= more.len(),
            requirement_views(list@) == requirement_views(old(list)@) + requirement_views(
                more@.take(i as int),
            ),
        decreases more.len() - i,
    {
        let copy = more[i].clone();
        proof {
            lemma_requirement_views_push(list@, copy);
            lemma_requirement_views_push(more@.take(i as int), more@[i as int]);
            assert(more@.take(i + 1) == more@.take(i as int).push(more@[i as int]));
        }
        list.push(copy);
        i += 1;
    }
    assert(more@.take(i as int) == more@);
}

/// A copy of a generator.
pub fn copy_generator(generator: &Generator) -> (r: Generator)
    ensures
        r@ == generator@,
    decreases generator,
{
    match generator {
        Generator::Choose(options) => Generator::Choose(copy_attributes(options)),
        Generator::Reuse(name) => Generator::Reuse(name.clone()),
        Generator::Same(name) => Generator::Same(name.clone()),
        Generator::Nothing => Generator::Nothing,
    }
}

/// A copy of an attribute.
pub fn copy_attribute(attribute: &Attribute) -> (r: Attribute)
    ensures
        r@ == attribute@,
    decreases attribute,
{
    Attribute {
        generator: copy_generator(&attribute.generator),
        replace: attribute.replace,
        chance: attribute.chance,
        requires: copy_requirements(&attribute.requires),
    }
}

/// A copy of named attributes.
pub fn copy_attributes(attributes: &Attributes) -> (r: Attributes)
    ensures
        r@ == attributes@,
    decreases attributes,
{
    let mut entries: Vec<(String, Attribute)> = Vec::new();
    let mut i: usize = 0;
    while i < attributes.entries.len()
        invariant
            i <= attributes.entries.len(),
            entries.len() == i,
            forall|j: int|
                0 <= j < i ==> (#[trigger] entries[j]).0@ == attributes.entries[j].0@
                    && entries[j].1@ == attributes.entries[j].1@,
        decreases attributes.entries.len() - i,
    {
        let name = attributes.entries[i].0.clone();
        let attribute = copy_attribute(attributes.attribute_at(i));
        entries.push((name, attribute));
        i += 1;
    }
    let r = Attributes { entries };
    assert(r@ =~= attributes@);
    r
}

impl Clone for Attribute {
    fn clone(&self) -> (r: Self)
        ensures
            r@ == self@,
    {
        copy_attribute(self)
    }
}

impl Clone for Generator {
    fn clone(&self) -> (r: Self)
        ensures
            r@ == self@,
    {
        copy_generator(self)
    }
}

impl Clone for Attributes {
    fn clone(&self) -> (r: Self)
        ensures
            r@ == self@,
    {
        copy_attributes(self)
    }
}

impl Default for Attributes {
    fn default() -> (m: Self)
        ensures
            m@ == AttributesModel::empty(),
    {
        Attributes::new()
    }
}

impl Default for Generator {
    fn default() -> (g: Self)
        ensures
            g == Generator::Nothing,
    {
        Generator::Nothing
    }
}

impl Default for Attribute {
    fn default() -> (a: Self)
        ensures
            a@ == bare(GeneratorModel::Nothing, None),
    {
        let a = Attribute {
            generator: Generator::Nothing,
            replace: false,
            chance: None,
            requires: Vec::new(),
        };
        assert(a@.requires =~= Seq::empty());
        a
    }
}

/// An attribute that has only a generator and a chance.
pub open spec fn bare(generator: GeneratorModel, chance: Option<Chance>) -> AttributeModel {
    AttributeModel { generator, replace: false, chance, requires: Seq::empty() }
}

/// The name under which a generator without a name of its own is filed:
/// `gen0`, `gen1` and so on.
pub open spec fn synthetic_name(i: nat) -> Seq<char> {
    "gen"@ + decimal(i)
}

/// The number of the first synthetic name from `i` on that `options` does not
/// hold, looking at no more than `limit` names.
pub open spec fn free_number(options: AttributesModel, i: nat, limit: nat) -> nat
    decreases limit,
{
    if limit == 0 || first(options, synthetic_name(i)) is None {
        i
    } else {
        free_number(options, i + 1, (limit - 1) as nat)
    }
}

/// The first synthetic name that `options` does not hold.
pub open spec fn free_name(options: AttributesModel) -> Seq<char> {
    synthetic_name(free_number(options, 0, options.len()))
}

/// Two synthetic names are the same only where their numbers are.
pub proof fn lemma_synthetic_names_differ(i: nat, j: nat)
    requires
        i != j,
    ensures
        synthetic_name(i) != synthetic_name(j),
{
    lemma_decimal(i);
    lemma_decimal(j);
    let prefix = "gen"@;
    if synthetic_name(i) == synthetic_name(j) {
        assert(decimal(i) =~= synthetic_name(i).skip(prefix.len() as int));
        assert(decimal(j) =~= synthetic_name(j).skip(prefix.len() as int));
    }
}

/// `free_number` passes over names that are held, and stops before the limit
/// only at a name that is not.
pub proof fn lemma_free_number(options: AttributesModel, i: nat, limit: nat)
    ensures
        i <= free_number(options, i, limit) <= i + limit,
        forall|j: nat|
            i <= j < free_number(options, i, limit) ==> first(options, #[trigger] synthetic_name(j))
                is Some,
        free_number(options, i, limit) < i + limit ==> first(
            options,
            synthetic_name(free_number(options, i, limit)),
        ) is None,
    decreases limit,
{
    if limit > 0 && first(options, synthetic_name(i)) is Some {
        lemma_free_number(options, i + 1, (limit - 1) as nat);
    }
}

/// Options that hold as many synthetic names as there are options hold no
/// other name.
pub proof fn lemma_all_taken(options: AttributesModel, name: Seq<char>)
    requires
        forall|j: nat| j < options.len() ==> first(options, #[trigger] synthetic_name(j)) is Some,
        forall|j: nat| j < options.len() ==> name != #[trigger] synthetic_name(j),
    ensures
        first(options, name) is None,
{
    let n = options.len() as int;
    let place = |j: int| first(options, synthetic_name(j as nat))->0;
    let numbers = set_int_range(0, n);
    let places = numbers.map(place);
    lemma_int_range(0, n);
    assert forall|a: int, b: int|
        numbers.contains(a) && numbers.contains(b) && #[trigger] place(a) == #[trigger] place(
            b,
        ) implies a == b by {
        lemma_first(options, synthetic_name(a as nat));
        lemma_first(options, synthetic_name(b as nat));
        if a != b {
            lemma_synthetic_names_differ(a as nat, b as nat);
        }
    }
    assert(vstd::relations::injective_on(place, numbers));
    lemma_map_size(numbers, places, place);
    assert(places.subset_of(numbers)) by {
        assert forall|p: int| places.contains(p) implies numbers.contains(p) by {
            let j = choose|j: int| numbers.contains(j) && place(j) == p;
            lemma_first(options, synthetic_name(j as nat));
        }
    }
    lemma_subset_equality(places, numbers);
    lemma_first(options, name);
    if first(options, name) is Some {
        let p = first(options, name)->0;
        assert(numbers.contains(p));
        assert(places.contains(p));
        let j = choose|j: int| numbers.contains(j) && place(j) == p;
        lemma_first(options, synthetic_name(j as nat));
        assert(options[p].0 == synthetic_name(j as nat));
    }
}

/// The free name is a name that the options do not hold.
pub proof fn lemma_free_name(options: AttributesModel)
    ensures
        first(options, free_name(options)) is None,
{
    let k = free_number(options, 0, options.len());
    lemma_free_number(options, 0, options.len());
    if k == options.len() {
        assert forall|j: nat| j < options.len() implies free_name(options) != #[trigger] synthetic_name(
            j,
        ) by {
            lemma_synthetic_names_differ(k, j);
        }
        lemma_all_taken(options, free_name(options));
    }
}

/// The child's options after one option of the parent was merged in: an
/// option that the child has too gets the parent's requirements appended,
/// unless the child's option replaces; one that the child lacks is taken
/// over, with the child's chance where it has one.
pub open spec fn merge_option(
    child: AttributesModel,
    entry: (Seq<char>, AttributeModel),
    chance: Option<Chance>,
) -> AttributesModel {
    match first(child, entry.0) {
        Some(j) => if child[j].1.replace {
            child
        } else {
            child.update(
                j,
                (
                    child[j].0,
                    AttributeModel {
                        requires: child[j].1.requires + entry.1.requires,
                        ..child[j].1
                    },
                ),
            )
        },
        None => put(
            child,
            entry.0,
            if chance is Some {
                AttributeModel { chance, ..entry.1 }
            } else {
                entry.1
            },
        ),
    }
}

/// The child's options after the parent's options were merged in, one after
/// the other in their order.
pub open spec fn merge_options(
    child: AttributesModel,
    parent: AttributesModel,
    chance: Option<Chance>,
) -> AttributesModel
    decreases parent.len(),
{
    if parent.len() == 0 {
        child
    } else {
        merge_options(merge_option(child, parent[0], chance), parent.drop_first(), chance)
    }
}

/// The generator of a child after its parent's generator was merged in.
pub open spec fn merge_generators(
    child: GeneratorModel,
    parent: GeneratorModel,
    chance: Option<Chance>,
) -> GeneratorModel {
    match (child, parent) {
        (GeneratorModel::Choose(options), GeneratorModel::Choose(inherited)) => GeneratorModel::Choose(
            merge_options(options, inherited, chance),
        ),
        (GeneratorModel::Choose(options), _) => GeneratorModel::Choose(
            put(options, free_name(options), bare(parent, chance)),
        ),
        (GeneratorModel::Nothing, GeneratorModel::Nothing) => GeneratorModel::Nothing,
        _ => GeneratorModel::Choose(
            put(
                put(Seq::empty(), synthetic_name(0), bare(child, None)),
                synthetic_name(1),
                bare(parent, chance),
            ),
        ),
    }
}

/// The child after its parent was merged into it. A child that replaces stays
/// as it is; any other keeps enforcing its own requirements and its
/// parent's, and has the two generators merged.
pub open spec fn merge(child: AttributeModel, parent: AttributeModel) -> AttributeModel {
    if child.replace {
        child
    } else {
        AttributeModel {
            generator: merge_generators(child.generator, parent.generator, child.chance),
            requires: child.requires + parent.requires,
            ..child
        }
    }
}

/// The synthetic name with the number `i`.
pub fn synthetic_name_of(i: usize) -> (name: String)
    ensures
        name@ == synthetic_name(i as nat),
{
    let mut out = chars_of("gen");
    let digits = decimal_of(i);
    append_chars(&mut out, &digits);
    string_from(&out)
}

impl Attributes {
    /// The first synthetic name that the map does not hold.
    pub fn free_name(&self) -> (name: String)
        ensures
            name@ == free_name(self@),
            first(self@, name@) is None,
    {
        proof {
            lemma_free_name(self@);
        }
        let mut i: usize = 0;
        while i < self.entries.len()
            invariant
                i <= self.entries.len(),
                free_number(self@, 0, self@.len()) == free_number(
                    self@,
                    i as nat,
                    (self@.len() - i) as nat,
                ),
            decreases self.entries.len() - i,
        {
            let name = synthetic_name_of(i);
            if !self.contains_key(name.as_str()) {
                return name;
            }
            i += 1;
        }
        synthetic_name_of(i)
    }

    /// Appends copies of `more` to the requirements of the entry at `j`.
    pub fn extend_requires(&mut self, j: usize, more: &Vec<Requirement>)
        requires
            j < old(self)@.len(),
        ensures
            final(self)@ == old(self)@.update(
                j as int,
                (
                    old(self)@[j as int].0,
                    AttributeModel {
                        requires: old(self)@[j as int].1.requires + requirement_views(more@),
                        ..old(self)@[j as int].1
                    },
                ),
            ),
            sorted(old(self)@) ==> sorted(final(self)@),
    {
        let ghost before = self@;
        let (name, mut attribute) = self.entries.remove(j);
        append_requirements(&mut attribute.requires, more);
        self.entries.insert(j, (name, attribute));
        assert(self@ =~= before.update(
            j as int,
            (
                before[j as int].0,
                AttributeModel {
                    requires: before[j as int].1.requires + requirement_views(more@),
                    ..before[j as int].1
                },
            ),
        ));
        proof {
            if sorted(before) {
                lemma_update_sorted(before, j as int, self@[j as int].1);
            }
        }
    }

    /// Merges `parent` into the attribute at `j`.
    pub fn merge_into(&mut self, j: usize, parent: Attribute)
        requires
            j < old(self)@.len(),
        ensures
            final(self)@ == old(self)@.update(
                j as int,
                (old(self)@[j as int].0, merge(old(self)@[j as int].1, parent@)),
            ),
            sorted(old(self)@) ==> sorted(final(self)@),
    {
        let ghost before = self@;
        let (name, mut attribute) = self.entries.remove(j);
        attribute.add_assign(parent);
        self.entries.insert(j, (name, attribute));
        assert(self@ =~= before.update(
            j as int,
            (before[j as int].0, merge(before[j as int].1, parent@)),
        ));
        proof {
            if sorted(before) {
                lemma_update_sorted(before, j as int, self@[j as int].1);
            }
        }
    }

    /// Merges one option of a parent into the map.
    pub fn merge_option(&mut self, name: &String, inherited: &Attribute, chance: Option<Chance>)
        ensures
            final(self)@ == merge_option(old(self)@, (name@, inherited@), chance),
            sorted(old(self)@) ==> sorted(final(self)@),
    {
        match self.position(name.as_str()) {
            Some(j) => {
                if !self.entries[j].1.replace {
                    self.extend_requires(j, &inherited.requires);
                }
            },
            None => {
                let mut value = copy_attribute(inherited);
                if chance.is_some() {
                    value.chance = chance;
                }
                self.insert(name.clone(), value);
            },
        }
    }

    /// Merges the options of a parent into the map, in their order.
    pub fn merge_options(&mut self, inherited: &Attributes, chance: Option<Chance>)
        ensures
            final(self)@ == merge_options(old(self)@, inherited@, chance),
            sorted(old(self)@) ==> sorted(final(self)@),
    {
        let mut i: usize = 0;
        assert(inherited@.skip(0) == inherited@);
        while i < inherited.entries.len()
            invariant
                i <= inherited.entries.len(),
                sorted(old(self)@) ==> sorted(self@),
                merge_options(old(self)@, inherited@, chance) == merge_options(
                    self@,
                    inherited@.skip(i as int),
                    chance,
                ),
            decreases inherited.entries.len() - i,
        {
            let ghost rest = inherited@.skip(i as int);
            assert(rest[0] == inherited@[i as int]);
            assert(rest.drop_first() == inherited@.skip(i + 1));
            self.merge_option(&inherited.entries[i].0, &inherited.entries[i].1, chance);
            i += 1;
        }
    }
}

/// An attribute that has only a generator and a chance.
pub fn bare_attribute(generator: Generator, chance: Option<Chance>) -> (a: Attribute)
    ensures
        a@ == bare(generator@, chance),
{
    let a = Attribute { generator, replace: false, chance, requires: Vec::new() };
    assert(a@.requires =~= Seq::empty());
    a
}

/// Merges the generator of a parent into that of a child.
pub fn merged_generator(child: Generator, parent: Generator, chance: Option<Chance>) -> (r:
    Generator)
    ensures
        r@ == merge_generators(child@, parent@, chance),
{
    match child {
        Generator::Choose(mut options) => {
            match parent {
                Generator::Choose(inherited) => {
                    options.merge_options(&inherited, chance);
                },
                other => {
                    let name = options.free_name();
                    options.insert(name, bare_attribute(other, chance));
                },
            }
            Generator::Choose(options)
        },
        own => {
            let both_nothing = match (&own, &parent) {
                (Generator::Nothing, Generator::Nothing) => true,
                _ => false,
            };
            if both_nothing {
                Generator::Nothing
            } else {
                let mut options = Attributes::new();
                options.insert(synthetic_name_of(0), bare_attribute(own, None));
                options.insert(synthetic_name_of(1), bare_attribute(parent, chance));
                Generator::Choose(options)
            }
        },
    }
}

impl Attribute {
    /// Merges `rhs`, the parent's attribute of the same name, into `self`.
    pub fn add_assign(&mut self, rhs: Attribute)
        ensures
            final(self)@ == merge(old(self)@, rhs@),
            old(self).replace ==> final(self)@ == old(self)@,
            ordered(old(self)@.generator) && ordered(rhs@.generator) ==> ordered(
                final(self)@.generator,
            ),
    {
        proof {
            if ordered(self@.generator) && ordered(rhs@.generator) {
                lemma_merge_ordered(self@, rhs@);
            }
        }
        if self.replace {
            return ;
        }
        let mut child = Attribute::default();
        core::mem::swap(self, &mut child);
        let chance = child.chance;
        let mut gates = child.requires;
        append_requirements(&mut gates, &rhs.requires);
        let generator = merged_generator(child.generator, rhs.generator, chance);
        *self = Attribute { generator, replace: child.replace, chance, requires: gates };
    }
}

impl core::ops::AddAssign for Attribute {
    fn add_assign(&mut self, rhs: Attribute)
        ensures
            final(self)@ == merge(old(self)@, rhs@),
    {
        Attribute::add_assign(self, rhs)
    }
}

} // verus!
