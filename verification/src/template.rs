//! Templates: the attributes of a kind of thing, the order in which they are
//! generated, and the texts that render them.

use vstd::prelude::*;
use crate::attribute::{
    AttributeModel, Attributes, AttributesModel, GeneratorModel, copy_attribute, merge, put,
};
use crate::dict::{Dict, as_map, first};
use crate::formatting::{Formatting, parse_formatting, render};
use crate::generate::{attribute_generate_model, lemma_generate_frame};
use crate::order::{lemma_inherit_ordered, well_ordered};
use crate::query::always_yields;
use crate::random::{Picker, lemma_nothing_before, lemma_regroup};
use crate::requirement::{Denied, Generated, Possibility, Requirement, requirement_views};
use crate::resolve::{add_requirements_with, lemma_preset_fixes, resolve};
use crate::text::{append_str, chars_of, quoted, quoted_of, string_from};

verus! {

/// The attributes of a kind of thing, with the order in which they are
/// generated and the texts that render them.
#[derive(Debug)]
pub struct Template {
    /// The names of the attributes in the order in which they are generated.
    pub order: Vec<String>,
    pub attributes: Attributes,
    /// Names of `order` that stand for attributes of another name.
    pub rename: Dict<String>,
    /// Named texts that render what was generated.
    pub formatting: Dict<String>,
}

/// A template as a plain value.
pub struct TemplateModel {
    pub order: Seq<Seq<char>>,
    pub attributes: AttributesModel,
    pub rename: Map<Seq<char>, Seq<char>>,
    pub formatting: Map<Seq<char>, Seq<char>>,
}

impl View for Template {
    type V = TemplateModel;

    open spec fn view(&self) -> TemplateModel {
        TemplateModel {
            order: self.order.deep_view(),
            attributes: self.attributes@,
            rename: self.rename@,
            formatting: self.formatting@,
        }
    }
}

/// The name that `name` stands for.
pub open spec fn renamed(rename: Map<Seq<char>, Seq<char>>, name: Seq<char>) -> Seq<char> {
    if rename.contains_key(name) {
        rename[name]
    } else {
        name
    }
}

/// The child's attributes after one attribute of the parent was taken over:
/// under its name, or the name that stands for it, it is merged into the
/// child's attribute of that name, or put there where the child has none.
pub open spec fn inherit_one(
    child: AttributesModel,
    entry: (Seq<char>, AttributeModel),
    rename: Map<Seq<char>, Seq<char>>,
) -> AttributesModel {
    let name = renamed(rename, entry.0);
    match first(child, name) {
        Some(j) => child.update(j, (child[j].0, merge(child[j].1, entry.1))),
        None => put(child, name, entry.1),
    }
}

/// The child's attributes after the parent's attributes were taken over, one
/// after the other in their order.
pub open spec fn inherit_all(
    child: AttributesModel,
    parent: AttributesModel,
    rename: Map<Seq<char>, Seq<char>>,
) -> AttributesModel
    decreases parent.len(),
{
    if parent.len() == 0 {
        child
    } else {
        inherit_all(inherit_one(child, parent[0], rename), parent.drop_first(), rename)
    }
}

/// The template that a child is once it is derived from a parent: the
/// parent's attributes are generated first, the child's renames override
/// the parent's, and the parent's attributes are taken over. The texts are
/// the child's own.
pub open spec fn inherit(child: TemplateModel, parent: TemplateModel) -> TemplateModel {
    let rename = parent.rename.union_prefer_right(child.rename);
    TemplateModel {
        order: parent.order + child.order,
        attributes: inherit_all(child.attributes, parent.attributes, rename),
        rename,
        formatting: child.formatting,
    }
}

/// What walking the order from position `from` on leaves generated, and what
/// it leaves of the numbers: each name, or the name it stands for, has its
/// attribute generated; a name without an attribute is passed over.
pub open spec fn walk(
    template: TemplateModel,
    from: int,
    generated: Map<Seq<char>, Seq<char>>,
    denied: Map<Seq<char>, Seq<Seq<char>>>,
    picks: Seq<nat>,
) -> (Map<Seq<char>, Seq<char>>, Seq<nat>)
    decreases template.order.len() - from,
{
    if from < 0 || from >= template.order.len() {
        (generated, picks)
    } else {
        let name = renamed(template.rename, template.order[from]);
        match first(template.attributes, name) {
            Some(i) => {
                let (next, rest) = attribute_generate_model(
                    template.attributes[i].1,
                    name,
                    generated,
                    denied,
                    template.attributes,
                    template.attributes.len(),
                    picks,
                );
                walk(template, from + 1, next, denied, rest)
            },
            None => walk(template, from + 1, generated, denied, picks),
        }
    }
}

/// What one generation run leaves generated, and what it leaves of the
/// numbers: the presets are settled first, then the order is walked.
pub open spec fn run(template: TemplateModel, presets: Seq<Seq<Possibility>>, picks: Seq<nat>) -> (
    Map<Seq<char>, Seq<char>>,
    Seq<nat>,
) {
    let (generated, denied, rest) = resolve(
        presets,
        Seq::empty(),
        Map::empty(),
        Map::empty(),
        template.attributes,
        picks,
    );
    walk(template, 0, generated, denied, rest)
}

/// The lines of a dump for the first `n` pairs: each pair indented, its
/// name and its value quoted, with a comma at the end.
pub open spec fn dump_lines(pairs: Seq<(Seq<char>, Seq<char>)>, n: int) -> Seq<char>
    decreases n,
{
    if n <= 0 || n > pairs.len() {
        Seq::empty()
    } else {
        dump_lines(pairs, n - 1) + "    "@ + quoted(pairs[n - 1].0) + ": "@ + quoted(pairs[n - 1].1)
            + ",\n"@
    }
}

/// What was generated, written out pair by pair between braces.
pub open spec fn dump(pairs: Seq<(Seq<char>, Seq<char>)>) -> Seq<char> {
    if pairs.len() == 0 {
        "{}"@
    } else {
        "{\n"@ + dump_lines(pairs, pairs.len() as int) + "}"@
    }
}

/// What a template renders under the name `formatting`: the dump under the
/// name `json`; otherwise the text filed under the name, or the name itself
/// taken as the text, read as a template and rendered.
pub open spec fn formatted(
    template: TemplateModel,
    pairs: Seq<(Seq<char>, Seq<char>)>,
    formatting: Seq<char>,
) -> Seq<char> {
    if formatting == "json"@ {
        dump(pairs)
    } else {
        let text = if template.formatting.contains_key(formatting) {
            template.formatting[formatting]
        } else {
            formatting
        };
        render(parse_formatting(text), as_map(pairs))
    }
}

/// Whether the attribute named `key`, if there is one, picks its value with
/// `Choose`.
pub open spec fn chooses(attributes: AttributesModel, key: Seq<char>) -> bool {
    first(attributes, key) matches Some(i) ==> attributes[i].1.generator is Choose
}

/// Walking the order leaves the value of an attribute that picks its value
/// with `Choose` as it is, once it has one.
pub proof fn lemma_walk_keeps(
    template: TemplateModel,
    from: int,
    generated: Map<Seq<char>, Seq<char>>,
    denied: Map<Seq<char>, Seq<Seq<char>>>,
    picks: Seq<nat>,
    key: Seq<char>,
)
    requires
        generated.contains_key(key),
        chooses(template.attributes, key),
    ensures
        walk(template, from, generated, denied, picks).0.contains_key(key),
        walk(template, from, generated, denied, picks).0[key] == generated[key],
    decreases template.order.len() - from,
{
    if 0 <= from < template.order.len() {
        let name = renamed(template.rename, template.order[from]);
        match first(template.attributes, name) {
            Some(i) => {
                let (next, rest) = attribute_generate_model(
                    template.attributes[i].1,
                    name,
                    generated,
                    denied,
                    template.attributes,
                    template.attributes.len(),
                    picks,
                );
                if name != key {
                    lemma_generate_frame(
                        template.attributes[i].1.generator,
                        name,
                        generated,
                        denied,
                        template.attributes,
                        template.attributes.len(),
                        picks,
                        key,
                    );
                }
                lemma_walk_keeps(template, from + 1, next, denied, rest, key);
            },
            None => {
                lemma_walk_keeps(template, from + 1, generated, denied, picks, key);
            },
        }
    }
}

/// A preset that names one value for an attribute that picks its value with
/// `Choose` decides the value: the run leaves the attribute with that value,
/// whatever the numbers and the weights are.
pub proof fn lemma_preset_decides(
    template: TemplateModel,
    key: Seq<char>,
    value: Seq<char>,
    picks: Seq<nat>,
)
    requires
        chooses(template.attributes, key),
    ensures
        run(template, seq![seq![(key, value, false)]], picks).0.contains_key(key),
        run(template, seq![seq![(key, value, false)]], picks).0[key] == value,
{
    let settled = resolve(
        seq![seq![(key, value, false)]],
        Seq::empty(),
        Map::empty(),
        Map::empty(),
        template.attributes,
        picks,
    );
    lemma_preset_fixes(key, value, Map::empty(), Map::empty(), template.attributes, picks);
    lemma_walk_keeps(template, 0, settled.0, settled.1, settled.2, key);
}

/// Two runs decided by the same numbers leave the same generated: where
/// each run used up a part of one stream of numbers from its start, the runs
/// used the same part and agree.
pub proof fn lemma_same_numbers_same_run(
    template: TemplateModel,
    presets: Seq<Seq<Possibility>>,
    stream: Seq<nat>,
    first_used: nat,
    second_used: nat,
    first_result: Map<Seq<char>, Seq<char>>,
    second_result: Map<Seq<char>, Seq<char>>,
)
    requires
        first_used <= stream.len(),
        second_used <= stream.len(),
        forall|rest: Seq<nat>|
            #[trigger] run(template, presets, stream.take(first_used as int) + rest) == (
                first_result,
                rest,
            ),
        forall|rest: Seq<nat>|
            #[trigger] run(template, presets, stream.take(second_used as int) + rest) == (
                second_result,
                rest,
            ),
    ensures
        first_result == second_result,
        first_used == second_used,
{
    let a = stream.take(first_used as int);
    let b = stream.take(second_used as int);
    let after_a = stream.skip(first_used as int);
    let after_b = stream.skip(second_used as int);
    assert(a + after_a =~= stream);
    assert(b + after_b =~= stream);
    assert(run(template, presets, a + after_a) == (first_result, after_a));
    assert(run(template, presets, b + after_b) == (second_result, after_b));
    assert(after_a.len() == stream.len() - first_used);
    assert(after_b.len() == stream.len() - second_used);
}

/// A copy of a list of names.
fn copy_order(list: &Vec<String>) -> (r: Vec<String>)
    ensures
        r.deep_view() == list.deep_view(),
{
    let mut r: Vec<String> = Vec::new();
    let mut i: usize = 0;
    while i < list.len()
        invariant
            i <= list.len(),
            r.len() == i,
            forall|j: int| 0 <= j < i ==> (#[trigger] r[j])@ == list[j]@,
        decreases list.len() - i,
    {
        r.push(list[i].clone());
        i += 1;
    }
    assert(r.deep_view() =~= list.deep_view());
    r
}

/// Writes out what was generated, pair by pair between braces.
pub fn dump_of(generated: &Generated) -> (s: String)
    ensures
        s@ == dump(generated.pairs()),
{
    if generated.len() == 0 {
        return "{}".to_owned();
    }
    let mut out = chars_of("{\n");
    let ghost open = out@;
    let mut i: usize = 0;
    while i < generated.len()
        invariant
            i <= generated.pairs().len(),
            open == "{\n"@,
            out@ == open + dump_lines(generated.pairs(), i as int),
        decreases generated.pairs().len() - i,
    {
        let ghost before = out@;
        append_str(&mut out, "    ");
        append_str(&mut out, quoted_of(generated.name_at(i).as_str()).as_str());
        append_str(&mut out, ": ");
        append_str(&mut out, quoted_of(generated.value_at(i).as_str()).as_str());
        append_str(&mut out, ",\n");
        proof {
            let pairs = generated.pairs();
            let line = "    "@ + quoted(pairs[i as int].0) + ": "@ + quoted(pairs[i as int].1)
                + ",\n"@;
            assert(out@ =~= before + line);
            assert(dump_lines(pairs, i + 1) =~= dump_lines(pairs, i as int) + line);
            assert(open + (dump_lines(pairs, i as int) + line) =~= before + line);
        }
        i += 1;
    }
    append_str(&mut out, "}");
    string_from(&out)
}

impl Template {
    /// Derives `self` from `parent`: the parent's order comes first, the
    /// renames of `self` override the parent's, and each attribute of the
    /// parent is merged into the attribute of `self` of the same name, or
    /// taken over where `self` has none.
    pub fn inherit(&mut self, parent: &Template)
        ensures
            final(self)@ == inherit(old(self)@, parent@),
            well_ordered(old(self)@.attributes) && well_ordered(parent@.attributes)
                ==> well_ordered(final(self)@.attributes),
    {
        proof {
            if well_ordered(self@.attributes) && well_ordered(parent@.attributes) {
                lemma_inherit_ordered(self@, parent@);
            }
        }
        let ghost child = self@;
        let mut order = copy_order(&parent.order);
        let ghost front = order.deep_view();
        order.append(&mut self.order);
        assert(order.deep_view() =~= front + child.order);
        self.order = order;
        let mut rename = parent.rename.copy();
        rename.absorb(&self.rename);
        self.rename = rename;
        let mut i: usize = 0;
        assert(parent.attributes@.skip(0) == parent.attributes@);
        while i < parent.attributes.len()
            invariant
                i <= parent.attributes@.len(),
                inherit_all(child.attributes, parent.attributes@, self.rename@) == inherit_all(
                    self.attributes@,
                    parent.attributes@.skip(i as int),
                    self.rename@,
                ),
                self.rename@ == parent.rename@.union_prefer_right(child.rename),
                self.order.deep_view() == parent.order.deep_view() + child.order,
                self.formatting@ == child.formatting,
            decreases parent.attributes@.len() - i,
        {
            let ghost rest = parent.attributes@.skip(i as int);
            assert(rest[0] == parent.attributes@[i as int]);
            assert(rest.drop_first() == parent.attributes@.skip(i + 1));
            let name = parent.attributes.name_at(i);
            let name = match self.rename.get(name.as_str()) {
                Some(other) => other.clone(),
                None => name.clone(),
            };
            let inherited = copy_attribute(parent.attributes.attribute_at(i));
            match self.attributes.position(name.as_str()) {
                Some(j) => self.attributes.merge_into(j, inherited),
                None => self.attributes.insert(name, inherited),
            }
            i += 1;
        }
    }

    /// Whether the attribute `name` always comes out as `value`.
    pub fn always(&self, name: &str, value: &str) -> (r: bool)
        ensures
            r == match first(self@.attributes, name@) {
                Some(i) => always_yields(
                    self@.attributes[i].1.generator,
                    value@,
                    self@.attributes,
                    self@.attributes.len(),
                ),
                None => false,
            },
    {
        match self.attributes.get(name) {
            Some(attribute) => attribute.generator.always(value, &self.attributes),
            None => false,
        }
    }

    /// One generation run with numbers from `picker`: settles the presets,
    /// then generates the attributes in their order.
    pub fn generate_with(&self, presets: Vec<Requirement>, picker: &mut Picker) -> (generated:
        Generated)
        requires
            old(picker).wf(),
        ensures
            final(picker).extends(*old(picker), final(picker).since(*old(picker))),
            forall|rest: Seq<nat>|
                #[trigger] run(
                    self@,
                    requirement_views(presets@),
                    final(picker).since(*old(picker)) + rest,
                ) == (generated@, rest),
    {
        let ghost start = *picker;
        let ghost goal = requirement_views(presets@);
        let mut generated: Generated = Dict::new();
        let mut denied: Denied = Dict::new();
        add_requirements_with(&presets, &mut generated, &mut denied, &self.attributes, picker);
        let ghost settled = picker.since(start);
        let ghost g1 = generated@;
        let ghost d1 = denied@;
        let mut i: usize = 0;
        proof {
            assert forall|rest: Seq<nat>|
                #[trigger] run(self@, goal, picker.since(start) + rest) == walk(
                    self@,
                    i as int,
                    generated@,
                    denied@,
                    rest,
                ) by {
                assert(resolve(
                    goal,
                    Seq::empty(),
                    Map::empty(),
                    Map::empty(),
                    self@.attributes,
                    settled + rest,
                ) == (g1, d1, rest));
            }
        }
        while i < self.order.len()
            invariant
                i <= self.order.len(),
                picker.extends(start, picker.since(start)),
                forall|rest: Seq<nat>|
                    #[trigger] run(self@, goal, picker.since(start) + rest) == walk(
                        self@,
                        i as int,
                        generated@,
                        denied@,
                        rest,
                    ),
            decreases self.order.len() - i,
        {
            let ghost middle = *picker;
            let ghost used = picker.since(start);
            let ghost g = generated@;
            let listed = &self.order[i];
            assert(self@.order[i as int] == listed@);
            let name = match self.rename.get(listed.as_str()) {
                Some(other) => other,
                None => listed,
            };
            assert(name@ == renamed(self@.rename, self@.order[i as int]));
            match self.attributes.get(name.as_str()) {
                Some(attribute) => {
                    attribute.generate_with(
                        name.as_str(),
                        &mut generated,
                        &denied,
                        &self.attributes,
                        self.attributes.len(),
                        picker,
                    );
                },
                None => {
                    proof {
                        assert(picker.drawn() =~= picker.drawn() + Seq::<nat>::empty());
                    }
                },
            }
            proof {
                let more = picker.since(middle);
                assert(picker.extends(middle, more)) by {
                    assert(picker.drawn() =~= middle.drawn() + more);
                }
                picker.lemma_extends(middle, start, used, more);
                assert forall|rest: Seq<nat>|
                    #[trigger] run(self@, goal, picker.since(start) + rest) == walk(
                        self@,
                        i + 1,
                        generated@,
                        denied@,
                        rest,
                    ) by {
                    lemma_regroup(used, more, rest);
                    let picks = more + rest;
                    assert(run(self@, goal, used + picks) == walk(
                        self@,
                        i as int,
                        g,
                        denied@,
                        picks,
                    ));
                    match first(self@.attributes, name@) {
                        Some(k) => {
                            assert(attribute_generate_model(
                                self@.attributes[k].1,
                                name@,
                                g,
                                denied@,
                                self@.attributes,
                                self@.attributes.len(),
                                more + rest,
                            ) == (generated@, rest));
                        },
                        None => {
                            assert(more =~= Seq::<nat>::empty());
                            lemma_nothing_before(rest);
                        },
                    }
                }
            }
            i += 1;
        }
        generated
    }

    /// Renders what was generated: as a dump under the name `json`,
    /// otherwise with the text filed under the name `formatting`, or with
    /// `formatting` itself where no text is filed under it.
    pub fn format(&self, generated: &Generated, formatting: &str) -> (r: Result<String, String>)
        ensures
            r matches Ok(s) && s@ == formatted(self@, generated.pairs(), formatting@),
    {
        let json = "json".to_owned();
        if formatting.to_owned() == json {
            Ok(dump_of(generated))
        } else {
            let parsed = match self.formatting.get(formatting) {
                Some(text) => Formatting::parse_chars(&chars_of(text.as_str())),
                None => Formatting::parse_chars(&chars_of(formatting)),
            };
            Ok(parsed.format(generated))
        }
    }

    /// One generation run with numbers drawn at random.
    pub fn generate(&self, presets: Vec<Requirement>) -> (generated: Generated)
        ensures
            exists|picks: Seq<nat>| #[trigger] run(self@, requirement_views(presets@), picks).0
                == generated@,
    {
        let mut picker = Picker::random();
        let ghost start = picker;
        let ghost goal = requirement_views(presets@);
        let generated = self.generate_with(presets, &mut picker);
        proof {
            let used = picker.since(start);
            assert(used + Seq::<nat>::empty() =~= used);
            assert(run(self@, goal, used + Seq::<nat>::empty()) == (
                generated@,
                Seq::<nat>::empty(),
            ));
            assert(run(self@, goal, used).0 == generated@);
        }
        generated
    }
}

} // verus!
