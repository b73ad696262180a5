//! The order of names, all the way down: every choice of a tree of
//! attributes holds its options in the order of their names, and merging and
//! deriving keep it so.

use vstd::prelude::*;
use crate::attribute::{
    AttributeModel, AttributesModel, GeneratorModel, bare, free_name, lemma_put_sorted,
    lemma_update_sorted, merge, merge_option, merge_options, put, sorted, synthetic_name,
};
use crate::chance::Chance;
use crate::dict::{first, lemma_first};
use crate::template::{TemplateModel, inherit, inherit_all, inherit_one, renamed};
use crate::text::lex_less;

verus! {

/// Whether every choice within the generator, itself included, holds its
/// options in the strict order of their names.
pub open spec fn ordered(generator: GeneratorModel) -> bool
    decreases generator, 0nat,
{
    match generator {
        GeneratorModel::Choose(options) => sorted(options) && ordered_from(options, 0),
        _ => true,
    }
}

/// Whether the generators of the options from position `from` on are
/// ordered.
pub open spec fn ordered_from(options: AttributesModel, from: int) -> bool
    decreases options, options.len() - from,
{
    if 0 <= from < options.len() {
        ordered(options[from].1.generator) && ordered_from(options, from + 1)
    } else {
        true
    }
}

/// Whether named attributes stand in order, all the way down.
pub open spec fn well_ordered(attributes: AttributesModel) -> bool {
    ordered(GeneratorModel::Choose(attributes))
}

/// The options from a position on are ordered exactly where each of them is.
pub proof fn lemma_ordered_from(options: AttributesModel, from: int)
    requires
        0 <= from,
    ensures
        ordered_from(options, from) <==> forall|i: int|
            from <= i < options.len() ==> ordered(#[trigger] options[i].1.generator),
    decreases options.len() - from,
{
    if from < options.len() {
        lemma_ordered_from(options, from + 1);
        if ordered_from(options, from) {
            assert forall|i: int| from <= i < options.len() implies ordered(
                #[trigger] options[i].1.generator,
            ) by {
                if i > from {
                    assert(ordered_from(options, from + 1));
                }
            }
        }
    }
}

/// Each entry of what `put` gives is the pair that was put or one of the
/// entries.
pub proof fn lemma_put_members(
    entries: AttributesModel,
    key: Seq<char>,
    value: AttributeModel,
    i: int,
)
    requires
        0 <= i < put(entries, key, value).len(),
    ensures
        put(entries, key, value)[i] == (key, value) || exists|j: int|
            0 <= j < entries.len() && #[trigger] entries[j] == put(entries, key, value)[i],
    decreases entries.len(),
{
    let after = put(entries, key, value);
    if entries.len() == 0 {
    } else if entries[0].0 == key {
        if i > 0 {
            assert(entries[i] == after[i]);
        }
    } else if lex_less(key, entries[0].0) {
        if i > 0 {
            assert(entries[i - 1] == after[i]);
        }
    } else {
        let rest = entries.drop_first();
        if i == 0 {
            assert(entries[0] == after[0]);
        } else {
            lemma_put_members(rest, key, value, i - 1);
            assert(after[i] == put(rest, key, value)[i - 1]);
            if after[i] != (key, value) {
                let j = choose|j: int|
                    0 <= j < rest.len() && #[trigger] rest[j] == put(rest, key, value)[i - 1];
                assert(entries[j + 1] == rest[j]);
            }
        }
    }
}

/// Putting an ordered attribute into ordered attributes leaves them ordered.
pub proof fn lemma_put_ordered(entries: AttributesModel, key: Seq<char>, value: AttributeModel)
    requires
        well_ordered(entries),
        ordered(value.generator),
    ensures
        well_ordered(put(entries, key, value)),
{
    let after = put(entries, key, value);
    lemma_put_sorted(entries, key, value);
    lemma_ordered_from(entries, 0);
    lemma_ordered_from(after, 0);
    assert forall|i: int| 0 <= i < after.len() implies ordered(#[trigger] after[i].1.generator) by {
        lemma_put_members(entries, key, value, i);
        if after[i] != (key, value) {
            let j = choose|j: int| 0 <= j < entries.len() && #[trigger] entries[j] == after[i];
            assert(ordered(entries[j].1.generator));
        }
    }
}

/// Ordered attributes with another ordered attribute at one position are
/// ordered.
pub proof fn lemma_update_ordered(entries: AttributesModel, j: int, value: AttributeModel)
    requires
        0 <= j < entries.len(),
        well_ordered(entries),
        ordered(value.generator),
    ensures
        well_ordered(entries.update(j, (entries[j].0, value))),
{
    let after = entries.update(j, (entries[j].0, value));
    lemma_update_sorted(entries, j, value);
    lemma_ordered_from(entries, 0);
    lemma_ordered_from(after, 0);
    assert forall|i: int| 0 <= i < after.len() implies ordered(#[trigger] after[i].1.generator) by {
        if i != j {
            assert(after[i] == entries[i]);
            assert(ordered(entries[i].1.generator));
        }
    }
}

/// Merging an option of a parent into ordered options leaves them ordered.
pub proof fn lemma_merge_option_ordered(
    child: AttributesModel,
    entry: (Seq<char>, AttributeModel),
    chance: Option<Chance>,
)
    requires
        well_ordered(child),
        ordered(entry.1.generator),
    ensures
        well_ordered(merge_option(child, entry, chance)),
{
    lemma_first(child, entry.0);
    lemma_ordered_from(child, 0);
    match first(child, entry.0) {
        Some(j) => {
            if !child[j].1.replace {
                assert(ordered(child[j].1.generator));
                lemma_update_ordered(
                    child,
                    j,
                    AttributeModel {
                        requires: child[j].1.requires + entry.1.requires,
                        ..child[j].1
                    },
                );
            }
        },
        None => {
            lemma_put_ordered(
                child,
                entry.0,
                if chance is Some {
                    AttributeModel { chance, ..entry.1 }
                } else {
                    entry.1
                },
            );
        },
    }
}

/// What follows the first of ordered attributes is ordered.
pub proof fn lemma_rest_ordered(attributes: AttributesModel)
    requires
        attributes.len() > 0,
        well_ordered(attributes),
    ensures
        well_ordered(attributes.drop_first()),
        ordered(attributes[0].1.generator),
{
    let rest = attributes.drop_first();
    lemma_ordered_from(attributes, 0);
    lemma_ordered_from(rest, 0);
    assert forall|i: int, j: int| 0 <= i < j < rest.len() implies lex_less(
        #[trigger] rest[i].0,
        #[trigger] rest[j].0,
    ) by {
        assert(rest[i] == attributes[i + 1] && rest[j] == attributes[j + 1]);
    }
    assert forall|i: int| 0 <= i < rest.len() implies ordered(#[trigger] rest[i].1.generator) by {
        assert(rest[i] == attributes[i + 1]);
        assert(ordered(attributes[i + 1].1.generator));
    }
    assert(ordered(attributes[0].1.generator));
}

/// Merging the ordered options of a parent into ordered options leaves them
/// ordered.
pub proof fn lemma_merge_options_ordered(
    child: AttributesModel,
    parent: AttributesModel,
    chance: Option<Chance>,
)
    requires
        well_ordered(child),
        well_ordered(parent),
    ensures
        well_ordered(merge_options(child, parent, chance)),
    decreases parent.len(),
{
    if parent.len() > 0 {
        lemma_rest_ordered(parent);
        lemma_merge_option_ordered(child, parent[0], chance);
        lemma_merge_options_ordered(
            merge_option(child, parent[0], chance),
            parent.drop_first(),
            chance,
        );
    }
}

/// No attributes at all are ordered.
pub proof fn lemma_empty_ordered()
    ensures
        well_ordered(Seq::empty()),
{
}

/// Merging an ordered parent into an ordered child leaves the child ordered.
pub proof fn lemma_merge_ordered(child: AttributeModel, parent: AttributeModel)
    requires
        ordered(child.generator),
        ordered(parent.generator),
    ensures
        ordered(merge(child, parent).generator),
{
    if !child.replace {
        match (child.generator, parent.generator) {
            (GeneratorModel::Choose(options), GeneratorModel::Choose(inherited)) => {
                lemma_merge_options_ordered(options, inherited, child.chance);
            },
            (GeneratorModel::Choose(options), _) => {
                lemma_put_ordered(
                    options,
                    free_name(options),
                    bare(parent.generator, child.chance),
                );
            },
            (GeneratorModel::Nothing, GeneratorModel::Nothing) => {},
            _ => {
                lemma_empty_ordered();
                let one = put(Seq::empty(), synthetic_name(0), bare(child.generator, None));
                lemma_put_ordered(Seq::empty(), synthetic_name(0), bare(child.generator, None));
                lemma_put_ordered(one, synthetic_name(1), bare(parent.generator, child.chance));
            },
        }
    }
}

/// Taking over one ordered attribute of a parent leaves ordered attributes
/// ordered.
pub proof fn lemma_inherit_one_ordered(
    child: AttributesModel,
    entry: (Seq<char>, AttributeModel),
    rename: Map<Seq<char>, Seq<char>>,
)
    requires
        well_ordered(child),
        ordered(entry.1.generator),
    ensures
        well_ordered(inherit_one(child, entry, rename)),
{
    let name = renamed(rename, entry.0);
    lemma_first(child, name);
    lemma_ordered_from(child, 0);
    match first(child, name) {
        Some(j) => {
            assert(ordered(child[j].1.generator));
            lemma_merge_ordered(child[j].1, entry.1);
            lemma_update_ordered(child, j, merge(child[j].1, entry.1));
        },
        None => {
            lemma_put_ordered(child, name, entry.1);
        },
    }
}

/// Taking over the ordered attributes of a parent leaves ordered attributes
/// ordered.
pub proof fn lemma_inherit_all_ordered(
    child: AttributesModel,
    parent: AttributesModel,
    rename: Map<Seq<char>, Seq<char>>,
)
    requires
        well_ordered(child),
        well_ordered(parent),
    ensures
        well_ordered(inherit_all(child, parent, rename)),
    decreases parent.len(),
{
    if parent.len() > 0 {
        lemma_rest_ordered(parent);
        lemma_inherit_one_ordered(child, parent[0], rename);
        lemma_inherit_all_ordered(inherit_one(child, parent[0], rename), parent.drop_first(), rename);
    }
}

/// A template derived from a parent has its attributes in order, all the way
/// down, where the two templates had.
pub proof fn lemma_inherit_ordered(child: TemplateModel, parent: TemplateModel)
    requires
        well_ordered(child.attributes),
        well_ordered(parent.attributes),
    ensures
        well_ordered(inherit(child, parent).attributes),
{
    lemma_inherit_all_ordered(
        child.attributes,
        parent.attributes,
        parent.rename.union_prefer_right(child.rename),
    );
}

} // verus!
