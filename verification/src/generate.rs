//! Generating the value of one attribute: the options that may be taken, the
//! weighted choice among them, and what each kind of generator does.

use vstd::prelude::*;
use crate::attribute::{Attribute, AttributeModel, Attributes, AttributesModel, Generator, GeneratorModel};
use crate::chance::Chance;
use crate::dict::first;
use crate::random::{Picker, head, lemma_nothing_before, tail, total};
use crate::requirement::{Denied, Generated, lists, meets_all, meets_requirements};

verus! {

/// The names of the options of one tier, for each position of the order of
/// tiers from `Never` to `Always`.
pub type Tiers = Seq<Seq<Seq<char>>>;

/// The chance that counts for an option: its own, or `Standard`.
pub open spec fn effective(option: AttributeModel) -> Chance {
    match option.chance {
        Some(chance) => chance,
        None => Chance::Standard,
    }
}

/// Whether an option may be taken for the attribute `name`: its requirements
/// hold, and its name has not been denied for the attribute.
pub open spec fn eligible(
    option: (Seq<char>, AttributeModel),
    name: Seq<char>,
    generated: Map<Seq<char>, Seq<char>>,
    denied: Map<Seq<char>, Seq<Seq<char>>>,
) -> bool {
    meets_all(option.1.requires, generated, denied) && !(denied.contains_key(name)
        && denied[name].contains(option.0))
}

/// The position of the first option from `from` on that is eligible and
/// marked `Always`, or the number of options where there is none.
pub open spec fn first_always(
    options: AttributesModel,
    name: Seq<char>,
    generated: Map<Seq<char>, Seq<char>>,
    denied: Map<Seq<char>, Seq<Seq<char>>>,
    from: int,
) -> int
    decreases options.len() - from,
{
    if from < 0 || from >= options.len() {
        options.len() as int
    } else if eligible(options[from], name, generated, denied) && effective(options[from].1)
        == Chance::Always {
        from
    } else {
        first_always(options, name, generated, denied, from + 1)
    }
}

/// The names of the eligible options among the first `n` whose chance is the
/// sampled tier at `rank`, in the order of the options.
pub open spec fn tier(
    options: AttributesModel,
    name: Seq<char>,
    generated: Map<Seq<char>, Seq<char>>,
    denied: Map<Seq<char>, Seq<Seq<char>>>,
    rank: int,
    n: int,
) -> Seq<Seq<char>>
    decreases n,
{
    if n <= 0 || n > options.len() {
        Seq::empty()
    } else {
        let before = tier(options, name, generated, denied, rank, n - 1);
        let option = options[n - 1];
        if eligible(option, name, generated, denied) && effective(option.1).sampled() && effective(
            option.1,
        ).rank() == rank {
            before.push(option.0)
        } else {
            before
        }
    }
}

/// The one option that an `Always` leaves, filed under `Standard`.
pub open spec fn only(option: Seq<char>) -> Tiers {
    Seq::new(
        10,
        |rank: int|
            if rank == 5 {
                seq![option]
            } else {
                Seq::empty()
            },
    )
}

/// The options that may be taken for the attribute `name`, by tier. The
/// first eligible option marked `Always` stands alone, whatever the others
/// are; an option marked `Never` stands nowhere.
pub open spec fn candidates(
    options: AttributesModel,
    name: Seq<char>,
    generated: Map<Seq<char>, Seq<char>>,
    denied: Map<Seq<char>, Seq<Seq<char>>>,
) -> Tiers {
    let k = first_always(options, name, generated, denied, 0);
    if 0 <= k < options.len() {
        only(options[k].0)
    } else {
        Seq::new(
            10,
            |rank: int| tier(options, name, generated, denied, rank, options.len() as int),
        )
    }
}

/// The positions from 1 up to `n` at which a tier has an option, in rising
/// order.
pub open spec fn live(tiers: Tiers, n: int) -> Seq<int>
    decreases n,
{
    if n <= 1 {
        Seq::empty()
    } else {
        let before = live(tiers, n - 1);
        if tiers[n - 1].len() > 0 {
            before.push(n - 1)
        } else {
            before
        }
    }
}

/// The option that two numbers pick: the first the tier, among those that
/// have an option, the second the option within the tier.
pub open spec fn chosen(tiers: Tiers, a: nat, b: nat) -> Seq<char> {
    let ranks = live(tiers, 9);
    let names = tiers[ranks[(a % ranks.len()) as int]];
    names[(b % names.len()) as int]
}

/// What generating the attribute `name` at a generator leaves generated, and
/// what it leaves of the numbers that decide it.
///
/// `Choose` leaves an attribute that has a value alone. Otherwise two numbers
/// pick one of the candidates: an option without a generator of its own
/// gives its name as the value, any other generates in its turn. `Reuse`
/// generates as the named attribute would, while `budget` lasts; `Same`
/// copies the value of the named attribute, where it has one.
pub open spec fn generate_model(
    generator: GeneratorModel,
    name: Seq<char>,
    generated: Map<Seq<char>, Seq<char>>,
    denied: Map<Seq<char>, Seq<Seq<char>>>,
    attributes: AttributesModel,
    budget: nat,
    picks: Seq<nat>,
) -> (Map<Seq<char>, Seq<char>>, Seq<nat>)
    decreases budget, generator,
{
    match generator {
        GeneratorModel::Choose(options) => {
            let tiers = candidates(options, name, generated, denied);
            if generated.contains_key(name) || live(tiers, 9).len() == 0 {
                (generated, picks)
            } else {
                let option = chosen(tiers, head(picks), head(tail(picks)));
                let rest = tail(tail(picks));
                match first(options, option) {
                    Some(j) => if 0 <= j < options.len() {
                        match options[j].1.generator {
                            GeneratorModel::Nothing => (generated.insert(name, option), rest),
                            inner => generate_model(
                                inner,
                                name,
                                generated,
                                denied,
                                attributes,
                                budget,
                                rest,
                            ),
                        }
                    } else {
                        (generated, rest)
                    },
                    None => (generated, rest),
                }
            }
        },
        GeneratorModel::Reuse(target) => match first(attributes, target) {
            Some(i) => if budget > 0 && 0 <= i < attributes.len() {
                generate_model(
                    attributes[i].1.generator,
                    name,
                    generated,
                    denied,
                    attributes,
                    (budget - 1) as nat,
                    picks,
                )
            } else {
                (generated, picks)
            },
            None => (generated, picks),
        },
        GeneratorModel::Same(target) => (
            if generated.contains_key(target) {
                generated.insert(name, generated[target])
            } else {
                generated
            },
            picks,
        ),
        GeneratorModel::Nothing => (generated, picks),
    }
}

/// What generating an attribute leaves: where its requirements hold, what its
/// generator leaves; nothing new where one of them fails.
pub open spec fn attribute_generate_model(
    attribute: AttributeModel,
    name: Seq<char>,
    generated: Map<Seq<char>, Seq<char>>,
    denied: Map<Seq<char>, Seq<Seq<char>>>,
    attributes: AttributesModel,
    budget: nat,
    picks: Seq<nat>,
) -> (Map<Seq<char>, Seq<char>>, Seq<nat>) {
    if meets_all(attribute.requires, generated, denied) {
        generate_model(attribute.generator, name, generated, denied, attributes, budget, picks)
    } else {
        (generated, picks)
    }
}

/// The first eligible option marked `Always` is the one at `k`, where none
/// before `k` is one and `k` is one or the end.
pub proof fn lemma_first_always(
    options: AttributesModel,
    name: Seq<char>,
    generated: Map<Seq<char>, Seq<char>>,
    denied: Map<Seq<char>, Seq<Seq<char>>>,
    from: int,
    k: int,
)
    requires
        0 <= from <= k <= options.len(),
        forall|j: int|
            from <= j < k ==> !(eligible(#[trigger] options[j], name, generated, denied)
                && effective(options[j].1) == Chance::Always),
        k < options.len() ==> eligible(options[k], name, generated, denied) && effective(
            options[k].1,
        ) == Chance::Always,
    ensures
        first_always(options, name, generated, denied, from) == k,
    decreases k - from,
{
    if from < k {
        assert(!(eligible(options[from], name, generated, denied) && effective(options[from].1)
            == Chance::Always));
        lemma_first_always(options, name, generated, denied, from + 1, k);
    }
}

/// Ten tiers without an option.
fn empty_tiers() -> (tiers: Vec<Vec<String>>)
    ensures
        tiers.len() == 10,
        forall|rank: int| 0 <= rank < 10 ==> (#[trigger] tiers[rank]).len() == 0,
{
    let mut tiers: Vec<Vec<String>> = Vec::new();
    while tiers.len() < 10
        invariant
            tiers.len() <= 10,
            forall|rank: int| 0 <= rank < tiers.len() ==> (#[trigger] tiers[rank]).len() == 0,
        decreases 10 - tiers.len(),
    {
        tiers.push(Vec::new());
    }
    tiers
}

/// Adds `name` to the tier at `rank`.
fn file(tiers: &mut Vec<Vec<String>>, rank: usize, name: String)
    requires
        rank < old(tiers).len(),
    ensures
        final(tiers).len() == old(tiers).len(),
        final(tiers)[rank as int].deep_view() == old(tiers)[rank as int].deep_view().push(name@),
        forall|other: int|
            0 <= other < old(tiers).len() && other != rank ==> final(tiers)[other] == old(
                tiers,
            )[other],
{
    let mut names: Vec<String> = Vec::new();
    let ghost before = tiers[rank as int].deep_view();
    core::mem::swap(&mut names, &mut tiers[rank]);
    names.push(name);
    assert(names.deep_view() =~= before.push(name@));
    tiers.set(rank, names);
}

/// Sorts the options that may be taken for the attribute `name` into tiers.
pub fn candidates_of(
    options: &Attributes,
    name: &str,
    generated: &Generated,
    denied: &Denied,
) -> (tiers: Vec<Vec<String>>)
    ensures
        tiers.len() == 10,
        tiers.deep_view() == candidates(options@, name@, generated@, denied@),
{
    let ghost model = options@;
    let ghost g = generated@;
    let ghost d = denied@;
    let mut tiers = empty_tiers();
    let denied_names = denied.get(name);
    let mut i: usize = 0;
    while i < options.len()
        invariant
            i <= options@.len(),
            model == options@,
            g == generated@,
            d == denied@,
            tiers.len() == 10,
            match denied_names {
                Some(list) => d.contains_key(name@) && list.deep_view() == d[name@],
                None => !d.contains_key(name@),
            },
            forall|j: int|
                0 <= j < i ==> !(eligible(#[trigger] model[j], name@, g, d) && effective(
                    model[j].1,
                ) == Chance::Always),
            forall|rank: int|
                0 <= rank < 10 ==> (#[trigger] tiers[rank]).deep_view() == tier(
                    model,
                    name@,
                    g,
                    d,
                    rank,
                    i as int,
                ),
        decreases options@.len() - i,
    {
        let option_name = options.name_at(i);
        let option = options.attribute_at(i);
        let barred = match denied_names {
            Some(list) => lists(list, option_name),
            None => false,
        };
        let fit = meets_requirements(&option.requires, generated, denied) && !barred;
        assert(fit == eligible(model[i as int], name@, g, d));
        let chance = match option.chance {
            Some(chance) => chance,
            None => Chance::Standard,
        };
        assert(chance == effective(model[i as int].1));
        if fit {
            match chance {
                Chance::Always => {
                    let mut alone = empty_tiers();
                    file(&mut alone, 5, option_name.clone());
                    proof {
                        lemma_first_always(model, name@, g, d, 0, i as int);
                        assert(alone.deep_view() =~= only(model[i as int].0)) by {
                            assert forall|rank: int| 0 <= rank < 10 implies alone.deep_view()[rank]
                                == only(model[i as int].0)[rank] by {
                                if rank != 5 {
                                    assert(alone[rank].deep_view() =~= Seq::empty());
                                } else {
                                    assert(alone[rank].deep_view() =~= seq![model[i as int].0]);
                                }
                            }
                        }
                    }
                    return alone;
                },
                Chance::Never => {},
                _ => {
                    file(&mut tiers, chance.index(), option_name.clone());
                },
            }
        }
        i += 1;
    }
    proof {
        lemma_first_always(model, name@, g, d, 0, i as int);
        assert(tiers.deep_view() =~= candidates(model, name@, g, d));
    }
    tiers
}

/// The sum of the weights after one more was added.
proof fn lemma_total_push(weights: Seq<u32>, weight: u32)
    ensures
        total(weights.push(weight)) == total(weights) + weight,
{
    assert(weights.push(weight).drop_last() =~= weights);
}

/// The positions of the tiers that have an option, with the weight of each.
fn weigh(tiers: &Vec<Vec<String>>) -> (r: (Vec<usize>, Vec<u32>))
    requires
        tiers.len() == 10,
    ensures
        r.0@.map_values(|rank: usize| rank as int) == live(tiers.deep_view(), 9),
        r.1.len() == r.0.len(),
        r.0.len() > 0 ==> 0 < total(r.1@) <= u32::MAX,
        forall|j: int| 0 <= j < r.0.len() ==> 0 < #[trigger] r.0[j] < 9 && tiers[r.0[j] as int].len() > 0,
{
    let mut ranks: Vec<usize> = Vec::new();
    let mut weights: Vec<u32> = Vec::new();
    let mut n: usize = 1;
    assert(ranks@.map_values(|rank: usize| rank as int) =~= live(tiers.deep_view(), 1));
    while n < 9
        invariant
            1 <= n <= 9,
            tiers.len() == 10,
            ranks@.map_values(|rank: usize| rank as int) == live(tiers.deep_view(), n as int),
            weights.len() == ranks.len(),
            ranks.len() < n,
            ranks.len() <= total(weights@) <= 100 * ranks.len(),
            forall|j: int|
                0 <= j < ranks.len() ==> 0 < #[trigger] ranks[j] < 9 && tiers[ranks[j] as int].len()
                    > 0,
        decreases 9 - n,
    {
        let ghost before = ranks@.map_values(|rank: usize| rank as int);
        assert(tiers.deep_view()[n as int].len() == tiers[n as int].len());
        if tiers[n].len() > 0 {
            let weight = Chance::of_rank(n).chance();
            proof {
                lemma_total_push(weights@, weight);
            }
            ranks.push(n);
            weights.push(weight);
            assert(ranks@.map_values(|rank: usize| rank as int) =~= before.push(n as int));
        }
        n += 1;
    }
    (ranks, weights)
}

/// Picks one of the options that the tiers hold: the tier by weight, the
/// option within it evenly. Picks nothing, and asks for no number, where no
/// tier has an option.
pub fn pick_option(tiers: &Vec<Vec<String>>, picker: &mut Picker) -> (r: Option<String>)
    requires
        tiers.len() == 10,
        old(picker).wf(),
    ensures
        final(picker).extends(*old(picker), final(picker).since(*old(picker))),
        match r {
            None => live(tiers.deep_view(), 9).len() == 0 && final(picker).since(*old(picker)).len()
                == 0,
            Some(option) => {
                let used = final(picker).since(*old(picker));
                &&& live(tiers.deep_view(), 9).len() > 0
                &&& used.len() == 2
                &&& option@ == chosen(tiers.deep_view(), used[0], used[1])
            },
        },
{
    let (ranks, weights) = weigh(tiers);
    if ranks.len() == 0 {
        proof {
            assert(picker.drawn() =~= picker.drawn() + Seq::<nat>::empty());
            picker.lemma_since(*picker, Seq::empty());
        }
        return None;
    }
    let ghost start = *picker;
    let t = picker.weighted(&weights);
    let ghost middle = *picker;
    let rank = ranks[t];
    let names = &tiers[rank];
    let i = picker.below(names.len());
    proof {
        let a = middle.drawn().last();
        let b = picker.drawn().last();
        picker.lemma_extends(middle, start, seq![a], seq![b]);
        let used = picker.since(start);
        assert(used =~= seq![a, b]);
        let model = tiers.deep_view();
        let live_ranks = live(model, 9);
        assert(live_ranks[t as int] == ranks@.map_values(|rank: usize| rank as int)[t as int]);
        assert(model[rank as int] == names.deep_view());
        assert(names.deep_view()[i as int] == names[i as int]@);
    }
    Some(names[i].clone())
}

/// Whether generating at the generator, decided by the numbers `used`, leaves
/// `result` generated: it does so whatever numbers follow, and leaves those.
pub open spec fn generates(
    generator: GeneratorModel,
    name: Seq<char>,
    generated: Map<Seq<char>, Seq<char>>,
    denied: Map<Seq<char>, Seq<Seq<char>>>,
    attributes: AttributesModel,
    budget: nat,
    used: Seq<nat>,
    result: Map<Seq<char>, Seq<char>>,
) -> bool {
    forall|rest: Seq<nat>|
        #[trigger] generate_model(
            generator,
            name,
            generated,
            denied,
            attributes,
            budget,
            used + rest,
        ) == (result, rest)
}

impl Generator {
    /// Generates the attribute `name` with numbers from `picker`, following at
    /// most `budget` names through `Reuse`.
    pub fn generate_with(
        &self,
        name: &str,
        generated: &mut Generated,
        denied: &Denied,
        attributes: &Attributes,
        budget: usize,
        picker: &mut Picker,
    )
        requires
            old(picker).wf(),
        ensures
            final(picker).extends(*old(picker), final(picker).since(*old(picker))),
            generates(
                self@,
                name@,
                old(generated)@,
                denied@,
                attributes@,
                budget as nat,
                final(picker).since(*old(picker)),
                final(generated)@,
            ),
            self is Choose && old(generated)@.contains_key(name@) ==> final(generated)@ == old(
                generated,
            )@,
        decreases budget, self,
    {
        let ghost start = *picker;
        let ghost g = generated@;
        proof {
            assert(picker.drawn() =~= picker.drawn() + Seq::<nat>::empty());
            picker.lemma_since(start, Seq::empty());
        }
        match self {
            Generator::Choose(options) => {
                if generated.contains_key(name) {
                    assert forall|rest: Seq<nat>|
                        #[trigger] generate_model(
                            self@,
                            name@,
                            g,
                            denied@,
                            attributes@,
                            budget as nat,
                            picker.since(start) + rest,
                        ) == (generated@, rest) by {
                        lemma_nothing_before(rest);
                    }
                    return ;
                }
                let tiers = candidates_of(options, name, generated, denied);
                match pick_option(&tiers, picker) {
                    None => {
                        assert forall|rest: Seq<nat>|
                            #[trigger] generate_model(
                                self@,
                                name@,
                                g,
                                denied@,
                                attributes@,
                                budget as nat,
                                picker.since(start) + rest,
                            ) == (generated@, rest) by {
                            assert(picker.since(start) =~= Seq::<nat>::empty());
                            lemma_nothing_before(rest);
                        }
                    },
                    Some(option) => {
                        let ghost middle = *picker;
                        let ghost drawn = middle.since(start);
                        match options.position(option.as_str()) {
                            Some(j) => {
                                let taken = options.attribute_at(j);
                                match &taken.generator {
                                    Generator::Nothing => {
                                        generated.insert(name.to_owned(), option);
                                    },
                                    inner => {
                                        inner.generate_with(
                                            name,
                                            generated,
                                            denied,
                                            attributes,
                                            budget,
                                            picker,
                                        );
                                    },
                                }
                            },
                            None => {},
                        }
                        proof {
                            let more = picker.since(middle);
                            assert(picker.extends(middle, more)) by {
                                assert(picker.drawn() =~= middle.drawn() + more);
                            }
                            picker.lemma_extends(middle, start, drawn, more);
                            let used = picker.since(start);
                            assert forall|rest: Seq<nat>|
                                #[trigger] generate_model(
                                    self@,
                                    name@,
                                    g,
                                    denied@,
                                    attributes@,
                                    budget as nat,
                                    used + rest,
                                ) == (generated@, rest) by {
                                let picks = used + rest;
                                assert(head(picks) == drawn[0]);
                                assert(head(tail(picks)) == drawn[1]);
                                assert(tail(tail(picks)) =~= more + rest);
                                assert(self@ == GeneratorModel::Choose(options@));
                                assert(!g.contains_key(name@));
                                assert(candidates(options@, name@, g, denied@) == tiers.deep_view());
                                assert(chosen(tiers.deep_view(), head(picks), head(tail(picks))) == option@);
                                match first(options@, option@) {
                                    Some(j) => {
                                        assert(0 <= j < options@.len());
                                        match options@[j].1.generator {
                                            GeneratorModel::Nothing => {
                                                assert(more.len() == 0);
                                                assert(generated@ == g.insert(name@, option@));
                                            },
                                            inner => {
                                                assert(generate_model(inner, name@, g, denied@, attributes@, budget as nat, more + rest) == (generated@, rest));
                                            },
                                        }
                                    },
                                    None => {
                                        assert(more.len() == 0);
                                    },
                                }
                            }
                        }
                    },
                }
            },
            Generator::Reuse(target) => {
                let mut followed = false;
                match attributes.get(target.as_str()) {
                    Some(attribute) => {
                        if budget > 0 {
                            attribute.generator.generate_with(
                                name,
                                generated,
                                denied,
                                attributes,
                                budget - 1,
                                picker,
                            );
                            followed = true;
                        }
                    },
                    None => {},
                }
                assert forall|rest: Seq<nat>|
                    #[trigger] generate_model(
                        self@,
                        name@,
                        g,
                        denied@,
                        attributes@,
                        budget as nat,
                        picker.since(start) + rest,
                    ) == (generated@, rest) by {
                    if followed {
                        let i = first(attributes@, target@)->0;
                        assert(generate_model(
                            attributes@[i].1.generator,
                            name@,
                            g,
                            denied@,
                            attributes@,
                            (budget - 1) as nat,
                            picker.since(start) + rest,
                        ) == (generated@, rest));
                    } else {
                        lemma_nothing_before(rest);
                    }
                }
            },
            Generator::Same(target) => {
                let copied = match generated.get(target.as_str()) {
                    Some(value) => Some(value.clone()),
                    None => None,
                };
                match copied {
                    Some(value) => {
                        generated.insert(name.to_owned(), value);
                    },
                    None => {},
                }
                assert forall|rest: Seq<nat>|
                    #[trigger] generate_model(
                        self@,
                        name@,
                        g,
                        denied@,
                        attributes@,
                        budget as nat,
                        picker.since(start) + rest,
                    ) == (generated@, rest) by {
                    lemma_nothing_before(rest);
                }
            },
            Generator::Nothing => {
                assert forall|rest: Seq<nat>|
                    #[trigger] generate_model(
                        self@,
                        name@,
                        g,
                        denied@,
                        attributes@,
                        budget as nat,
                        picker.since(start) + rest,
                    ) == (generated@, rest) by {
                    lemma_nothing_before(rest);
                }
            },
        }
    }
}

impl Attribute {
    /// Generates the attribute under `name` with numbers from `picker`, where
    /// all its requirements hold.
    pub fn generate_with(
        &self,
        name: &str,
        generated: &mut Generated,
        denied: &Denied,
        attributes: &Attributes,
        budget: usize,
        picker: &mut Picker,
    )
        requires
            old(picker).wf(),
        ensures
            final(picker).extends(*old(picker), final(picker).since(*old(picker))),
            forall|rest: Seq<nat>|
                #[trigger] attribute_generate_model(
                    self@,
                    name@,
                    old(generated)@,
                    denied@,
                    attributes@,
                    budget as nat,
                    final(picker).since(*old(picker)) + rest,
                ) == (final(generated)@, rest),
    {
        if meets_requirements(&self.requires, generated, denied) {
            self.generator.generate_with(name, generated, denied, attributes, budget, picker);
        } else {
            proof {
                assert(picker.drawn() =~= picker.drawn() + Seq::<nat>::empty());
                picker.lemma_since(*picker, Seq::empty());
                assert forall|rest: Seq<nat>|
                    #[trigger] attribute_generate_model(
                        self@,
                        name@,
                        generated@,
                        denied@,
                        attributes@,
                        budget as nat,
                        picker.since(*picker) + rest,
                    ) == (generated@, rest) by {
                    lemma_nothing_before(rest);
                }
            }
        }
    }
}

impl Generator {
    /// Generates the attribute `name` with numbers drawn at random. Nothing is
    /// denied by generating.
    pub fn generate(
        &self,
        name: &str,
        generated: &mut Generated,
        denied: &mut Denied,
        attributes: &Attributes,
    )
        ensures
            final(denied)@ == old(denied)@,
            exists|picks: Seq<nat>|
                #[trigger] generate_model(
                    self@,
                    name@,
                    old(generated)@,
                    old(denied)@,
                    attributes@,
                    attributes@.len(),
                    picks,
                ).0 == final(generated)@,
            self is Choose && old(generated)@.contains_key(name@) ==> final(generated)@ == old(
                generated,
            )@,
    {
        let mut picker = Picker::random();
        let ghost start = picker;
        let ghost g = generated@;
        self.generate_with(name, generated, denied, attributes, attributes.len(), &mut picker);
        proof {
            let used = picker.since(start);
            assert(used + Seq::<nat>::empty() =~= used);
            assert(generate_model(
                self@,
                name@,
                g,
                denied@,
                attributes@,
                attributes@.len(),
                used + Seq::<nat>::empty(),
            ) == (generated@, Seq::<nat>::empty()));
            assert(generate_model(self@, name@, g, denied@, attributes@, attributes@.len(), used).0
                == generated@);
        }
    }
}

impl Attribute {
    /// Generates the attribute under `name` with numbers drawn at random,
    /// where all its requirements hold. Nothing is denied by generating.
    pub fn generate(
        &self,
        name: &str,
        generated: &mut Generated,
        denied: &mut Denied,
        attributes: &Attributes,
    )
        ensures
            final(denied)@ == old(denied)@,
            exists|picks: Seq<nat>|
                #[trigger] attribute_generate_model(
                    self@,
                    name@,
                    old(generated)@,
                    old(denied)@,
                    attributes@,
                    attributes@.len(),
                    picks,
                ).0 == final(generated)@,
            !meets_all(self@.requires, old(generated)@, old(denied)@) ==> final(generated)@ == old(
                generated,
            )@,
    {
        let mut picker = Picker::random();
        let ghost start = picker;
        let ghost g = generated@;
        self.generate_with(name, generated, denied, attributes, attributes.len(), &mut picker);
        proof {
            let used = picker.since(start);
            assert(used + Seq::<nat>::empty() =~= used);
            assert(attribute_generate_model(
                self@,
                name@,
                g,
                denied@,
                attributes@,
                attributes@.len(),
                used + Seq::<nat>::empty(),
            ) == (generated@, Seq::<nat>::empty()));
            assert(attribute_generate_model(
                self@,
                name@,
                g,
                denied@,
                attributes@,
                attributes@.len(),
                used,
            ).0 == generated@);
        }
    }
}

/// Generating an attribute changes the value of no other: every other key
/// has a value after if and only if it had one, and has the same.
pub proof fn lemma_generate_frame(
    generator: GeneratorModel,
    name: Seq<char>,
    generated: Map<Seq<char>, Seq<char>>,
    denied: Map<Seq<char>, Seq<Seq<char>>>,
    attributes: AttributesModel,
    budget: nat,
    picks: Seq<nat>,
    key: Seq<char>,
)
    requires
        key != name,
    ensures
        ({
            let after = generate_model(
                generator,
                name,
                generated,
                denied,
                attributes,
                budget,
                picks,
            ).0;
            &&& after.contains_key(key) == generated.contains_key(key)
            &&& generated.contains_key(key) ==> after[key] == generated[key]
        }),
    decreases budget, generator,
{
    match generator {
        GeneratorModel::Choose(options) => {
            let tiers = candidates(options, name, generated, denied);
            if !(generated.contains_key(name) || live(tiers, 9).len() == 0) {
                let option = chosen(tiers, head(picks), head(tail(picks)));
                let rest = tail(tail(picks));
                match first(options, option) {
                    Some(j) => {
                        if 0 <= j < options.len() {
                            match options[j].1.generator {
                                GeneratorModel::Nothing => {},
                                inner => {
                                    lemma_generate_frame(
                                        inner,
                                        name,
                                        generated,
                                        denied,
                                        attributes,
                                        budget,
                                        rest,
                                        key,
                                    );
                                },
                            }
                        }
                    },
                    None => {},
                }
            }
        },
        GeneratorModel::Reuse(target) => {
            match first(attributes, target) {
                Some(i) => {
                    if budget > 0 && 0 <= i < attributes.len() {
                        lemma_generate_frame(
                            attributes[i].1.generator,
                            name,
                            generated,
                            denied,
                            attributes,
                            (budget - 1) as nat,
                            picks,
                            key,
                        );
                    }
                },
                None => {},
            }
        },
        _ => {},
    }
}

/// `Same` gives an attribute the value of the attribute it names, whatever
/// that value is, and asks for no number.
pub proof fn lemma_same_copies(
    target: Seq<char>,
    name: Seq<char>,
    generated: Map<Seq<char>, Seq<char>>,
    denied: Map<Seq<char>, Seq<Seq<char>>>,
    attributes: AttributesModel,
    budget: nat,
    picks: Seq<nat>,
)
    requires
        generated.contains_key(target),
    ensures
        ({
            let after = generate_model(
                GeneratorModel::Same(target),
                name,
                generated,
                denied,
                attributes,
                budget,
                picks,
            );
            &&& after.0.contains_key(name)
            &&& after.0[name] == generated[target]
            &&& after.0[target] == generated[target]
            &&& after.1 == picks
        }),
{
}

/// Where an eligible option is marked `Always`, the first such option is
/// taken whatever the numbers are and whatever the chances of the others.
pub proof fn lemma_always_is_taken(
    options: AttributesModel,
    name: Seq<char>,
    generated: Map<Seq<char>, Seq<char>>,
    denied: Map<Seq<char>, Seq<Seq<char>>>,
    a: nat,
    b: nat,
)
    requires
        0 <= first_always(options, name, generated, denied, 0) < options.len(),
    ensures
        chosen(candidates(options, name, generated, denied), a, b) == options[first_always(
            options,
            name,
            generated,
            denied,
            0,
        )].0,
{
    let k = first_always(options, name, generated, denied, 0);
    let tiers = only(options[k].0);
    reveal_with_fuel(live, 10);
    assert(live(tiers, 9) =~= seq![5int]);
}

/// Whether the option at `j` belongs in the tier at `rank`: it is eligible,
/// and its chance is the sampled tier of that position.
pub open spec fn placed(
    options: AttributesModel,
    name: Seq<char>,
    generated: Map<Seq<char>, Seq<char>>,
    denied: Map<Seq<char>, Seq<Seq<char>>>,
    rank: int,
    j: int,
) -> bool {
    &&& eligible(options[j], name, generated, denied)
    &&& effective(options[j].1) != Chance::Never
    &&& effective(options[j].1) != Chance::Always
    &&& effective(options[j].1).rank() == rank
}

/// Whether `option` is the name of one of the first `n` options that belongs
/// in the tier at `rank`.
pub open spec fn stands(
    options: AttributesModel,
    name: Seq<char>,
    generated: Map<Seq<char>, Seq<char>>,
    denied: Map<Seq<char>, Seq<Seq<char>>>,
    rank: int,
    n: int,
    option: Seq<char>,
) -> bool {
    exists|j: int|
        0 <= j < n && options[j].0 == option && #[trigger] placed(
            options,
            name,
            generated,
            denied,
            rank,
            j,
        )
}

/// A tier holds only names of options that belong in it: an option marked
/// `Never` is in no tier, whatever weight its tier would have.
pub proof fn lemma_tier_members(
    options: AttributesModel,
    name: Seq<char>,
    generated: Map<Seq<char>, Seq<char>>,
    denied: Map<Seq<char>, Seq<Seq<char>>>,
    rank: int,
    n: int,
)
    requires
        0 <= n <= options.len(),
    ensures
        forall|i: int|
            0 <= i < tier(options, name, generated, denied, rank, n).len() ==> stands(
                options,
                name,
                generated,
                denied,
                rank,
                n,
                #[trigger] tier(options, name, generated, denied, rank, n)[i],
            ),
    decreases n,
{
    if n > 0 {
        lemma_tier_members(options, name, generated, denied, rank, n - 1);
        let before = tier(options, name, generated, denied, rank, n - 1);
        let now = tier(options, name, generated, denied, rank, n);
        assert forall|i: int| 0 <= i < now.len() implies stands(
            options,
            name,
            generated,
            denied,
            rank,
            n,
            #[trigger] now[i],
        ) by {
            if i < before.len() {
                assert(stands(options, name, generated, denied, rank, n - 1, before[i]));
                let j = choose|j: int|
                    0 <= j < n - 1 && options[j].0 == before[i] && #[trigger] placed(
                        options,
                        name,
                        generated,
                        denied,
                        rank,
                        j,
                    );
                assert(placed(options, name, generated, denied, rank, j));
                assert(now[i] == before[i]);
            } else {
                assert(placed(options, name, generated, denied, rank, n - 1));
            }
        }
    }
}

} // verus!
