//! Where the numbers come from that decide a generation run: drawn at random,
//! or read from a script so that a run can be repeated.

use rand::distributions::{Distribution, Weighted, WeightedChoice};
use rand::Rng;
use vstd::prelude::*;

verus! {

/// The sum of the weights.
pub open spec fn total(weights: Seq<u32>) -> nat
    decreases weights.len(),
{
    if weights.len() == 0 {
        0
    } else {
        total(weights.drop_last()) + weights.last() as nat
    }
}

/// `Rng::gen_range` of rand on the thread's generator, from 0 up to `n`:
/// whatever is drawn lies below `n`. The call panics where the range is empty,
/// which `requires` leaves out.
#[verifier::external_body]
fn random_below(n: usize) -> (i: usize)
    requires
        n > 0,
    ensures
        i < n,
{
    rand::thread_rng().gen_range(0, n)
}

/// `WeightedChoice::new` and its `sample` of rand, on items that are the
/// positions of `weights`: whatever is drawn is one of the positions. The call
/// panics where there is no item, where the weights sum to 0 and where their
/// sum does not fit in `u32`, all of which `requires` leaves out.
#[verifier::external_body]
fn random_weighted(weights: &Vec<u32>) -> (i: usize)
    requires
        weights.len() > 0,
        0 < total(weights@) <= u32::MAX,
    ensures
        i < weights.len(),
{
    let mut items: Vec<Weighted<usize>> = weights.iter().enumerate().map(
        |(item, weight)| Weighted { weight: *weight, item },
    ).collect();
    WeightedChoice::new(&mut items).sample(&mut rand::thread_rng())
}

/// The first number of `picks`, or 0 where there is none.
pub open spec fn head(picks: Seq<nat>) -> nat {
    if picks.len() > 0 {
        picks[0]
    } else {
        0
    }
}

/// What follows the first number of `picks`.
pub open spec fn tail(picks: Seq<nat>) -> Seq<nat> {
    if picks.len() > 0 {
        picks.skip(1)
    } else {
        picks
    }
}

/// Numbers that follow no number are the numbers themselves.
pub proof fn lemma_nothing_before(rest: Seq<nat>)
    ensures
        Seq::<nat>::empty() + rest == rest,
{
    assert(Seq::<nat>::empty() + rest =~= rest);
}

/// Numbers joined in either grouping are the same numbers.
pub proof fn lemma_regroup(a: Seq<nat>, b: Seq<nat>, c: Seq<nat>)
    ensures
        (a + b) + c == a + (b + c),
{
    assert((a + b) + c =~= a + (b + c));
}

/// The first `k` answers of a script: its numbers in turn, then zeros.
pub open spec fn answers(script: Seq<nat>, k: nat) -> Seq<nat> {
    Seq::new(
        k,
        |j: int|
            if j < script.len() {
                script[j]
            } else {
                0
            },
    )
}

/// A source of choices. One that draws asks the thread's random generator;
/// one with a script answers from the script, number by number, and with 0
/// once the script has run out.
pub struct Picker {
    draws: bool,
    script: Vec<usize>,
    next: usize,
    drawn: Ghost<Seq<nat>>,
}

impl Picker {
    /// Whether the picker draws at random.
    pub closed spec fn draws(&self) -> bool {
        self.draws
    }

    /// The script, which a picker that draws leaves unread.
    pub closed spec fn script(&self) -> Seq<nat> {
        self.script@.map_values(|x: usize| x as nat)
    }

    /// The numbers handed out so far, each as it stood before it was reduced
    /// to the range that was asked for.
    pub closed spec fn drawn(&self) -> Seq<nat> {
        self.drawn@
    }

    /// A picker with a script has handed out the script's answers and nothing
    /// else.
    pub closed spec fn wf(&self) -> bool {
        !self.draws ==> {
            &&& self.drawn@ == answers(self.script(), self.drawn@.len())
            &&& self.next == if self.drawn@.len() < self.script.len() {
                self.drawn@.len()
            } else {
                self.script@.len()
            }
        }
    }

    /// Whether the picker is `before` after it handed out the numbers `used`.
    pub open spec fn extends(&self, before: Picker, used: Seq<nat>) -> bool {
        &&& self.wf()
        &&& self.drawn() == before.drawn() + used
        &&& self.draws() == before.draws()
        &&& self.script() == before.script()
    }

    /// The numbers handed out since the picker was `before`.
    pub open spec fn since(&self, before: Picker) -> Seq<nat> {
        self.drawn().skip(before.drawn().len() as int)
    }

    /// A picker that extends another has handed out since what it extends it
    /// by.
    pub proof fn lemma_since(&self, before: Picker, used: Seq<nat>)
        requires
            self.extends(before, used),
        ensures
            self.since(before) == used,
    {
        assert(self.since(before) =~= used);
    }

    /// Extending twice extends by the two runs of numbers, one after the
    /// other.
    pub proof fn lemma_extends(&self, middle: Picker, before: Picker, first: Seq<nat>, second: Seq<nat>)
        requires
            middle.extends(before, first),
            self.extends(middle, second),
        ensures
            self.extends(before, first + second),
            self.since(before) == first + second,
    {
        assert(self.drawn() =~= before.drawn() + (first + second));
        assert(self.since(before) =~= first + second);
    }

    /// What a picker with a script has handed out is a function of the script
    /// and of how many numbers were asked for.
    pub proof fn lemma_scripted(&self)
        requires
            self.wf(),
            !self.draws(),
        ensures
            self.drawn() == answers(self.script(), self.drawn().len()),
    {
    }

    /// A picker that draws at random.
    pub fn random() -> (picker: Picker)
        ensures
            picker.wf(),
            picker.draws(),
            picker.drawn() == Seq::<nat>::empty(),
    {
        Picker { draws: true, script: Vec::new(), next: 0, drawn: Ghost(Seq::empty()) }
    }

    /// A picker that answers from `script`.
    pub fn scripted(script: Vec<usize>) -> (picker: Picker)
        ensures
            picker.wf(),
            !picker.draws(),
            picker.drawn() == Seq::<nat>::empty(),
            picker.script() == script@.map_values(|x: usize| x as nat),
    {
        let picker = Picker { draws: false, script, next: 0, drawn: Ghost(Seq::empty()) };
        assert(picker.drawn@ =~= answers(picker.script(), 0));
        picker
    }

    /// The next number: drawn below `n`, or read from the script.
    fn raw(&mut self, n: usize, weights: Option<&Vec<u32>>) -> (raw: usize)
        requires
            old(self).wf(),
            n > 0,
            weights matches Some(list) ==> list.len() == n && 0 < total(list@) <= u32::MAX,
        ensures
            final(self).extends(*old(self), seq![raw as nat]),
            final(self).draws() ==> raw < n,
    {
        let raw = if self.draws {
            match weights {
                Some(list) => random_weighted(list),
                None => random_below(n),
            }
        } else if self.next < self.script.len() {
            let raw = self.script[self.next];
            self.next = self.next + 1;
            raw
        } else {
            0
        };
        proof {
            self.drawn@ = self.drawn@.push(raw as nat);
            assert(self.drawn() =~= old(self).drawn() + seq![raw as nat]);
            if !self.draws {
                assert(self.drawn@ =~= answers(self.script(), self.drawn@.len()));
            }
        }
        raw
    }

    /// A position below `n`: the number handed out, reduced to the range.
    pub fn below(&mut self, n: usize) -> (i: usize)
        requires
            old(self).wf(),
            n > 0,
        ensures
            i < n,
            final(self).extends(*old(self), seq![final(self).drawn().last()]),
            i == final(self).drawn().last() % (n as nat),
    {
        let raw = self.raw(n, None);
        raw % n
    }

    /// A position of `weights`, which a picker that draws takes by weight:
    /// the number handed out, reduced to the range.
    pub fn weighted(&mut self, weights: &Vec<u32>) -> (i: usize)
        requires
            old(self).wf(),
            weights.len() > 0,
            0 < total(weights@) <= u32::MAX,
        ensures
            i < weights.len(),
            final(self).extends(*old(self), seq![final(self).drawn().last()]),
            i == final(self).drawn().last() % (weights.len() as nat),
    {
        let raw = self.raw(weights.len(), Some(weights));
        raw % weights.len()
    }
}

} // verus!
