//! Requirements: small predicates over what has been generated and what has
//! been denied, written as `key:value` possibilities joined by `|`.

use vstd::prelude::*;
use crate::dict::Dict;
use crate::text::{
    append_str, chars_of, has_char, join, lemma_join_push, lemma_position, lemma_split_join,
    lemma_split_nonempty, split, split_chars, string_from, string_of, trim, trimmed, views,
};

verus! {

/// What one generation run has settled: attribute name to chosen value.
pub type Generated = Dict<String>;

/// The values that one generation run has ruled out, by attribute name.
pub type Denied = Dict<Vec<String>>;

/// One possibility as plain values: the key, the value, and whether it is
/// negated.
pub type Possibility = (Seq<char>, Seq<char>, bool);

/// The possibilities of a requirement, any one of which satisfies it.
#[derive(Debug)]
pub struct Requirement {
    pub possibilities: Vec<(String, String, bool)>,
}

/// The value that stands for "any value".
pub open spec fn star() -> Seq<char> {
    seq!['*']
}

impl View for Requirement {
    type V = Seq<Possibility>;

    open spec fn view(&self) -> Seq<Possibility> {
        Seq::new(
            self.possibilities.len() as nat,
            |i: int| (self.possibilities[i].0@, self.possibilities[i].1@, self.possibilities[i].2),
        )
    }
}

/// The models of a list of requirements.
pub open spec fn requirement_views(list: Seq<Requirement>) -> Seq<Seq<Possibility>> {
    list.map_values(|r: Requirement| r@)
}

/// Whether one possibility holds of what was generated and denied.
///
/// A key that has a value is tested against it. A key without a value
/// satisfies only a negated possibility: one for any value at once, one for a
/// given value where that value has been denied for the key.
pub open spec fn possibility_met(
    p: Possibility,
    generated: Map<Seq<char>, Seq<char>>,
    denied: Map<Seq<char>, Seq<Seq<char>>>,
) -> bool {
    if generated.contains_key(p.0) {
        p.2 != (p.1 == star() || generated[p.0] == p.1)
    } else {
        p.2 && (p.1 == star() || (denied.contains_key(p.0) && denied[p.0].contains(p.1)))
    }
}

/// Whether a requirement holds: it has no possibility at all, or one of its
/// possibilities holds.
pub open spec fn meets(
    requirement: Seq<Possibility>,
    generated: Map<Seq<char>, Seq<char>>,
    denied: Map<Seq<char>, Seq<Seq<char>>>,
) -> bool {
    requirement.len() == 0 || exists|i: int|
        0 <= i < requirement.len() && possibility_met(#[trigger] requirement[i], generated, denied)
}

/// Whether every requirement of a list holds.
pub open spec fn meets_all(
    requirements: Seq<Seq<Possibility>>,
    generated: Map<Seq<char>, Seq<char>>,
    denied: Map<Seq<char>, Seq<Seq<char>>>,
) -> bool {
    forall|i: int|
        0 <= i < requirements.len() ==> meets(#[trigger] requirements[i], generated, denied)
}

/// The possibility that one `key:value` piece denotes.
pub open spec fn parse_possibility(piece: Seq<char>) -> Possibility {
    let parts = split(piece, ':');
    let key = trim(parts[0]);
    let value = if parts.len() == 1 {
        star()
    } else {
        trim(parts[1])
    };
    if key.len() > 0 && key[0] == '!' {
        (key.skip(1), value, true)
    } else {
        (key, value, false)
    }
}

/// The requirement that a string denotes: one possibility for each piece
/// between `|`.
pub open spec fn parse_requirement(s: Seq<char>) -> Seq<Possibility> {
    split(s, '|').map_values(|piece: Seq<char>| parse_possibility(piece))
}

/// The canonical text of one possibility.
pub open spec fn render_possibility(p: Possibility) -> Seq<char> {
    (if p.2 {
        seq!['!']
    } else {
        Seq::empty()
    }) + p.0 + seq![':'] + p.1
}

/// The canonical text of a requirement.
pub open spec fn render_requirement(r: Seq<Possibility>) -> Seq<char> {
    join(r.map_values(|p: Possibility| render_possibility(p)), '|')
}

/// Whether a possibility is written in the one way in which reading gives it
/// back: neither its key nor its value holds `|` or `:`, the value and the
/// key as written (with its `!`, where negated) have no whitespace at their
/// ends, and a key that is not negated does not begin with `!`.
pub open spec fn canonical_possibility(p: Possibility) -> bool {
    let written = if p.2 {
        seq!['!'] + p.0
    } else {
        p.0
    };
    &&& !has_char(p.0, '|') && !has_char(p.0, ':')
    &&& !has_char(p.1, '|') && !has_char(p.1, ':')
    &&& trim(p.1) == p.1
    &&& trim(written) == written
    &&& !p.2 ==> !(p.0.len() > 0 && p.0[0] == '!')
}

/// Whether a requirement has a possibility and each one is canonical.
pub open spec fn canonical(r: Seq<Possibility>) -> bool {
    r.len() > 0 && forall|i: int| 0 <= i < r.len() ==> canonical_possibility(#[trigger] r[i])
}

/// Reading the canonical text of a canonical possibility gives it back.
pub proof fn lemma_possibility_round_trip(p: Possibility)
    requires
        canonical_possibility(p),
    ensures
        parse_possibility(render_possibility(p)) == p,
        !has_char(render_possibility(p), '|'),
{
    let prefix: Seq<char> = if p.2 {
        seq!['!']
    } else {
        Seq::empty()
    };
    let written = prefix + p.0;
    let piece = render_possibility(p);
    let k = written.len() as int;
    assert(piece == written + seq![':'] + p.1);
    assert forall|j: int| 0 <= j < k implies piece[j] != ':' by {
        assert(piece[j] == written[j]);
        if p.2 && j > 0 {
            assert(written[j] == p.0[j - 1]);
        }
        if !p.2 {
            assert(written[j] == p.0[j]);
        }
    }
    assert(piece[k] == ':');
    lemma_position(piece, ':', k);
    assert(piece.take(k) == written);
    assert(piece.skip(k + 1) == p.1);
    lemma_position(p.1, ':', p.1.len() as int);
    assert(split(p.1, ':') == seq![p.1]);
    assert(split(piece, ':') == seq![written] + seq![p.1]);
    let parts = split(piece, ':');
    assert(parts.len() == 2 && parts[0] == written && parts[1] == p.1);
    if p.2 {
        assert(written[0] == '!');
        assert(written.skip(1) == p.0);
    } else {
        assert(written == p.0);
    }
    if has_char(piece, '|') {
        let j = choose|j: int| 0 <= j < piece.len() && piece[j] == '|';
        if j < k {
            assert(piece[j] == written[j]);
            if p.2 && j > 0 {
                assert(written[j] == p.0[j - 1]);
            }
            if !p.2 {
                assert(written[j] == p.0[j]);
            }
        } else if j > k {
            assert(piece[j] == p.1[j - k - 1]);
        }
    }
}

/// Reading the canonical text of a requirement gives the requirement back,
/// possibility for possibility and in the same order, wherever the
/// requirement is canonical.
pub proof fn lemma_round_trip(r: Seq<Possibility>)
    requires
        canonical(r),
    ensures
        parse_requirement(render_requirement(r)) == r,
{
    let pieces = r.map_values(|p: Possibility| render_possibility(p));
    assert forall|i: int| 0 <= i < pieces.len() implies !has_char(#[trigger] pieces[i], '|') by {
        lemma_possibility_round_trip(r[i]);
    }
    lemma_split_join(pieces, '|');
    let back = parse_requirement(render_requirement(r));
    assert forall|i: int| 0 <= i < r.len() implies back[i] == r[i] by {
        lemma_possibility_round_trip(r[i]);
    }
    assert(back =~= r);
}

/// Whether `value` is one of the strings of `list`.
pub fn lists(list: &Vec<String>, value: &String) -> (r: bool)
    ensures
        r == list.deep_view().contains(value@),
{
    let mut i: usize = 0;
    while i < list.len()
        invariant
            i <= list.len(),
            forall|j: int| 0 <= j < i ==> list.deep_view()[j] != value@,
        decreases list.len() - i,
    {
        if list[i] == *value {
            assert(list.deep_view()[i as int] == value@);
            return true;
        }
        i += 1;
    }
    false
}

/// Decides whether one possibility holds.
fn possibility_holds(
    possibility: &(String, String, bool),
    generated: &Generated,
    denied: &Denied,
) -> (r: bool)
    ensures
        r == possibility_met((possibility.0@, possibility.1@, possibility.2), generated@, denied@),
{
    let any = "*".to_owned();
    proof {
        reveal_strlit("*");
        assert(any@ == star());
    }
    match generated.get(possibility.0.as_str()) {
        Some(found) => possibility.2 != (possibility.1 == any || *found == possibility.1),
        None => {
            if !possibility.2 {
                false
            } else if possibility.1 == any {
                true
            } else {
                match denied.get(possibility.0.as_str()) {
                    Some(values) => lists(values, &possibility.1),
                    None => false,
                }
            }
        },
    }
}

/// Decides whether `requirement` holds of what was generated and denied.
pub fn meets_requirement(requirement: &Requirement, generated: &Generated, denied: &Denied) -> (r:
    bool)
    ensures
        r == meets(requirement@, generated@, denied@),
{
    let mut matches = requirement.possibilities.len() == 0;
    let mut i: usize = 0;
    while i < requirement.possibilities.len()
        invariant
            i <= requirement.possibilities.len(),
            matches == (requirement@.len() == 0 || exists|j: int|
                0 <= j < i && possibility_met(#[trigger] requirement@[j], generated@, denied@)),
        decreases requirement.possibilities.len() - i,
    {
        let met = possibility_holds(&requirement.possibilities[i], generated, denied);
        assert(met == possibility_met(requirement@[i as int], generated@, denied@));
        matches = matches || met;
        i += 1;
    }
    matches
}

/// Decides whether every requirement of `list` holds.
pub fn meets_requirements(list: &Vec<Requirement>, generated: &Generated, denied: &Denied) -> (r:
    bool)
    ensures
        r == meets_all(requirement_views(list@), generated@, denied@),
{
    let mut i: usize = 0;
    let mut valid = true;
    while i < list.len()
        invariant
            i <= list.len(),
            valid == forall|j: int|
                0 <= j < i ==> meets(#[trigger] requirement_views(list@)[j], generated@, denied@),
        decreases list.len() - i,
    {
        let met = meets_requirement(&list[i], generated, denied);
        assert(requirement_views(list@)[i as int] == list@[i as int]@);
        valid = valid && met;
        i += 1;
    }
    valid
}

impl Requirement {
    /// Reads a requirement from `key[:value]` pieces joined by `|`. A `!`
    /// before the key negates the piece, and a piece without a value stands
    /// for any value. Every string denotes a requirement.
    pub fn parse(s: &str) -> (r: Result<Requirement, String>)
        ensures
            r matches Ok(requirement) && requirement@ == parse_requirement(s@),
    {
        let text = chars_of(s);
        Ok(Requirement::parse_chars(&text))
    }

    /// Reads a requirement from the characters of its text.
    pub fn parse_chars(text: &Vec<char>) -> (requirement: Requirement)
        ensures
            requirement@ == parse_requirement(text@),
    {
        let pieces = split_chars(text, '|');
        let mut possibilities: Vec<(String, String, bool)> = Vec::new();
        let mut i: usize = 0;
        while i < pieces.len()
            invariant
                i <= pieces.len(),
                views(pieces@) == split(text@, '|'),
                possibilities.len() == i,
                forall|j: int|
                    0 <= j < i ==> (
                    #[trigger] possibilities[j].0@,
                    possibilities[j].1@,
                    possibilities[j].2,
                    ) == parse_possibility(pieces[j]@),
            decreases pieces.len() - i,
        {
            let parts = split_chars(&pieces[i], ':');
            proof {
                lemma_split_nonempty(pieces[i as int]@, ':');
            }
            let key = trimmed(&parts[0]);
            let value = if parts.len() == 1 {
                proof {
                    reveal_strlit("*");
                }
                "*".to_owned()
            } else {
                string_from(&trimmed(&parts[1]))
            };
            assert(views(parts@)[0] == parts[0]@);
            assert(parts.len() > 1 ==> views(parts@)[1] == parts[1]@);
            if key.len() > 0 && key[0] == '!' {
                let name = string_of(&key, 1, key.len());
                assert(key@.subrange(1, key.len() as int) == key@.skip(1));
                possibilities.push((name, value, true));
            } else {
                possibilities.push((string_from(&key), value, false));
            }
            i += 1;
        }
        let requirement = Requirement { possibilities };
        assert(requirement@ =~= parse_requirement(text@)) by {
            assert forall|j: int| 0 <= j < requirement@.len() implies requirement@[j]
                == parse_requirement(text@)[j] by {
                assert(views(pieces@)[j] == pieces[j]@);
            }
        }
        requirement
    }

    /// The canonical text of the requirement: `key:value` pieces joined by
    /// `|`, each negated one with `!` before it.
    pub fn to_string(&self) -> (s: String)
        ensures
            s@ == render_requirement(self@),
    {
        let mut out: Vec<char> = Vec::new();
        let ghost pieces = self@.map_values(|p: Possibility| render_possibility(p));
        let mut i: usize = 0;
        while i < self.possibilities.len()
            invariant
                i <= self.possibilities.len(),
                pieces == self@.map_values(|p: Possibility| render_possibility(p)),
                out@ == join(pieces.take(i as int), '|'),
            decreases self.possibilities.len() - i,
        {
            let ghost before = out@;
            if i > 0 {
                out.push('|');
            }
            let possibility = &self.possibilities[i];
            if possibility.2 {
                out.push('!');
            }
            append_str(&mut out, possibility.0.as_str());
            out.push(':');
            append_str(&mut out, possibility.1.as_str());
            proof {
                let piece = render_possibility(self@[i as int]);
                assert(pieces[i as int] == piece);
                assert(pieces.take(i + 1) == pieces.take(i as int).push(piece));
                if i > 0 {
                    lemma_join_push(pieces.take(i as int), piece, '|');
                    assert(out@ == before + seq!['|'] + piece);
                } else {
                    assert(out@ == piece);
                }
            }
            i += 1;
        }
        assert(pieces.take(i as int) == pieces);
        string_from(&out)
    }
}

impl Clone for Requirement {
    fn clone(&self) -> (r: Self)
        ensures
            r@ == self@,
    {
        let mut possibilities: Vec<(String, String, bool)> = Vec::new();
        let mut i: usize = 0;
        while i < self.possibilities.len()
            invariant
                i <= self.possibilities.len(),
                possibilities.len() == i,
                forall|j: int|
                    0 <= j < i ==> (
                    #[trigger] possibilities[j].0@,
                    possibilities[j].1@,
                    possibilities[j].2,
                    ) == self@[j],
            decreases self.possibilities.len() - i,
        {
            let p = &self.possibilities[i];
            possibilities.push((p.0.clone(), p.1.clone(), p.2));
            i += 1;
        }
        let r = Requirement { possibilities };
        assert(r@ =~= self@);
        r
    }
}

impl Default for Requirement {
    fn default() -> (r: Self)
        ensures
            r@ == Seq::<Possibility>::empty(),
    {
        let r = Requirement { possibilities: Vec::new() };
        assert(r@ =~= Seq::<Possibility>::empty());
        r
    }
}

impl core::str::FromStr for Requirement {
    type Err = String;

    /// Reads a requirement, as `Requirement::parse` does. Every string
    /// denotes one.
    fn from_str(s: &str) -> (r: Result<Self, String>)
        ensures
            r matches Ok(requirement) && requirement@ == parse_requirement(s@),
    {
        Requirement::parse(s)
    }
}

} // verus!
