//! The text-template language: literal text, `[name]` for the value of an
//! attribute, `[requirement?text]` for text that appears only where the
//! requirement holds, and `\` before a character that is meant literally.

use vstd::prelude::*;
use crate::dict::Dict;
use crate::requirement::{
    Generated, Possibility, Requirement, meets, meets_requirement, parse_requirement,
};
use crate::text::{
    append_chars, append_str, char_uppercase, chars_of, fix_periods, has_char, holds_char,
    is_capital, lowercase, periods_fixed, squeeze, squeezed, string_from, uppercase,
    uppercase_of_char,
};

verus! {

/// A parsed template: what it contains is rendered where its requirement
/// holds.
#[derive(Debug)]
pub struct Formatting {
    pub requirement: Requirement,
    pub contents: Vec<SubFormatting>,
}

/// One piece of a template.
#[derive(Debug)]
pub enum SubFormatting {
    /// Text that is rendered as it stands.
    Text(String),
    /// A nested template with a requirement of its own.
    Formatted(Formatting),
    /// The name of an attribute whose value is rendered.
    Variable(String),
}

/// A template as a plain value.
pub struct FormattingModel {
    pub requirement: Seq<Possibility>,
    pub contents: Seq<PieceModel>,
}

/// One piece of a template as a plain value.
pub enum PieceModel {
    Text(Seq<char>),
    Formatted(FormattingModel),
    Variable(Seq<char>),
}

impl Formatting {
    /// The template as a plain value.
    pub open spec fn view(&self) -> FormattingModel
        decreases self,
    {
        FormattingModel {
            requirement: self.requirement@,
            contents: Seq::new(
                self.contents.len() as nat,
                |i: int|
                    if 0 <= i < self.contents.len() {
                        self.contents[i].view()
                    } else {
                        arbitrary()
                    },
            ),
        }
    }
}

impl SubFormatting {
    /// The piece as a plain value.
    pub open spec fn view(&self) -> PieceModel
        decreases self,
    {
        match self {
            SubFormatting::Text(text) => PieceModel::Text(text@),
            SubFormatting::Formatted(inner) => PieceModel::Formatted(inner.view()),
            SubFormatting::Variable(name) => PieceModel::Variable(name@),
        }
    }
}

/// Where the reader of a template stands.
pub struct Reading {
    /// The requirement read so far.
    pub requirement: Seq<Possibility>,
    /// The pieces read so far.
    pub contents: Seq<PieceModel>,
    /// The number of brackets that are open.
    pub depth: int,
    /// The characters of the piece that is being read.
    pub current: Seq<char>,
    /// Whether the character before was a `\` that escapes the next one.
    pub escape: bool,
}

/// The template that a text denotes.
pub open spec fn parse_formatting(s: Seq<char>) -> FormattingModel
    decreases s.len(), 1nat, 0nat,
{
    read_from(
        s,
        0,
        Reading {
            requirement: Seq::empty(),
            contents: Seq::empty(),
            depth: 0,
            current: Seq::empty(),
            escape: false,
        },
    )
}

/// The template that is read once the characters from position `i` on have
/// been read too: the text left at the end is the last piece.
pub open spec fn read_from(s: Seq<char>, i: int, reading: Reading) -> FormattingModel
    decreases s.len(), 0nat, s.len() - i,
{
    if 0 <= i < s.len() {
        read_from(s, i + 1, read(reading, s[i], s.len()))
    } else {
        FormattingModel {
            requirement: reading.requirement,
            contents: reading.contents.push(PieceModel::Text(reading.current)),
        }
    }
}

/// Where the reader stands after the character `c`, in a text of `limit`
/// characters.
///
/// An escaped character is text. Outside brackets `?` ends the requirement
/// and `[` ends a piece of text. A `]` that closes the outermost bracket ends
/// a nested template, where what it closes holds a `?`, and the name of a
/// variable otherwise. Between brackets all but `\` is kept as it stands.
pub open spec fn read(reading: Reading, c: char, limit: nat) -> Reading
    decreases limit, 0nat, 0nat,
{
    if reading.escape {
        Reading { escape: false, current: reading.current.push(c), ..reading }
    } else if c == '?' && reading.depth == 0 {
        Reading {
            requirement: parse_requirement(reading.current),
            current: Seq::empty(),
            ..reading
        }
    } else if c == '[' {
        if reading.depth == 0 {
            Reading {
                contents: reading.contents.push(PieceModel::Text(reading.current)),
                current: Seq::empty(),
                depth: 1,
                ..reading
            }
        } else {
            Reading { current: reading.current.push(c), depth: reading.depth + 1, ..reading }
        }
    } else if c == ']' {
        if reading.depth == 1 {
            let piece = if has_char(reading.current, '?') {
                if reading.current.len() < limit {
                    PieceModel::Formatted(parse_formatting(reading.current))
                } else {
                    PieceModel::Text(reading.current)
                }
            } else {
                PieceModel::Variable(reading.current)
            };
            Reading {
                contents: reading.contents.push(piece),
                current: Seq::empty(),
                depth: 0,
                ..reading
            }
        } else {
            Reading { current: reading.current.push(c), depth: reading.depth - 1, ..reading }
        }
    } else if c == '\\' {
        Reading { escape: true, ..reading }
    } else {
        Reading { current: reading.current.push(c), ..reading }
    }
}

/// The value of a variable: the value generated for the name in lowercase,
/// or nothing. A name all in uppercase gives the value in uppercase; a name
/// that begins with an uppercase character gives the value with its first
/// character in uppercase.
pub open spec fn variable_value(name: Seq<char>, generated: Map<Seq<char>, Seq<char>>) -> Seq<
    char,
> {
    let key = lowercase(name);
    let value = if generated.contains_key(key) {
        generated[key]
    } else {
        Seq::empty()
    };
    if uppercase(name) == name {
        uppercase(value)
    } else if value.len() > 0 && name.len() > 0 && is_capital(name[0]) {
        char_uppercase(value[0]) + value.skip(1)
    } else {
        value
    }
}

/// The text of a template: nothing where its requirement fails; otherwise
/// what its pieces render, one after the other, with the lines and then the
/// words squeezed and ` .` made `.`.
pub open spec fn render(formatting: FormattingModel, generated: Map<Seq<char>, Seq<char>>) -> Seq<
    char,
>
    decreases formatting, 0nat,
{
    if meets(formatting.requirement, generated, Map::empty()) {
        fix_periods(
            squeeze(
                squeeze(
                    render_pieces(formatting.contents, formatting.contents.len() as int, generated),
                    '\n',
                ),
                ' ',
            ),
        )
    } else {
        Seq::empty()
    }
}

/// What the first `n` pieces render, one after the other.
pub open spec fn render_pieces(
    contents: Seq<PieceModel>,
    n: int,
    generated: Map<Seq<char>, Seq<char>>,
) -> Seq<char>
    decreases contents, n,
{
    if n <= 0 || n > contents.len() {
        Seq::empty()
    } else {
        render_pieces(contents, n - 1, generated) + render_piece(contents[n - 1], generated)
    }
}

/// What one piece renders.
pub open spec fn render_piece(piece: PieceModel, generated: Map<Seq<char>, Seq<char>>) -> Seq<char>
    decreases piece, 0nat,
{
    match piece {
        PieceModel::Text(text) => text,
        PieceModel::Formatted(inner) => render(inner, generated),
        PieceModel::Variable(name) => variable_value(name, generated),
    }
}

/// The value of the variable `name`.
fn value_of(name: &String, generated: &Generated) -> (r: Vec<char>)
    ensures
        r@ == variable_value(name@, generated@),
{
    let key = name.as_str().to_lowercase();
    let value = match generated.get(key.as_str()) {
        Some(value) => chars_of(value.as_str()),
        None => Vec::new(),
    };
    let upper = name.as_str().to_uppercase();
    let letters = chars_of(name.as_str());
    if upper == *name {
        let text = string_from(&value);
        chars_of(text.as_str().to_uppercase().as_str())
    } else if value.len() > 0 && letters.len() > 0 && letters[0].is_uppercase() {
        let mut out = uppercase_of_char(value[0]);
        let ghost head = out@;
        let mut i: usize = 1;
        while i < value.len()
            invariant
                1 <= i <= value.len(),
                out@ == head + value@.subrange(1, i as int),
            decreases value.len() - i,
        {
            out.push(value[i]);
            i += 1;
            assert(value@.subrange(1, i as int) == value@.subrange(1, i - 1).push(value@[i - 1]));
        }
        assert(value@.subrange(1, value.len() as int) == value@.skip(1));
        out
    } else {
        value
    }
}

impl Formatting {
    /// Reads a template. Every text denotes one.
    pub fn parse(s: &str) -> (r: Result<Formatting, String>)
        ensures
            r matches Ok(formatting) && formatting@ == parse_formatting(s@),
    {
        let text = chars_of(s);
        Ok(Formatting::parse_chars(&text))
    }

    /// Reads a template from the characters of its text.
    pub fn parse_chars(text: &Vec<char>) -> (formatting: Formatting)
        ensures
            formatting@ == parse_formatting(text@),
        decreases text.len(),
    {
        let mut requirement = Requirement::default();
        let mut contents: Vec<SubFormatting> = Vec::new();
        let mut depth: i128 = 0;
        let mut current: Vec<char> = Vec::new();
        let mut escape = false;
        let mut i: usize = 0;
        let ghost mut pieces: Seq<PieceModel> = Seq::empty();
        while i < text.len()
            invariant
                i <= text.len(),
                current.len() <= i,
                -(i as int) <= depth <= i as int,
                pieces.len() == contents.len(),
                forall|j: int| 0 <= j < pieces.len() ==> pieces[j] == (#[trigger] contents[j]).view(),
                parse_formatting(text@) == read_from(
                    text@,
                    i as int,
                    Reading {
                        requirement: requirement@,
                        contents: pieces,
                        depth: depth as int,
                        current: current@,
                        escape,
                    },
                ),
            decreases text.len() - i,
        {
            let c = text[i];
            let ghost before = Reading {
                requirement: requirement@,
                contents: pieces,
                depth: depth as int,
                current: current@,
                escape,
            };
            assert(read_from(text@, i as int, before) == read_from(
                text@,
                i + 1,
                read(before, c, text@.len()),
            ));
            if escape {
                escape = false;
                current.push(c);
            } else if c == '?' && depth == 0 {
                requirement = Requirement::parse_chars(&current);
                current = Vec::new();
            } else if c == '[' {
                if depth == 0 {
                    let piece = SubFormatting::Text(string_from(&current));
                    proof {
                        pieces = pieces.push(piece.view());
                    }
                    contents.push(piece);
                    current = Vec::new();
                } else {
                    current.push(c);
                }
                depth = depth + 1;
            } else if c == ']' {
                depth = depth - 1;
                if depth == 0 {
                    let piece = if holds_char(&current, '?') {
                        SubFormatting::Formatted(Formatting::parse_chars(&current))
                    } else {
                        SubFormatting::Variable(string_from(&current))
                    };
                    proof {
                        pieces = pieces.push(piece.view());
                    }
                    contents.push(piece);
                    current = Vec::new();
                } else {
                    current.push(c);
                }
            } else if c == '\\' {
                escape = true;
            } else {
                current.push(c);
            }
            assert(read(before, c, text@.len()) == Reading {
                requirement: requirement@,
                contents: pieces,
                depth: depth as int,
                current: current@,
                escape,
            });
            i += 1;
        }
        let last = SubFormatting::Text(string_from(&current));
        proof {
            pieces = pieces.push(last.view());
        }
        contents.push(last);
        let formatting = Formatting { requirement, contents };
        assert(formatting@.contents =~= pieces);
        formatting
    }

    /// Renders the template with what was generated.
    pub fn format(&self, generated: &Generated) -> (s: String)
        ensures
            s@ == render(self@, generated@),
    {
        let out = self.render_chars(generated);
        string_from(&out)
    }

    /// Renders the template as characters.
    pub fn render_chars(&self, generated: &Generated) -> (out: Vec<char>)
        ensures
            out@ == render(self@, generated@),
        decreases self,
    {
        let nothing: Dict<Vec<String>> = Dict::new();
        if !meets_requirement(&self.requirement, generated, &nothing) {
            return Vec::new();
        }
        let mut out: Vec<char> = Vec::new();
        let mut i: usize = 0;
        while i < self.contents.len()
            invariant
                i <= self.contents.len(),
                out@ == render_pieces(self@.contents, i as int, generated@),
            decreases self.contents.len() - i,
        {
            assert(self@.contents[i as int] == self.contents[i as int].view());
            let ghost before = out@;
            assert(render_pieces(self@.contents, i + 1, generated@) == render_pieces(
                self@.contents,
                i as int,
                generated@,
            ) + render_piece(self@.contents[i as int], generated@));
            match &self.contents[i] {
                SubFormatting::Text(text) => {
                    append_str(&mut out, text.as_str());
                },
                SubFormatting::Variable(name) => {
                    let value = value_of(name, generated);
                    append_chars(&mut out, &value);
                },
                SubFormatting::Formatted(inner) => {
                    let value = inner.render_chars(generated);
                    append_chars(&mut out, &value);
                },
            }
            assert(out@ == before + render_piece(self@.contents[i as int], generated@));
            i += 1;
        }
        let lines = squeezed(&out, '\n');
        let words = squeezed(&lines, ' ');
        periods_fixed(&words)
    }
}

/// A copy of a template.
pub fn copy_formatting(formatting: &Formatting) -> (r: Formatting)
    ensures
        r@ == formatting@,
    decreases formatting,
{
    let mut contents: Vec<SubFormatting> = Vec::new();
    let mut i: usize = 0;
    while i < formatting.contents.len()
        invariant
            i <= formatting.contents.len(),
            contents.len() == i,
            forall|j: int|
                0 <= j < i ==> (#[trigger] contents[j]).view() == formatting.contents[j].view(),
        decreases formatting.contents.len() - i,
    {
        let piece = match &formatting.contents[i] {
            SubFormatting::Text(text) => SubFormatting::Text(text.clone()),
            SubFormatting::Formatted(inner) => SubFormatting::Formatted(copy_formatting(inner)),
            SubFormatting::Variable(name) => SubFormatting::Variable(name.clone()),
        };
        contents.push(piece);
        i += 1;
    }
    let r = Formatting { requirement: formatting.requirement.clone(), contents };
    assert(r@.contents =~= formatting@.contents);
    r
}

impl Clone for Formatting {
    fn clone(&self) -> (r: Self)
        ensures
            r@ == self@,
    {
        copy_formatting(self)
    }
}

impl Clone for SubFormatting {
    fn clone(&self) -> (r: Self)
        ensures
            r.view() == self.view(),
    {
        match self {
            SubFormatting::Text(text) => SubFormatting::Text(text.clone()),
            SubFormatting::Formatted(inner) => SubFormatting::Formatted(copy_formatting(inner)),
            SubFormatting::Variable(name) => SubFormatting::Variable(name.clone()),
        }
    }
}

impl core::str::FromStr for Formatting {
    type Err = String;

    /// Reads a template, as `Formatting::parse` does. Every text denotes one.
    fn from_str(s: &str) -> (r: Result<Self, String>)
        ensures
            r matches Ok(formatting) && formatting@ == parse_formatting(s@),
    {
        Formatting::parse(s)
    }
}

} // verus!
