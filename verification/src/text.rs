//! Text as sequences of characters: conversions between `str`, `String` and
//! `Vec<char>`, and the string operations the rest of the crate is built on.

use vstd::prelude::*;

verus! {

/// `String::push` of std appends the one character to the end of the string.
pub assume_specification[ String::push ](s: &mut String, c: char)
    ensures
        final(s)@ == old(s)@.push(c),
;

/// What `char::is_whitespace` of std answers for `c`: whether the character
/// has the Unicode property White_Space.
pub uninterp spec fn is_space(c: char) -> bool;

/// `char::is_whitespace` of std is a function of the character alone.
pub assume_specification[ char::is_whitespace ](c: char) -> (r: bool)
    ensures
        r == is_space(c),
;

/// What `str::to_lowercase` of std gives for a string: its lowercase
/// equivalent by the Unicode case mappings.
pub uninterp spec fn lowercase(s: Seq<char>) -> Seq<char>;

/// `str::to_lowercase` of std is a function of the string alone.
pub assume_specification[ str::to_lowercase ](s: &str) -> (r: String)
    ensures
        r@ == lowercase(s@),
;

/// What `str::to_uppercase` of std gives for a string: its uppercase
/// equivalent by the Unicode case mappings.
pub uninterp spec fn uppercase(s: Seq<char>) -> Seq<char>;

/// `str::to_uppercase` of std is a function of the string alone.
pub assume_specification[ str::to_uppercase ](s: &str) -> (r: String)
    ensures
        r@ == uppercase(s@),
;

/// What `char::is_uppercase` of std answers for `c`: whether the character
/// has the Unicode property Uppercase.
pub uninterp spec fn is_capital(c: char) -> bool;

/// `char::is_uppercase` of std is a function of the character alone.
pub assume_specification[ char::is_uppercase ](c: char) -> (r: bool)
    ensures
        r == is_capital(c),
;

/// The characters that `char::to_uppercase` of std yields for `c`: its
/// uppercase mapping, which may be more than one character.
pub uninterp spec fn char_uppercase(c: char) -> Seq<char>;

/// `char::to_uppercase` of std, its characters collected: a function of the
/// character alone.
#[verifier::external_body]
pub(crate) fn uppercase_of_char(c: char) -> (r: Vec<char>)
    ensures
        r@ == char_uppercase(c),
{
    c.to_uppercase().collect()
}

/// What formatting a string with `{:?}` gives: the string between double
/// quotes, with the characters escaped that `str`'s `Debug` escapes.
pub uninterp spec fn quoted(s: Seq<char>) -> Seq<char>;

/// The `Debug` form of a string, which std computes from the string alone.
#[verifier::external_body]
pub(crate) fn quoted_of(s: &str) -> (r: String)
    ensures
        r@ == quoted(s@),
{
    format!("{:?}", s)
}

/// The characters of `s`, in order.
pub fn chars_of(s: &str) -> (v: Vec<char>)
    ensures
        v@ == s@,
{
    let mut v: Vec<char> = Vec::new();
    for c in it: s.chars()
        invariant
            it.seq() == s@,
            v@ == s@.take(it.index() as int),
    {
        v.push(c);
        assert(s@.take(it.index() + 1) == s@.take(it.index() as int).push(c));
    }
    assert(s@.take(s@.len() as int) == s@);
    v
}

/// The string made of the characters `v[from..to]`.
pub fn string_of(v: &Vec<char>, from: usize, to: usize) -> (s: String)
    requires
        from <= to <= v.len(),
    ensures
        s@ == v@.subrange(from as int, to as int),
{
    let mut s = String::new();
    let mut i: usize = from;
    while i < to
        invariant
            from <= i <= to <= v.len(),
            s@ == v@.subrange(from as int, i as int),
        decreases to - i,
    {
        s.push(v[i]);
        i += 1;
        assert(v@.subrange(from as int, i as int) == v@.subrange(from as int, i - 1).push(
            v@[i - 1],
        ));
    }
    s
}

/// The string made of all the characters of `v`.
pub fn string_from(v: &Vec<char>) -> (s: String)
    ensures
        s@ == v@,
{
    let s = string_of(v, 0, v.len());
    assert(v@.subrange(0, v.len() as int) == v@);
    s
}

/// Appends the characters of `s` to `out`.
pub fn append_str(out: &mut Vec<char>, s: &str)
    ensures
        final(out)@ == old(out)@ + s@,
{
    let v = chars_of(s);
    append_chars(out, &v);
}

/// Appends the characters of `v` to `out`.
pub fn append_chars(out: &mut Vec<char>, v: &Vec<char>)
    ensures
        final(out)@ == old(out)@ + v@,
{
    let mut i: usize = 0;
    while i < v.len()
        invariant
            i <= v.len(),
            out@ == old(out)@ + v@.take(i as int),
        decreases v.len() - i,
    {
        out.push(v[i]);
        i += 1;
        assert(v@.take(i as int) == v@.take(i - 1).push(v@[i - 1]));
    }
    assert(v@.take(v.len() as int) == v@);
}

/// Whether `a` comes before `b` in the lexicographic order of character codes,
/// the order in which std compares strings.
pub open spec fn lex_less(a: Seq<char>, b: Seq<char>) -> bool
    decreases a.len(),
{
    if b.len() == 0 {
        false
    } else if a.len() == 0 {
        true
    } else if a[0] != b[0] {
        (a[0] as int) < (b[0] as int)
    } else {
        lex_less(a.drop_first(), b.drop_first())
    }
}

/// No sequence comes before itself.
pub proof fn lemma_lex_irreflexive(a: Seq<char>)
    ensures
        !lex_less(a, a),
    decreases a.len(),
{
    if a.len() > 0 {
        lemma_lex_irreflexive(a.drop_first());
    }
}

/// Of two different sequences exactly one comes before the other.
pub proof fn lemma_lex_total(a: Seq<char>, b: Seq<char>)
    ensures
        a != b ==> (lex_less(a, b) != lex_less(b, a)),
        a == b ==> !lex_less(a, b),
    decreases a.len(),
{
    if a == b {
        lemma_lex_irreflexive(a);
    } else if a.len() > 0 && b.len() > 0 {
        if a[0] == b[0] {
            lemma_lex_total(a.drop_first(), b.drop_first());
            if a.drop_first() == b.drop_first() {
                assert(a =~= seq![a[0]] + a.drop_first());
                assert(b =~= seq![b[0]] + b.drop_first());
            }
        } else {
            assert((a[0] as int) != (b[0] as int));
        }
    } else if a.len() == 0 && b.len() == 0 {
        assert(a =~= b);
    }
}

/// What comes before a sequence that comes before a third comes before the
/// third.
pub proof fn lemma_lex_transitive(a: Seq<char>, b: Seq<char>, c: Seq<char>)
    requires
        lex_less(a, b),
        lex_less(b, c),
    ensures
        lex_less(a, c),
    decreases a.len(),
{
    if a.len() > 0 {
        if a[0] == b[0] && b[0] == c[0] {
            lemma_lex_transitive(a.drop_first(), b.drop_first(), c.drop_first());
        }
    }
}

/// Decides `lex_less` on two strings.
pub fn less(a: &str, b: &str) -> (r: bool)
    ensures
        r == lex_less(a@, b@),
{
    let va = chars_of(a);
    let vb = chars_of(b);
    let mut i: usize = 0;
    assert(va@.skip(0) == va@ && vb@.skip(0) == vb@);
    while i < va.len() && i < vb.len()
        invariant
            va@ == a@,
            vb@ == b@,
            i <= va.len(),
            i <= vb.len(),
            lex_less(va@, vb@) == lex_less(va@.skip(i as int), vb@.skip(i as int)),
        decreases va.len() - i,
    {
        let ghost sa = va@.skip(i as int);
        let ghost sb = vb@.skip(i as int);
        assert(sa.drop_first() == va@.skip(i + 1));
        assert(sb.drop_first() == vb@.skip(i + 1));
        assert(sa[0] == va@[i as int] && sb[0] == vb@[i as int]);
        if va[i] != vb[i] {
            return va[i] < vb[i];
        }
        i += 1;
    }
    assert(va@.skip(i as int).len() == va.len() - i);
    assert(vb@.skip(i as int).len() == vb.len() - i);
    i < vb.len()
}

/// The index of the first `c` in `s`, or the length of `s` where it has none.
pub open spec fn position(s: Seq<char>, c: char) -> int
    decreases s.len(),
{
    if s.len() == 0 || s[0] == c {
        0
    } else {
        1 + position(s.drop_first(), c)
    }
}

/// `position` is the one index before which no `c` stands and at which one does.
pub proof fn lemma_position(s: Seq<char>, c: char, k: int)
    requires
        0 <= k <= s.len(),
        forall|j: int| 0 <= j < k ==> s[j] != c,
        k < s.len() ==> s[k] == c,
    ensures
        position(s, c) == k,
    decreases s.len(),
{
    if s.len() == 0 || s[0] == c {
    } else {
        lemma_position(s.drop_first(), c, k - 1);
    }
}

/// The pieces of `s` between the occurrences of `c`: always at least one piece.
pub open spec fn split(s: Seq<char>, c: char) -> Seq<Seq<char>>
    decreases s.len(),
{
    let p = position(s, c);
    if 0 <= p < s.len() {
        seq![s.take(p)] + split(s.skip(p + 1), c)
    } else {
        seq![s]
    }
}

/// A split has at least one piece.
pub proof fn lemma_split_nonempty(s: Seq<char>, c: char)
    ensures
        split(s, c).len() > 0,
{
}

/// The character sequences that the vectors of `v` hold.
pub open spec fn views(v: Seq<Vec<char>>) -> Seq<Seq<char>> {
    v.map_values(|p: Vec<char>| p@)
}

/// Splits `v` at each `c`.
pub fn split_chars(v: &Vec<char>, c: char) -> (pieces: Vec<Vec<char>>)
    ensures
        views(pieces@) == split(v@, c),
{
    let mut pieces: Vec<Vec<char>> = Vec::new();
    let mut piece: Vec<char> = Vec::new();
    let mut start: usize = 0;
    let mut i: usize = 0;
    assert(v@.skip(0) == v@ && views(pieces@) + split(v@, c) == split(v@, c));
    while i < v.len()
        invariant
            start <= i <= v.len(),
            piece@ == v@.subrange(start as int, i as int),
            forall|j: int| start <= j < i ==> v@[j] != c,
            split(v@, c) == views(pieces@) + split(v@.skip(start as int), c),
        decreases v.len() - i,
    {
        let ghost rest = v@.skip(start as int);
        if v[i] == c {
            proof {
                lemma_position(rest, c, i - start);
                assert(rest.take(i - start) == piece@);
                assert(rest.skip(i - start + 1) == v@.skip(i + 1));
                assert(views(pieces@).push(piece@) == views(pieces@) + seq![piece@]);
            }
            let ghost before = views(pieces@);
            let ghost done = piece@;
            pieces.push(piece);
            assert(views(pieces@) == before.push(done));
            piece = Vec::new();
            start = i + 1;
            i += 1;
        } else {
            piece.push(v[i]);
            i += 1;
            assert(v@.subrange(start as int, i as int) == v@.subrange(start as int, i - 1).push(
                v@[i - 1],
            ));
        }
    }
    proof {
        let rest = v@.skip(start as int);
        lemma_position(rest, c, rest.len() as int);
        assert(rest == piece@);
        assert(views(pieces@).push(piece@) == views(pieces@) + seq![piece@]);
    }
    let ghost before = views(pieces@);
    pieces.push(piece);
    assert(views(pieces@) == before.push(piece@));
    pieces
}

/// `s` without the whitespace at its start.
pub open spec fn trim_start(s: Seq<char>) -> Seq<char>
    decreases s.len(),
{
    if s.len() > 0 && is_space(s[0]) {
        trim_start(s.drop_first())
    } else {
        s
    }
}

/// `s` without the whitespace at its end.
pub open spec fn trim_end(s: Seq<char>) -> Seq<char>
    decreases s.len(),
{
    if s.len() > 0 && is_space(s.last()) {
        trim_end(s.drop_last())
    } else {
        s
    }
}

/// `s` without the whitespace at its start and at its end, as `str::trim`
/// of std leaves it.
pub open spec fn trim(s: Seq<char>) -> Seq<char> {
    trim_end(trim_start(s))
}

/// A copy of `v[from..to]`.
pub fn slice_of(v: &Vec<char>, from: usize, to: usize) -> (r: Vec<char>)
    requires
        from <= to <= v.len(),
    ensures
        r@ == v@.subrange(from as int, to as int),
{
    let mut r: Vec<char> = Vec::new();
    let mut i: usize = from;
    while i < to
        invariant
            from <= i <= to <= v.len(),
            r@ == v@.subrange(from as int, i as int),
        decreases to - i,
    {
        r.push(v[i]);
        i += 1;
        assert(v@.subrange(from as int, i as int) == v@.subrange(from as int, i - 1).push(
            v@[i - 1],
        ));
    }
    r
}

/// Removes the whitespace at both ends of `v`.
pub fn trimmed(v: &Vec<char>) -> (r: Vec<char>)
    ensures
        r@ == trim(v@),
{
    let mut a: usize = 0;
    assert(v@.skip(0) == v@);
    while a < v.len() && v[a].is_whitespace()
        invariant
            a <= v.len(),
            trim_start(v@) == trim_start(v@.skip(a as int)),
        decreases v.len() - a,
    {
        assert(v@.skip(a as int).drop_first() == v@.skip(a + 1));
        a += 1;
    }
    assert(trim_start(v@) == v@.skip(a as int));
    let mut b: usize = v.len();
    assert(v@.skip(a as int) == v@.subrange(a as int, b as int));
    while b > a && v[b - 1].is_whitespace()
        invariant
            a <= b <= v.len(),
            trim(v@) == trim_end(v@.subrange(a as int, b as int)),
        decreases b,
    {
        assert(v@.subrange(a as int, b as int).drop_last() == v@.subrange(a as int, b - 1));
        b -= 1;
    }
    slice_of(v, a, b)
}

/// The pieces put together again with `c` between each two of them.
pub open spec fn join(pieces: Seq<Seq<char>>, c: char) -> Seq<char>
    decreases pieces.len(),
{
    if pieces.len() == 0 {
        Seq::empty()
    } else if pieces.len() == 1 {
        pieces[0]
    } else {
        pieces[0] + seq![c] + join(pieces.drop_first(), c)
    }
}

/// Joining one more piece appends the separator and the piece.
pub proof fn lemma_join_push(pieces: Seq<Seq<char>>, piece: Seq<char>, c: char)
    requires
        pieces.len() > 0,
    ensures
        join(pieces.push(piece), c) == join(pieces, c) + seq![c] + piece,
    decreases pieces.len(),
{
    let all = pieces.push(piece);
    if pieces.len() == 1 {
        assert(all.drop_first() == seq![piece]);
        assert(join(all.drop_first(), c) == piece);
    } else {
        lemma_join_push(pieces.drop_first(), piece, c);
        assert(all.drop_first() == pieces.drop_first().push(piece));
        assert(join(all, c) == all[0] + seq![c] + join(all.drop_first(), c));
        assert(join(all, c) == join(pieces, c) + seq![c] + piece);
    }
}

/// Whether the character `c` occurs in `s`.
pub open spec fn has_char(s: Seq<char>, c: char) -> bool {
    exists|i: int| 0 <= i < s.len() && s[i] == c
}

/// Splitting what was joined gives the pieces back, where there is at least
/// one piece and none of them holds the separator.
pub proof fn lemma_split_join(pieces: Seq<Seq<char>>, c: char)
    requires
        pieces.len() > 0,
        forall|i: int| 0 <= i < pieces.len() ==> !has_char(#[trigger] pieces[i], c),
    ensures
        split(join(pieces, c), c) == pieces,
    decreases pieces.len(),
{
    let head = pieces[0];
    let s = join(pieces, c);
    assert(!has_char(head, c));
    if pieces.len() == 1 {
        lemma_position(s, c, s.len() as int);
        assert(split(s, c) == seq![s]);
        assert(seq![s] == pieces);
    } else {
        let rest = pieces.drop_first();
        assert forall|i: int| 0 <= i < rest.len() implies !has_char(#[trigger] rest[i], c) by {
            assert(rest[i] == pieces[i + 1]);
        }
        lemma_split_join(rest, c);
        let k = head.len() as int;
        assert forall|j: int| 0 <= j < k implies s[j] != c by {
            assert(s[j] == head[j]);
        }
        assert(s[k] == c);
        lemma_position(s, c, k);
        assert(s.take(k) == head);
        assert(s.skip(k + 1) == join(rest, c));
        assert(seq![head] + rest == pieces);
    }
}

/// The character of one decimal digit.
pub open spec fn digit(d: nat) -> char {
    if d == 0 {
        '0'
    } else if d == 1 {
        '1'
    } else if d == 2 {
        '2'
    } else if d == 3 {
        '3'
    } else if d == 4 {
        '4'
    } else if d == 5 {
        '5'
    } else if d == 6 {
        '6'
    } else if d == 7 {
        '7'
    } else if d == 8 {
        '8'
    } else {
        '9'
    }
}

/// The decimal numeral of `n`, without leading zeros.
pub open spec fn decimal(n: nat) -> Seq<char>
    decreases n,
{
    if n < 10 {
        seq![digit(n)]
    } else {
        decimal(n / 10).push(digit(n % 10))
    }
}

/// The number that a decimal digit stands for.
pub open spec fn digit_value(c: char) -> nat {
    if c == '1' {
        1
    } else if c == '2' {
        2
    } else if c == '3' {
        3
    } else if c == '4' {
        4
    } else if c == '5' {
        5
    } else if c == '6' {
        6
    } else if c == '7' {
        7
    } else if c == '8' {
        8
    } else if c == '9' {
        9
    } else {
        0
    }
}

/// The number that a decimal numeral stands for.
pub open spec fn number(s: Seq<char>) -> nat
    decreases s.len(),
{
    if s.len() == 0 {
        0
    } else {
        number(s.drop_last()) * 10 + digit_value(s.last())
    }
}

/// A decimal numeral stands for the number it was written for, so that two
/// numbers with the same numeral are the same.
pub proof fn lemma_decimal(n: nat)
    ensures
        number(decimal(n)) == n,
    decreases n,
{
    if n < 10 {
        assert(decimal(n).drop_last() =~= Seq::<char>::empty());
        assert(number(decimal(n).drop_last()) == 0);
    } else {
        lemma_decimal(n / 10);
        assert(decimal(n).drop_last() =~= decimal(n / 10));
    }
}

/// The character of the decimal digit `d`.
fn digit_of(d: usize) -> (c: char)
    requires
        d < 10,
    ensures
        c == digit(d as nat),
{
    if d == 0 {
        '0'
    } else if d == 1 {
        '1'
    } else if d == 2 {
        '2'
    } else if d == 3 {
        '3'
    } else if d == 4 {
        '4'
    } else if d == 5 {
        '5'
    } else if d == 6 {
        '6'
    } else if d == 7 {
        '7'
    } else if d == 8 {
        '8'
    } else {
        '9'
    }
}

/// Writes `n` as a decimal numeral.
pub fn decimal_of(n: usize) -> (v: Vec<char>)
    ensures
        v@ == decimal(n as nat),
    decreases n,
{
    if n < 10 {
        let mut v: Vec<char> = Vec::new();
        v.push(digit_of(n));
        assert(v@ == seq![digit(n as nat)]);
        v
    } else {
        let mut v = decimal_of(n / 10);
        v.push(digit_of(n % 10));
        v
    }
}

/// Decides whether `c` occurs in `v`.
pub fn holds_char(v: &Vec<char>, c: char) -> (r: bool)
    ensures
        r == has_char(v@, c),
{
    let mut i: usize = 0;
    while i < v.len()
        invariant
            i <= v.len(),
            forall|j: int| 0 <= j < i ==> v@[j] != c,
        decreases v.len() - i,
    {
        if v[i] == c {
            return true;
        }
        i += 1;
    }
    false
}

/// Among the first `n` pieces, those that are not empty, each trimmed.
pub open spec fn kept(pieces: Seq<Seq<char>>, n: int) -> Seq<Seq<char>>
    decreases n,
{
    if n <= 0 || n > pieces.len() {
        Seq::empty()
    } else {
        let before = kept(pieces, n - 1);
        if pieces[n - 1].len() > 0 {
            before.push(trim(pieces[n - 1]))
        } else {
            before
        }
    }
}

/// `s` split at each `c`, the empty pieces dropped, the others trimmed and
/// joined with `c` again.
pub open spec fn squeeze(s: Seq<char>, c: char) -> Seq<char> {
    let pieces = split(s, c);
    join(kept(pieces, pieces.len() as int), c)
}

/// Computes `squeeze`.
pub fn squeezed(v: &Vec<char>, c: char) -> (r: Vec<char>)
    ensures
        r@ == squeeze(v@, c),
{
    let pieces = split_chars(v, c);
    let ghost model = views(pieces@);
    let mut out: Vec<char> = Vec::new();
    let mut count: usize = 0;
    let mut i: usize = 0;
    while i < pieces.len()
        invariant
            i <= pieces.len(),
            model == views(pieces@),
            count == kept(model, i as int).len(),
            count <= i,
            out@ == join(kept(model, i as int), c),
        decreases pieces.len() - i,
    {
        assert(model[i as int] == pieces[i as int]@);
        if pieces[i].len() > 0 {
            let piece = trimmed(&pieces[i]);
            proof {
                if count > 0 {
                    lemma_join_push(kept(model, i as int), piece@, c);
                } else {
                    assert(kept(model, i as int).push(piece@) =~= seq![piece@]);
                }
            }
            if count > 0 {
                out.push(c);
            }
            append_chars(&mut out, &piece);
            count += 1;
        }
        i += 1;
    }
    out
}

/// `s` with every ` .` replaced by `.`, taken from the left, as
/// `str::replace` of std does it.
pub open spec fn fix_periods(s: Seq<char>) -> Seq<char>
    decreases s.len(),
{
    if s.len() == 0 {
        Seq::empty()
    } else if s.len() >= 2 && s[0] == ' ' && s[1] == '.' {
        seq!['.'] + fix_periods(s.skip(2))
    } else {
        seq![s[0]] + fix_periods(s.skip(1))
    }
}

/// Whether `a` stands directly before `b` somewhere in `s`.
pub open spec fn has_pair(s: Seq<char>, a: char, b: char) -> bool {
    exists|i: int| 0 <= i < s.len() - 1 && s[i] == a && #[trigger] s[i + 1] == b
}

/// Text without two spaces in a row has no ` .` left once its periods are
/// fixed.
pub proof fn lemma_periods_fixed(s: Seq<char>)
    requires
        !has_pair(s, ' ', ' '),
    ensures
        !has_pair(fix_periods(s), ' ', '.'),
    decreases s.len(),
{
    let fixed = fix_periods(s);
    if s.len() == 0 {
    } else {
        let step: int = if s.len() >= 2 && s[0] == ' ' && s[1] == '.' {
            2
        } else {
            1
        };
        let rest = s.skip(step);
        let tail = fix_periods(rest);
        if has_pair(rest, ' ', ' ') {
            let i = choose|i: int| 0 <= i < rest.len() - 1 && rest[i] == ' ' && #[trigger] rest[i
                + 1] == ' ';
            assert(s[i + step] == ' ' && s[i + step + 1] == ' ');
        }
        lemma_periods_fixed(rest);
        if has_pair(fixed, ' ', '.') {
            let i = choose|i: int| 0 <= i < fixed.len() - 1 && fixed[i] == ' ' && #[trigger] fixed[i
                + 1] == '.';
            if i > 0 {
                assert(tail[i - 1] == ' ' && tail[i - 1 + 1] == '.');
            } else {
                assert(step == 1 && s[0] == ' ');
                assert(tail[0] == '.');
                assert(rest[0] == s[1]);
                if rest.len() >= 2 && rest[0] == ' ' && rest[1] == '.' {
                    let k: int = 0;
                    assert(s[k] == ' ' && s[k + 1] == ' ');
                }
            }
        }
    }
}

/// Computes `fix_periods`.
pub fn periods_fixed(v: &Vec<char>) -> (r: Vec<char>)
    ensures
        r@ == fix_periods(v@),
{
    let mut out: Vec<char> = Vec::new();
    let mut i: usize = 0;
    assert(v@.skip(0) == v@);
    while i < v.len()
        invariant
            i <= v.len(),
            fix_periods(v@) == out@ + fix_periods(v@.skip(i as int)),
        decreases v.len() - i,
    {
        let ghost rest = v@.skip(i as int);
        let ghost before = out@;
        if v[i] == ' ' && i + 1 < v.len() && v[i + 1] == '.' {
            out.push('.');
            assert(rest.skip(2) == v@.skip(i + 2));
            assert(before + (seq!['.'] + fix_periods(rest.skip(2))) == out@ + fix_periods(
                rest.skip(2),
            ));
            i += 2;
        } else {
            out.push(v[i]);
            assert(rest.skip(1) == v@.skip(i + 1));
            assert(before + (seq![rest[0]] + fix_periods(rest.skip(1))) == out@ + fix_periods(
                rest.skip(1),
            ));
            i += 1;
        }
    }
    assert(out@ + Seq::<char>::empty() == out@);
    out
}

} // verus!
