//! Environment variable interpolation for `.yarnrc.yml` values.
//!
//! A value may hold the three substitution forms `${NAME}`, `${NAME-fallback}` and
//! `${NAME:-fallback}`, where a fallback may itself hold substitutions, and the escapes `\\`,
//! `\$` and `\}`.

use crate::text;
use vstd::prelude::*;
use vstd::string::*;
use vstd::utf8::*;

verus! {

/// The bytes that the scanner looks for.
const BACKSLASH: u8 = 0x5c;

const DOLLAR: u8 = 0x24;

const OPEN_BRACE: u8 = 0x7b;

const CLOSE_BRACE: u8 = 0x7d;

const COLON: u8 = 0x3a;

const DASH: u8 = 0x2d;

/// What a substitution does when its variable has no value to offer.
#[derive(Debug, PartialEq, Eq, Clone, Copy, Structural)]
pub enum Operator {
    /// `${NAME}`. The variable has to be set, an empty value is still a value.
    Required,
    /// `${NAME-fallback}`. Falls back only when the variable is unset.
    Unset,
    /// `${NAME:-fallback}`. Falls back when the variable is unset or empty.
    UnsetOrEmpty,
}

/// A piece of a value that interpolation acts on.
#[derive(Debug)]
pub enum Token<'a> {
    /// `\\`, `\$` or `\}`, carrying the escaped character.
    Escaped(char),
    /// The opening of a substitution, up to and with its operator.
    Variable { name: &'a str, operator: Operator },
    /// A `${` that does not open one of the substitution forms.
    Unknown,
    /// A `}`.
    CloseBrace,
}

/// Why a value has no interpolation.
#[derive(Debug)]
pub enum InterpolateError {
    /// `${NAME}` names a variable that is not set.
    NotFound { name: String },
    /// A `${` does not open one of the substitution forms.
    InvalidSyntax { input: String },
    /// A substitution is never closed.
    Incomplete { input: String },
}

/// The mathematical token.
pub enum Piece {
    Escaped(char),
    Variable { name: Seq<char>, operator: Operator },
    Unknown,
    CloseBrace,
}

/// The mathematical error.
pub enum Fault {
    NotFound(Seq<char>),
    InvalidSyntax,
    Incomplete,
}

/// An ASCII letter.
pub open spec fn is_letter(c: char) -> bool {
    'a' <= c <= 'z' || 'A' <= c <= 'Z'
}

/// A character that may follow the first one of a variable's name.
pub open spec fn is_name_char(c: char) -> bool {
    is_letter(c) || '0' <= c <= '9' || c == '_'
}

/// Whether a backslash escapes the character.
pub open spec fn is_escapable(c: char) -> bool {
    c == '\\' || c == '$' || c == '}'
}

/// Where the run of name characters from `i` on ends.
pub open spec fn name_end(s: Seq<char>, i: int) -> int
    decreases s.len() - i,
{
    if 0 <= i < s.len() && is_name_char(s[i]) {
        name_end(s, i + 1)
    } else {
        i
    }
}

/// The name of the variable of a substitution that opens at `i`.
pub open spec fn variable_name(s: Seq<char>, i: int) -> Seq<char> {
    s.subrange(i + 2, name_end(s, i + 3))
}

/// The operator that stands at `i`, right behind a name, and where it ends. The brace that closes
/// a `${NAME}` is looked at and not consumed.
pub open spec fn operator_at(s: Seq<char>, i: int) -> Option<(Operator, int)> {
    if i + 1 < s.len() && s[i] == ':' && s[i + 1] == '-' {
        Some((Operator::UnsetOrEmpty, i + 2))
    } else if i < s.len() && s[i] == '-' {
        Some((Operator::Unset, i + 1))
    } else if i < s.len() && s[i] == '}' {
        Some((Operator::Required, i))
    } else {
        None
    }
}

/// Whether a `${` stands at `i`.
pub open spec fn opens_at(s: Seq<char>, i: int) -> bool {
    0 <= i && i + 1 < s.len() && s[i] == '$' && s[i + 1] == '{'
}

/// The token that a `${` at `i` begins, and where it ends.
pub open spec fn substitution_at(s: Seq<char>, i: int) -> (Piece, int) {
    if i + 2 < s.len() && is_letter(s[i + 2]) {
        match operator_at(s, name_end(s, i + 3)) {
            Some((operator, end)) => (
                Piece::Variable { name: variable_name(s, i), operator },
                end,
            ),
            None => (Piece::Unknown, i + 2),
        }
    } else {
        (Piece::Unknown, i + 2)
    }
}

/// The token that begins at `i`, if one does, and where it ends.
pub open spec fn piece_at(s: Seq<char>, i: int) -> Option<(Piece, int)> {
    if !(0 <= i < s.len()) {
        None
    } else if s[i] == '\\' && i + 1 < s.len() && is_escapable(s[i + 1]) {
        Some((Piece::Escaped(s[i + 1]), i + 2))
    } else if s[i] == '$' && i + 1 < s.len() && s[i + 1] == '{' {
        Some(substitution_at(s, i))
    } else if s[i] == '}' {
        Some((Piece::CloseBrace, i + 1))
    } else {
        None
    }
}

/// The position just past the brace that closes a fallback which `i` is in, with `nested` more
/// substitutions open around `i`. `None` if the fallback is never closed.
pub open spec fn fallback_end(s: Seq<char>, i: int, nested: nat) -> Option<int>
    decreases s.len() - i,
{
    if i >= s.len() {
        None
    } else {
        proof {
            lemma_piece_bounds(s, i);
        }
        match piece_at(s, i) {
            None => fallback_end(s, i + 1, nested),
            Some((Piece::Variable { .. }, end)) => fallback_end(s, end, nested + 1),
            Some((Piece::CloseBrace, end)) => if nested == 0 {
                Some(end)
            } else {
                fallback_end(s, end, (nested - 1) as nat)
            },
            Some((_, end)) => fallback_end(s, end, nested),
        }
    }
}

/// How many more substitutions are open at the end of the text than around a fallback which `i` is
/// in and which is never closed, with `nested` more of them open around `i`.
pub open spec fn left_open(s: Seq<char>, i: int, nested: nat) -> nat
    decreases s.len() - i,
{
    if i >= s.len() {
        nested
    } else {
        proof {
            lemma_piece_bounds(s, i);
        }
        match piece_at(s, i) {
            None => left_open(s, i + 1, nested),
            Some((Piece::Variable { .. }, end)) => left_open(s, end, nested + 1),
            Some((Piece::CloseBrace, end)) => if nested == 0 {
                0
            } else {
                left_open(s, end, (nested - 1) as nat)
            },
            Some((_, end)) => left_open(s, end, nested),
        }
    }
}

/// The value that a substitution takes from its variable, if it takes one.
pub open spec fn taken(operator: Operator, answer: Option<Seq<char>>) -> Option<Seq<char>> {
    match answer {
        Some(value) => if operator == Operator::UnsetOrEmpty && value.len() == 0 {
            None
        } else {
            Some(value)
        },
        None => None,
    }
}

/// `head` in front of a text that may not exist.
pub open spec fn prepend(head: Seq<char>, rest: Result<Seq<char>, Fault>) -> Result<
    Seq<char>,
    Fault,
> {
    match rest {
        Ok(tail) => Ok(head + tail),
        Err(fault) => Err(fault),
    }
}

/// What the text of `s` from `i` on resolves to, inside `depth` open substitutions, where
/// `answers` gives for the position of each substitution the value of its variable.
pub open spec fn resolved(
    s: Seq<char>,
    i: int,
    depth: nat,
    answers: spec_fn(int) -> Option<Seq<char>>,
) -> Result<Seq<char>, Fault>
    decreases s.len() - i,
{
    if i >= s.len() {
        if depth == 0 {
            Ok(Seq::empty())
        } else {
            Err(Fault::Incomplete)
        }
    } else {
        proof {
            lemma_piece_bounds(s, i);
            lemma_fallback_bounds(s, piece_at(s, i)->Some_0.1, 0);
        }
        match piece_at(s, i) {
            None => prepend(seq![s[i]], resolved(s, i + 1, depth, answers)),
            Some((Piece::Escaped(c), end)) => prepend(seq![c], resolved(s, end, depth, answers)),
            Some((Piece::Unknown, _)) => Err(Fault::InvalidSyntax),
            Some((Piece::CloseBrace, end)) => if depth == 0 {
                prepend(seq!['}'], resolved(s, end, depth, answers))
            } else {
                resolved(s, end, (depth - 1) as nat, answers)
            },
            Some((Piece::Variable { name, operator }, end)) => match taken(operator, answers(i)) {
                Some(value) => match fallback_end(s, end, 0) {
                    Some(after) => prepend(value, resolved(s, after, depth, answers)),
                    None => Err(Fault::Incomplete),
                },
                None => if operator == Operator::Required {
                    Err(Fault::NotFound(name))
                } else {
                    resolved(s, end, depth + 1, answers)
                },
            },
        }
    }
}

/// The answers of an environment to the substitutions of `s`.
pub open spec fn answers_of(
    s: Seq<char>,
    env: spec_fn(Seq<char>) -> Option<Seq<char>>,
) -> spec_fn(int) -> Option<Seq<char>> {
    |i: int| env(variable_name(s, i))
}

/// What `s` resolves to in the environment `env`.
pub open spec fn interpolated(
    s: Seq<char>,
    env: spec_fn(Seq<char>) -> Option<Seq<char>>,
) -> Result<Seq<char>, Fault> {
    resolved(s, 0, 0, answers_of(s, env))
}

/// Whether `lookup` may answer a question for `name` with `answer`.
pub open spec fn may_answer<F: Fn(&str) -> Option<String>>(
    lookup: F,
    name: Seq<char>,
    answer: Option<Seq<char>>,
) -> bool {
    exists|n: &str, v: Option<String>|
        n@ == name && text::opt_text(v) == answer && #[trigger] call_ensures(lookup, (n,), v)
}

/// Whether `lookup` reads its answers off the environment `env`.
pub open spec fn reads<F: Fn(&str) -> Option<String>>(
    lookup: F,
    env: spec_fn(Seq<char>) -> Option<Seq<char>>,
) -> bool {
    forall|n: &str, v: Option<String>| #[trigger]
        call_ensures(lookup, (n,), v) ==> text::opt_text(v) == env(n@)
}

/// Whether `answers` gives the answers that were recorded.
pub open spec fn agrees(
    answers: spec_fn(int) -> Option<Seq<char>>,
    record: Map<int, Option<Seq<char>>>,
) -> bool {
    forall|i: int| #[trigger] record.contains_key(i) ==> answers(i) == record[i]
}

/// Whether the result is what the text `s` resolves to.
pub open spec fn describes(
    s: Seq<char>,
    result: Result<String, InterpolateError>,
    meaning: Result<Seq<char>, Fault>,
) -> bool {
    match (result, meaning) {
        (Ok(output), Ok(text)) => output@ == text,
        (Err(InterpolateError::NotFound { name }), Err(Fault::NotFound(n))) => name@ == n,
        (Err(InterpolateError::InvalidSyntax { input }), Err(Fault::InvalidSyntax)) => input@ == s,
        (Err(InterpolateError::Incomplete { input }), Err(Fault::Incomplete)) => input@ == s,
        _ => false,
    }
}

/// Whether the result comes of answers that `lookup` may have given, one for each substitution
/// that was asked about, and of no others.
pub open spec fn comes_of<F: Fn(&str) -> Option<String>>(
    lookup: F,
    s: Seq<char>,
    result: Result<String, InterpolateError>,
) -> bool {
    exists|record: Map<int, Option<Seq<char>>>| #[trigger] rests_on(lookup, s, result, record)
}

/// Whether the result comes of the recorded answers, each of which `lookup` may have given.
pub open spec fn rests_on<F: Fn(&str) -> Option<String>>(
    lookup: F,
    s: Seq<char>,
    result: Result<String, InterpolateError>,
    record: Map<int, Option<Seq<char>>>,
) -> bool {
    &&& forall|i: int| #[trigger]
        record.contains_key(i) ==> may_answer(lookup, variable_name(s, i), record[i])
    &&& forall|answers: spec_fn(int) -> Option<Seq<char>>| #[trigger]
        agrees(answers, record) ==> describes(s, result, resolved(s, 0, 0, answers))
    &&& forall|answers: spec_fn(int) -> Option<Seq<char>>| #[trigger]
        agrees(answers, record) ==> asks_what_is_read(s, record, answers)
}

/// Whether the substitutions that were asked about are those that are read up to the first fault:
/// all of them, and no others.
pub open spec fn asks_what_is_read(
    s: Seq<char>,
    record: Map<int, Option<Seq<char>>>,
    answers: spec_fn(int) -> Option<Seq<char>>,
) -> bool {
    forall|i: int|
        #![trigger record.contains_key(i)]
        #![trigger is_asked(s, 0, i, answers)]
        record.contains_key(i) <==> is_asked(s, 0, i, answers)
}

impl InterpolateError {
    /// What is said of the error.
    pub open spec fn text(self) -> Seq<char> {
        match self {
            InterpolateError::NotFound { name } => "environment variable not found: "@ + name@,
            InterpolateError::InvalidSyntax { input } =>
                "invalid environment variable substitution syntax: "@ + input@,
            InterpolateError::Incomplete { input } =>
                "incomplete environment variable substitution: "@ + input@,
        }
    }

    /// The message for the user.
    pub fn message(&self) -> (r: String)
        ensures
            r@ == self.text(),
    {
        match self {
            InterpolateError::NotFound { name } => "environment variable not found: ".to_owned(
            ).concat(name.as_str()),
            InterpolateError::InvalidSyntax { input } =>
                "invalid environment variable substitution syntax: ".to_owned().concat(
                input.as_str(),
            ),
            InterpolateError::Incomplete { input } =>
                "incomplete environment variable substitution: ".to_owned().concat(input.as_str()),
        }
    }
}

impl<'a> Token<'a> {
    /// The token's meaning.
    pub open spec fn piece(self) -> Piece {
        match self {
            Token::Escaped(c) => Piece::Escaped(c),
            Token::Variable { name, operator } => Piece::Variable { name: name@, operator },
            Token::Unknown => Piece::Unknown,
            Token::CloseBrace => Piece::CloseBrace,
        }
    }
}

/// The first token from `i` on, with where it starts and ends.
pub open spec fn next_piece(s: Seq<char>, i: int) -> Option<(int, int, Piece)>
    decreases s.len() - i,
{
    if i >= s.len() {
        None
    } else {
        match piece_at(s, i) {
            Some((piece, end)) => Some((i, end, piece)),
            None => next_piece(s, i + 1),
        }
    }
}

/// A run of name characters ends inside the text or at its end.
proof fn lemma_name_end(s: Seq<char>, i: int)
    ensures
        i <= name_end(s, i),
        i <= s.len() ==> name_end(s, i) <= s.len(),
    decreases s.len() - i,
{
    if 0 <= i < s.len() && is_name_char(s[i]) {
        lemma_name_end(s, i + 1);
    }
}

/// Every token ends behind its start and inside the text, and the opening of a substitution has
/// three characters at least.
pub proof fn lemma_piece_bounds(s: Seq<char>, i: int)
    ensures
        piece_at(s, i) matches Some((_, end)) ==> i < end <= s.len(),
        piece_at(s, i) matches Some((Piece::Variable { .. }, end)) ==> i + 3 <= end,
{
    lemma_name_end(s, i + 3);
}

/// A fallback ends behind where it is looked at and inside the text.
pub proof fn lemma_fallback_bounds(s: Seq<char>, i: int, nested: nat)
    ensures
        fallback_end(s, i, nested) matches Some(end) ==> i < end <= s.len(),
    decreases s.len() - i,
{
    if i < s.len() {
        lemma_piece_bounds(s, i);
        match piece_at(s, i) {
            None => lemma_fallback_bounds(s, i + 1, nested),
            Some((Piece::Variable { .. }, end)) => lemma_fallback_bounds(s, end, nested + 1),
            Some((Piece::CloseBrace, end)) => if nested > 0 {
                lemma_fallback_bounds(s, end, (nested - 1) as nat);
            },
            Some((_, end)) => lemma_fallback_bounds(s, end, nested),
        }
    }
}

/// What is left open was opened in the text.
proof fn lemma_left_open(s: Seq<char>, i: int, nested: nat)
    requires
        i <= s.len(),
    ensures
        3 * left_open(s, i, nested) <= 3 * nested + (s.len() - i),
    decreases s.len() - i,
{
    if i < s.len() {
        lemma_piece_bounds(s, i);
        match piece_at(s, i) {
            None => lemma_left_open(s, i + 1, nested),
            Some((Piece::Variable { .. }, end)) => lemma_left_open(s, end, nested + 1),
            Some((Piece::CloseBrace, end)) => if nested > 0 {
                lemma_left_open(s, end, (nested - 1) as nat);
            },
            Some((_, end)) => lemma_left_open(s, end, nested),
        }
    }
}

/// The first token from `i` on stands where it says, and text without tokens leads up to it.
proof fn lemma_next_piece(s: Seq<char>, i: int)
    requires
        0 <= i <= s.len(),
    ensures
        match next_piece(s, i) {
            Some((start, end, piece)) => {
                &&& i <= start < end <= s.len()
                &&& piece_at(s, start) == Some((piece, end))
                &&& forall|depth: nat, answers: spec_fn(int) -> Option<Seq<char>>| #[trigger]
                    resolved(s, i, depth, answers) == prepend(
                        s.subrange(i, start),
                        resolved(s, start, depth, answers),
                    )
                &&& forall|nested: nat| #[trigger]
                    fallback_end(s, i, nested) == fallback_end(s, start, nested)
                &&& forall|nested: nat| #[trigger]
                    left_open(s, i, nested) == left_open(s, start, nested)
            },
            None => {
                &&& forall|depth: nat, answers: spec_fn(int) -> Option<Seq<char>>| #[trigger]
                    resolved(s, i, depth, answers) == prepend(
                        s.skip(i),
                        resolved(s, s.len() as int, depth, answers),
                    )
                &&& forall|nested: nat| #[trigger] fallback_end(s, i, nested) is None
                &&& forall|nested: nat| #[trigger] left_open(s, i, nested) == nested
            },
        },
    decreases s.len() - i,
{
    lemma_piece_bounds(s, i);
    if i >= s.len() {
        assert forall|depth: nat, answers: spec_fn(int) -> Option<Seq<char>>| #[trigger]
            resolved(s, i, depth, answers) == prepend(
                s.skip(i),
                resolved(s, s.len() as int, depth, answers),
            ) by {
            lemma_prepend_empty(s.skip(i), resolved(s, i, depth, answers));
        }
    } else if piece_at(s, i) is None {
        lemma_next_piece(s, i + 1);
        match next_piece(s, i + 1) {
            Some((start, end, piece)) => {
                assert forall|depth: nat, answers: spec_fn(int) -> Option<Seq<char>>| #[trigger]
                    resolved(s, i, depth, answers) == prepend(
                        s.subrange(i, start),
                        resolved(s, start, depth, answers),
                    ) by {
                    assert(resolved(s, i, depth, answers) == prepend(
                        seq![s[i]],
                        resolved(s, i + 1, depth, answers),
                    ));
                    assert(s.subrange(i, start) =~= seq![s[i]] + s.subrange(i + 1, start));
                    lemma_prepend_twice(
                        seq![s[i]],
                        s.subrange(i + 1, start),
                        resolved(s, start, depth, answers),
                    );
                }
                assert forall|nested: nat| #[trigger]
                    fallback_end(s, i, nested) == fallback_end(s, start, nested) by {
                    assert(fallback_end(s, i, nested) == fallback_end(s, i + 1, nested));
                }
                assert forall|nested: nat| #[trigger]
                    left_open(s, i, nested) == left_open(s, start, nested) by {
                    assert(left_open(s, i, nested) == left_open(s, i + 1, nested));
                }
            },
            None => {
                assert forall|depth: nat, answers: spec_fn(int) -> Option<Seq<char>>| #[trigger]
                    resolved(s, i, depth, answers) == prepend(
                        s.skip(i),
                        resolved(s, s.len() as int, depth, answers),
                    ) by {
                    assert(resolved(s, i, depth, answers) == prepend(
                        seq![s[i]],
                        resolved(s, i + 1, depth, answers),
                    ));
                    assert(s.skip(i) =~= seq![s[i]] + s.skip(i + 1));
                    lemma_prepend_twice(
                        seq![s[i]],
                        s.skip(i + 1),
                        resolved(s, s.len() as int, depth, answers),
                    );
                }
                assert forall|nested: nat| #[trigger] fallback_end(s, i, nested) is None by {
                    assert(fallback_end(s, i, nested) == fallback_end(s, i + 1, nested));
                }
                assert forall|nested: nat| #[trigger] left_open(s, i, nested) == nested by {
                    assert(left_open(s, i, nested) == left_open(s, i + 1, nested));
                }
            },
        }
    } else {
        assert forall|depth: nat, answers: spec_fn(int) -> Option<Seq<char>>| #[trigger]
            resolved(s, i, depth, answers) == prepend(
                s.subrange(i, i),
                resolved(s, i, depth, answers),
            ) by {
            lemma_prepend_empty(s.subrange(i, i), resolved(s, i, depth, answers));
        }
    }
}

/// Nothing in front of a text leaves it as it is.
proof fn lemma_prepend_empty(head: Seq<char>, rest: Result<Seq<char>, Fault>)
    requires
        head.len() == 0,
    ensures
        prepend(head, rest) == rest,
{
    if let Ok(tail) = rest {
        assert(head + tail =~= tail);
    }
}

/// What stands in front of a text can be put there in two steps.
proof fn lemma_prepend_twice(a: Seq<char>, b: Seq<char>, rest: Result<Seq<char>, Fault>)
    ensures
        prepend(a + b, rest) == prepend(a, prepend(b, rest)),
{
    if let Ok(tail) = rest {
        assert((a + b) + tail =~= a + (b + tail));
    }
}

/// Walks a value, yielding the pieces that interpolation acts on and skipping over the literal
/// text between them.
pub struct Scanner<'a> {
    pub input: &'a str,
    /// The byte that the walk has come to.
    pub pos: usize,
}

impl<'a> Scanner<'a> {
    /// The text that is walked.
    pub open spec fn text(self) -> Seq<char> {
        self.input@
    }

    /// The character that the walk has come to.
    pub open spec fn at(self) -> int {
        text::index_at(self.input@, self.pos as int)
    }

    /// A character begins where the walk is, or the text ends.
    pub open spec fn wf(self) -> bool {
        text::is_offset(self.input@, self.pos as int)
    }

    /// A scanner at the start of `input`.
    pub fn new(input: &'a str) -> (r: Self)
        ensures
            r.wf(),
            r.text() == input@,
            r.pos == 0,
            r.at() == 0,
    {
        proof {
            text::lemma_offset_order(input@, 0, 0);
            text::lemma_index_at(input@, 0);
        }
        Scanner { input, pos: 0 }
    }

    /// Returns the next token together with the byte range it spans.
    pub fn next_token(&mut self) -> (r: Option<(usize, usize, Token<'a>)>)
        requires
            old(self).wf(),
        ensures
            final(self).wf(),
            final(self).text() == old(self).text(),
            match next_piece(old(self).text(), old(self).at()) {
                Some((start, end, piece)) => {
                    &&& r matches Some((a, b, token))
                    &&& a == text::offset(old(self).text(), start)
                    &&& b == text::offset(old(self).text(), end)
                    &&& token.piece() == piece
                    &&& final(self).pos == b
                    &&& final(self).at() == end
                },
                None => {
                    &&& r is None
                    &&& final(self).pos == text::byte_len(old(self).text())
                    &&& final(self).at() == old(self).text().len()
                },
            },
    {
        let ghost s = self.text();
        let ghost from = self.at();
        let ghost mut i = from;
        let bytes = self.input.as_bytes();
        let n = bytes.len();
        let mut b: usize = self.pos;
        while b < n
            invariant
                self.wf(),
                self.text() == s,
                self.at() == from,
                bytes@ == encode_utf8(s),
                n == bytes@.len(),
                b == text::offset(s, i),
                from <= i <= s.len(),
                0 <= i,
                next_piece(s, from) == next_piece(s, i),
                *self == *old(self),
            decreases n - b,
        {
            proof {
                text::lemma_offset_order(s, i, s.len() as int);
                text::lemma_offset_step(s, i);
                text::lemma_offset_order(s, i + 1, s.len() as int);
                if i + 1 < s.len() {
                    text::lemma_offset_step(s, i + 1);
                    text::lemma_index_at(s, i + 2);
                }
                text::lemma_index_at(s, i + 1);
                lemma_piece_bounds(s, i);
            }
            let c = bytes[b];
            if c == BACKSLASH && b + 1 < n && (bytes[b + 1] == BACKSLASH || bytes[b + 1] == DOLLAR
                || bytes[b + 1] == CLOSE_BRACE) {
                let escaped = if bytes[b + 1] == BACKSLASH {
                    '\\'
                } else if bytes[b + 1] == DOLLAR {
                    '$'
                } else {
                    '}'
                };
                self.pos = b + 2;
                return Some((b, b + 2, Token::Escaped(escaped)));
            }
            if c == DOLLAR && b + 1 < n && bytes[b + 1] == OPEN_BRACE {
                proof {
                    text::lemma_index_at(s, i);
                }
                return match self.parse_variable(b) {
                    Some(token) => Some(token),
                    None => {
                        self.pos = b + 2;
                        Some((b, b + 2, Token::Unknown))
                    },
                };
            }
            if c == CLOSE_BRACE {
                self.pos = b + 1;
                return Some((b, b + 1, Token::CloseBrace));
            }
            assert(piece_at(s, i) is None);
            // The bytes of other characters than ASCII ones are none of those looked for.
            b = if c < 0x80 {
                b + 1
            } else if c < 0xe0 {
                b + 2
            } else if c < 0xf0 {
                b + 3
            } else {
                b + 4
            };
            proof {
                i = i + 1;
            }
        }
        proof {
            text::lemma_offset_order(s, i, s.len() as int);
            text::lemma_index_at(s, s.len() as int);
        }
        self.pos = n;
        None
    }

    /// Parses a substitution opening at byte `start`, where `start..start + 2` is `${`. Sets the
    /// position past what it consumed; returns `None`, and leaves the scanner as it is, if the name
    /// or the operator does not parse.
    pub fn parse_variable(&mut self, start: usize) -> (r: Option<(usize, usize, Token<'a>)>)
        requires
            old(self).wf(),
            text::is_offset(old(self).text(), start as int),
            opens_at(old(self).text(), text::index_at(old(self).text(), start as int)),
        ensures
            final(self).wf(),
            final(self).text() == old(self).text(),
            match substitution_at(
                old(self).text(),
                text::index_at(old(self).text(), start as int),
            ) {
                (Piece::Variable { name, operator }, end) => {
                    &&& r matches Some((a, b, token))
                    &&& a == start
                    &&& b == text::offset(old(self).text(), end)
                    &&& token.piece() == (Piece::Variable { name, operator })
                    &&& final(self).pos == b
                    &&& final(self).at() == end
                },
                _ => r is None && *final(self) == *old(self),
            },
    {
        let ghost s = self.text();
        let ghost i = text::index_at(s, start as int);
        let bytes = self.input.as_bytes();
        let n = bytes.len();
        proof {
            text::lemma_offset_step(s, i);
            text::lemma_offset_step(s, i + 1);
            text::lemma_offset_order(s, i + 2, s.len() as int);
            if i + 2 < s.len() {
                text::lemma_offset_step(s, i + 2);
            }
            text::lemma_index_at(s, i + 2);
        }
        let name_start = start + 2;
        if name_start >= n || !is_letter_byte(bytes[name_start]) {
            return None;
        }
        let mut end: usize = name_start + 1;
        let ghost mut e = i + 3;
        while end < n && is_name_byte(bytes[end])
            invariant
                self.wf(),
                s == self.text(),
                bytes@ == encode_utf8(s),
                n == bytes@.len(),
                0 <= i,
                i + 3 <= e <= s.len(),
                name_start == text::offset(s, i + 2),
                end == text::offset(s, e),
                name_end(s, i + 3) == name_end(s, e),
                *self == *old(self),
            decreases n - end,
        {
            proof {
                text::lemma_offset_order(s, e, s.len() as int);
                text::lemma_offset_step(s, e);
                e = e + 1;
            }
            end += 1;
        }
        proof {
            text::lemma_offset_order(s, i + 2, e);
            text::lemma_offset_order(s, e, s.len() as int);
            text::lemma_index_at(s, e);
            if e < s.len() {
                text::lemma_offset_step(s, e);
                text::lemma_offset_order(s, e + 1, s.len() as int);
                text::lemma_index_at(s, e + 1);
                if e + 1 < s.len() {
                    text::lemma_offset_step(s, e + 1);
                    text::lemma_index_at(s, e + 2);
                }
            }
            assert(name_end(s, i + 3) == e);
        }
        let name = text::slice(self.input, name_start, end);
        let (operator, consumed_to) = if end < n && n - end > 1 && bytes[end] == COLON && bytes[end
            + 1] == DASH {
            (Operator::UnsetOrEmpty, end + 2)
        } else if end < n && bytes[end] == DASH {
            (Operator::Unset, end + 1)
        } else if end < n && bytes[end] == CLOSE_BRACE {
            (Operator::Required, end)
        } else {
            return None;
        };
        self.pos = consumed_to;
        Some((start, consumed_to, Token::Variable { name, operator }))
    }
}

/// Resolves every substitution in `input`, looking variables up with `lookup`.
///
/// Errors when `${NAME}` names a variable that is not set, and when the substitution syntax
/// itself does not parse.
pub fn interpolate<F: Fn(&str) -> Option<String>>(input: &str, lookup: &F) -> (r: Result<
    String,
    InterpolateError,
>)
    requires
        forall|name: &str| call_requires(*lookup, (name,)),
    ensures
        comes_of(*lookup, input@, r),
        forall|env: spec_fn(Seq<char>) -> Option<Seq<char>>| #[trigger]
            reads(*lookup, env) ==> describes(input@, r, interpolated(input@, env)),
{
    let ghost s = input@;
    let ghost mut record: Map<int, Option<Seq<char>>> = Map::empty();
    let ghost mut asked: Seq<int> = Seq::empty();
    let mut output = String::new();
    let mut current: usize = 0;
    // How many substitutions are open around the position being read. Fallback text sits one
    // level deeper than the value it belongs to, so this is what tells a closing brace that ends
    // a substitution apart from one that is just a character in the value.
    let mut depth: isize = 0;
    let mut scanner = Scanner::new(input);
    let input_len = input.as_bytes().len();
    let ghost mut at: int = 0;
    proof {
        text::lemma_offset_order(s, 0, s.len() as int);
        assert forall|answers: spec_fn(int) -> Option<Seq<char>>| #[trigger]
            agrees(answers, record) implies resolved(s, 0, 0, answers) == prepend(
            output@,
            resolved(s, 0, 0, answers),
        ) by {
            lemma_prepend_empty(output@, resolved(s, 0, 0, answers));
        }
        assert forall|answers: spec_fn(int) -> Option<Seq<char>>| #[trigger]
            agrees(answers, record) implies questions(s, 0, answers) == asked + questions(
            s,
            0,
            answers,
        ) by {
            assert(asked + questions(s, 0, answers) =~= questions(s, 0, answers));
        }
    }
    loop
        invariant_except_break
            scanner.pos == current,
            scanner.at() == at,
        invariant
            forall|name: &str| call_requires(*lookup, (name,)),
            s == input@,
            input_len == text::byte_len(s),
            scanner.wf(),
            scanner.text() == s,
            current == text::offset(s, at),
            0 <= 3 * depth <= at <= s.len(),
            forall|i: int| #[trigger]
                record.contains_key(i) ==> i < at && may_answer(
                    *lookup,
                    variable_name(s, i),
                    record[i],
                ),
            forall|answers: spec_fn(int) -> Option<Seq<char>>| #[trigger]
                agrees(answers, record) ==> resolved(s, 0, 0, answers) == prepend(
                    output@,
                    resolved(s, at, depth as nat, answers),
                ),
            forall|i: int| #[trigger] record.contains_key(i) <==> asked.contains(i),
            forall|answers: spec_fn(int) -> Option<Seq<char>>| #[trigger]
                agrees(answers, record) ==> questions(s, 0, answers) == asked + questions(
                    s,
                    at,
                    answers,
                ),
        ensures
            next_piece(s, at) is None,
        decreases s.len() - scanner.at(),
    {
        proof {
            lemma_next_piece(s, at);
            if let Some((start, end, _)) = next_piece(s, at) {
                lemma_piece_bounds(s, start);
                text::lemma_offset_order(s, at, start);
                text::lemma_offset_order(s, start, end);
                text::lemma_index_at(s, at);
                text::lemma_index_at(s, start);
            }
            lemma_input_is_short(s, input_len);
        }
        let ghost from = at;
        let ghost before = output@;
        let ghost depth_before = depth as nat;
        let (start_byte, end_byte, token) = match scanner.next_token() {
            Some(found) => found,
            None => {
                break;
            },
        };
        let ghost start = next_piece(s, from)->Some_0.0;
        let ghost end = next_piece(s, from)->Some_0.1;
        output.append(text::slice(input, current, start_byte));
        current = end_byte;
        proof {
            at = end;
        }
        let ghost literal = output@;
        proof {
            assert forall|answers: spec_fn(int) -> Option<Seq<char>>| #[trigger]
                agrees(answers, record) implies questions(s, 0, answers) == asked + questions(
                s,
                start,
                answers,
            ) by {
                lemma_next_question(s, from, answers);
            }
            assert forall|answers: spec_fn(int) -> Option<Seq<char>>| #[trigger]
                agrees(answers, record) implies resolved(s, 0, 0, answers) == prepend(
                literal,
                resolved(s, start, depth_before, answers),
            ) by {
                lemma_prepend_twice(
                    before,
                    s.subrange(from, start),
                    resolved(s, start, depth_before, answers),
                );
            }
            lemma_fallback_bounds(s, end, 0);
        }
        match token {
            Token::Escaped(c) => {
                push_escaped(&mut output, c);
                proof {
                    assert forall|answers: spec_fn(int) -> Option<Seq<char>>| #[trigger]
                        agrees(answers, record) implies resolved(s, 0, 0, answers) == prepend(
                        output@,
                        resolved(s, end, depth_before, answers),
                    ) by {
                        lemma_prepend_twice(
                            literal,
                            seq![c],
                            resolved(s, end, depth_before, answers),
                        );
                    }
                }
            },
            Token::Variable { name, operator } => {
                let value = lookup(name);
                depth += 1;
                let ghost answer = text::opt_text(value);
                let ghost more = record.insert(start, answer);
                let ghost asked_before = asked;
                proof {
                    assert(may_answer(*lookup, variable_name(s, start), answer));
                    assert forall|answers: spec_fn(int) -> Option<Seq<char>>| #[trigger]
                        agrees(answers, more) implies agrees(answers, record) && answers(
                        start,
                    ) == answer by {
                        assert(more.contains_key(start));
                        assert forall|i: int| #[trigger] record.contains_key(i) implies answers(i)
                            == record[i] by {
                            assert(more.contains_key(i));
                        }
                    }
                    asked = asked.push(start);
                    assert forall|i: int| #[trigger]
                        more.contains_key(i) <==> asked.contains(i) by {
                        if asked_before.contains(i) {
                            let j = choose|j: int|
                                0 <= j < asked_before.len() && asked_before[j] == i;
                            assert(asked[j] == i);
                        }
                        assert(asked[asked.len() - 1] == start);
                        assert(record.contains_key(i) == asked_before.contains(i));
                    }
                    assert forall|answers: spec_fn(int) -> Option<Seq<char>>| #[trigger]
                        agrees(answers, more) implies questions(s, 0, answers) == asked + (
                    if fault_at(s, start, answers) is Some {
                        Seq::empty()
                    } else {
                        questions(s, read_on(s, start, answers), answers)
                    }) by {
                        assert(agrees(answers, record));
                        lemma_question(s, start, answers);
                        assert(asked_before + questions(s, start, answers) =~= asked + (if fault_at(
                            s,
                            start,
                            answers,
                        ) is Some {
                            Seq::empty()
                        } else {
                            questions(s, read_on(s, start, answers), answers)
                        }));
                    }
                    record = more;
                }
                let resolved_value = match value {
                    Some(v) => if operator == Operator::UnsetOrEmpty && v.as_str().is_empty() {
                        None
                    } else {
                        Some(v)
                    },
                    None => None,
                };
                match resolved_value {
                    Some(v) => {
                        output.append(v.as_str());
                        // The value won, so drop the fallback that follows it.
                        current = skip_fallback(&mut scanner, &mut depth, input_len);
                        proof {
                            lemma_left_open(s, end, 0);
                            text::lemma_offset_order(s, s.len() as int, s.len() as int);
                            at = match fallback_end(s, end, 0) {
                                Some(after) => after,
                                None => s.len() as int,
                            };
                            assert forall|answers: spec_fn(int) -> Option<Seq<char>>| #[trigger]
                                agrees(answers, record) implies resolved(s, 0, 0, answers)
                                == prepend(
                                output@,
                                resolved(s, at, depth as nat, answers),
                            ) by {
                                lemma_prepend_twice(
                                    literal,
                                    v@,
                                    resolved(s, at, depth as nat, answers),
                                );
                            }
                        }
                    },
                    None => {
                        // Nothing to fall back to.
                        if operator == Operator::Required {
                            let r = Err(InterpolateError::NotFound { name: name.to_owned() });
                            proof {
                                lemma_conclude(*lookup, s, r, record, asked);
                            }
                            return r;
                        }
                        // Leave the fallback for the loop to read as ordinary text.

                    },
                }
            },
            Token::CloseBrace => {
                if depth == 0 {
                    output.append("}");
                    proof {
                        reveal_strlit("}");
                        assert("}"@ =~= seq!['}']);
                        assert forall|answers: spec_fn(int) -> Option<Seq<char>>| #[trigger]
                            agrees(answers, record) implies resolved(s, 0, 0, answers) == prepend(
                            output@,
                            resolved(s, end, depth_before, answers),
                        ) by {
                            lemma_prepend_twice(
                                literal,
                                seq!['}'],
                                resolved(s, end, depth_before, answers),
                            );
                        }
                    }
                } else {
                    depth -= 1;
                }
            },
            Token::Unknown => {
                let r = Err(InterpolateError::InvalidSyntax { input: input.to_owned() });
                proof {
                    lemma_conclude(*lookup, s, r, record, asked);
                }
                return r;
            },
        }
    }
    proof {
        lemma_next_piece(s, at);
        text::lemma_offset_order(s, at, s.len() as int);
        text::lemma_index_at(s, at);
        text::lemma_index_at(s, s.len() as int);
        assert forall|answers: spec_fn(int) -> Option<Seq<char>>| #[trigger]
            agrees(answers, record) implies questions(s, 0, answers) == asked by {
            lemma_next_question(s, at, answers);
            assert(asked + Seq::<int>::empty() =~= asked);
        }
    }
    if depth > 0 {
        let r = Err(InterpolateError::Incomplete { input: input.to_owned() });
        proof {
            lemma_conclude(*lookup, s, r, record, asked);
        }
        return r;
    }
    let ghost before = output@;
    output.append(text::slice(input, current, input_len));
    proof {
        assert(s.skip(at) =~= s.subrange(at, s.len() as int));
        assert forall|answers: spec_fn(int) -> Option<Seq<char>>| #[trigger]
            agrees(answers, record) implies resolved(s, 0, 0, answers) == Ok::<
            Seq<char>,
            Fault,
        >(output@) by {
            assert(resolved(s, s.len() as int, 0, answers) == Ok::<Seq<char>, Fault>(Seq::empty()));
            assert(s.skip(at) + Seq::<char>::empty() =~= s.skip(at));
        }
    }
    let r = Ok(output);
    proof {
        lemma_conclude(*lookup, s, r, record, asked);
    }
    r
}

/// A text has no more characters than bytes.
proof fn lemma_input_is_short(s: Seq<char>, input_len: usize)
    requires
        input_len == text::byte_len(s),
    ensures
        s.len() / 3 <= isize::MAX,
{
    text::lemma_offset_order(s, 0, s.len() as int);
}

/// A result that rests on recorded answers comes of the lookup, and is the interpolation in every
/// environment that the lookup reads.
proof fn lemma_conclude<F: Fn(&str) -> Option<String>>(
    lookup: F,
    s: Seq<char>,
    result: Result<String, InterpolateError>,
    record: Map<int, Option<Seq<char>>>,
    asked: Seq<int>,
)
    requires
        forall|i: int| #[trigger]
            record.contains_key(i) ==> may_answer(lookup, variable_name(s, i), record[i]),
        forall|answers: spec_fn(int) -> Option<Seq<char>>| #[trigger]
            agrees(answers, record) ==> describes(s, result, resolved(s, 0, 0, answers)),
        forall|i: int| #[trigger] record.contains_key(i) <==> asked.contains(i),
        forall|answers: spec_fn(int) -> Option<Seq<char>>| #[trigger]
            agrees(answers, record) ==> questions(s, 0, answers) == asked,
    ensures
        comes_of(lookup, s, result),
        forall|env: spec_fn(Seq<char>) -> Option<Seq<char>>| #[trigger]
            reads(lookup, env) ==> describes(s, result, interpolated(s, env)),
{
    assert forall|answers: spec_fn(int) -> Option<Seq<char>>| #[trigger]
        agrees(answers, record) implies asks_what_is_read(s, record, answers) by {
        law_questions(s, answers);
    }
    assert(rests_on(lookup, s, result, record));
    assert forall|env: spec_fn(Seq<char>) -> Option<Seq<char>>| #[trigger]
        reads(lookup, env) implies describes(s, result, interpolated(s, env)) by {
        let answers = answers_of(s, env);
        assert forall|i: int| #[trigger] record.contains_key(i) implies answers(i) == record[i] by {
            assert(may_answer(lookup, variable_name(s, i), record[i]));
        }
        assert(agrees(answers, record));
    }
}

/// Consumes the fallback of the substitution that was just resolved, and returns the byte offset
/// just past its closing brace. Substitutions nested in the fallback are skipped whole rather
/// than resolved, so an unset variable in a discarded fallback is not an error.
pub fn skip_fallback(scanner: &mut Scanner, depth: &mut isize, input_len: usize) -> (r: usize)
    requires
        old(scanner).wf(),
        isize::MIN < *old(depth),
        *old(depth) + (old(scanner).text().len() - old(scanner).at()) / 3 <= isize::MAX,
    ensures
        final(scanner).wf(),
        final(scanner).text() == old(scanner).text(),
        match fallback_end(old(scanner).text(), old(scanner).at(), 0) {
            Some(end) => {
                &&& r == text::offset(old(scanner).text(), end)
                &&& final(scanner).pos == r
                &&& final(scanner).at() == end
                &&& *final(depth) == *old(depth) - 1
            },
            None => {
                &&& r == input_len
                &&& final(scanner).pos == text::byte_len(old(scanner).text())
                &&& final(scanner).at() == old(scanner).text().len()
                &&& *final(depth) == *old(depth) + left_open(
                    old(scanner).text(),
                    old(scanner).at(),
                    0,
                )
            },
        },
{
    let ghost s = scanner.text();
    let ghost from = scanner.at();
    let ghost mut nested: nat = 0;
    let limit = *depth;
    loop
        invariant
            scanner.wf(),
            scanner.text() == s,
            from <= scanner.at() <= s.len(),
            isize::MIN < limit,
            limit + (s.len() - from) / 3 <= isize::MAX,
            *depth == limit + nested,
            3 * nested <= scanner.at() - from,
            limit == *old(depth),
            s == old(scanner).text(),
            from == old(scanner).at(),
            fallback_end(s, from, 0) == fallback_end(s, scanner.at(), nested),
            left_open(s, from, 0) == left_open(s, scanner.at(), nested),
        decreases s.len() - scanner.at(),
    {
        let ghost here = scanner.at();
        proof {
            lemma_next_piece(s, here);
            if let Some((start, _, _)) = next_piece(s, here) {
                lemma_piece_bounds(s, start);
            }
        }
        match scanner.next_token() {
            None => {
                return input_len;
            },
            Some((_, end, token)) => match token {
                Token::Variable { .. } => {
                    *depth += 1;
                    proof {
                        nested = nested + 1;
                    }
                },
                Token::CloseBrace => {
                    *depth -= 1;
                    if *depth < limit {
                        return end;
                    }
                    proof {
                        nested = (nested - 1) as nat;
                    }
                },
                _ => {},
            },
        }
    }
}

/// Adds an escaped character.
fn push_escaped(output: &mut String, c: char)
    requires
        is_escapable(c),
    ensures
        final(output)@ == old(output)@.push(c),
        final(output)@ == old(output)@ + seq![c],
{
    proof {
        reveal_strlit("\\");
        reveal_strlit("$");
        reveal_strlit("}");
    }
    if c == '\\' {
        output.append("\\");
    } else if c == '$' {
        output.append("$");
    } else {
        output.append("}");
    }
    assert(output@ =~= old(output)@.push(c));
    assert(output@ =~= old(output)@ + seq![c]);
}

/// Whether the byte is an ASCII letter.
fn is_letter_byte(c: u8) -> (r: bool)
    ensures
        forall|d: char| d as int == c ==> r == #[trigger] is_letter(d),
        r ==> c < 0x80,
{
    (0x61 <= c && c <= 0x7a) || (0x41 <= c && c <= 0x5a)
}

/// Whether the byte may follow the first one of a variable's name.
fn is_name_byte(c: u8) -> (r: bool)
    ensures
        forall|d: char| d as int == c ==> r == #[trigger] is_name_char(d),
        r ==> c < 0x80,
{
    is_letter_byte(c) || (0x30 <= c && c <= 0x39) || c == 0x5f
}

/// The text with a backslash in front of each character that one escapes.
pub open spec fn escaped(t: Seq<char>) -> Seq<char>
    decreases t.len(),
{
    if t.len() == 0 {
        t
    } else if is_escapable(t[0]) {
        seq!['\\', t[0]] + escaped(t.drop_first())
    } else {
        seq![t[0]] + escaped(t.drop_first())
    }
}

/// Whether the text is a variable's name: a letter, then letters, digits and underscores.
pub open spec fn is_name(name: Seq<char>) -> bool {
    &&& name.len() > 0
    &&& is_letter(name[0])
    &&& forall|i: int| 0 <= i < name.len() ==> is_name_char(#[trigger] name[i])
}

/// Whether no character of the text is one that interpolation acts on.
pub open spec fn is_plain(t: Seq<char>) -> bool {
    forall|i: int| 0 <= i < t.len() ==> !is_escapable(#[trigger] t[i])
}

/// How a substitution is written.
pub open spec fn substitution(name: Seq<char>, operator: Operator, fallback: Seq<char>) -> Seq<
    char,
> {
    seq!['$', '{'] + name + match operator {
        Operator::Required => Seq::<char>::empty(),
        Operator::Unset => seq!['-'],
        Operator::UnsetOrEmpty => seq![':', '-'],
    } + fallback + seq!['}']
}

/// A text in which no token begins resolves to itself, in every environment.
pub proof fn law_text_without_tokens(s: Seq<char>, env: spec_fn(Seq<char>) -> Option<Seq<char>>)
    requires
        forall|i: int| 0 <= i < s.len() ==> #[trigger] piece_at(s, i) is None,
    ensures
        interpolated(s, env) == Ok::<Seq<char>, Fault>(s),
{
    lemma_no_piece(s, 0);
    lemma_next_piece(s, 0);
    assert(s.skip(0) + Seq::<char>::empty() =~= s);
}

proof fn lemma_no_piece(s: Seq<char>, i: int)
    requires
        0 <= i <= s.len(),
        forall|k: int| 0 <= k < s.len() ==> #[trigger] piece_at(s, k) is None,
    ensures
        next_piece(s, i) is None,
    decreases s.len() - i,
{
    if i < s.len() {
        lemma_no_piece(s, i + 1);
    }
}

/// Escaping undoes interpolation: an escaped text resolves to the text, in every environment, and no
/// substitution in it is read.
pub proof fn law_escaped_text(t: Seq<char>, env: spec_fn(Seq<char>) -> Option<Seq<char>>)
    ensures
        interpolated(escaped(t), env) == Ok::<Seq<char>, Fault>(t),
        forall|k: int, answers: spec_fn(int) -> Option<Seq<char>>| #[trigger]
            is_live(escaped(t), 0, k, answers) ==> !(piece_at(escaped(t), k) matches Some(
                (Piece::Variable { .. }, _),
            )),
{
    assert(Seq::<char>::empty() + escaped(t) =~= escaped(t));
    lemma_escaped(Seq::empty(), t, answers_of(escaped(t), env));
    assert forall|k: int, answers: spec_fn(int) -> Option<Seq<char>>| #[trigger]
        is_live(escaped(t), 0, k, answers) implies !(piece_at(escaped(t), k) matches Some(
        (Piece::Variable { .. }, _),
    )) by {
        lemma_escaped_reads(Seq::empty(), t, k, answers);
    }
}

/// Of an escaped text nothing is asked: a result that comes of recorded answers comes of none.
pub proof fn law_escaped_text_asks_nothing<F: Fn(&str) -> Option<String>>(
    lookup: F,
    t: Seq<char>,
    result: Result<String, InterpolateError>,
    record: Map<int, Option<Seq<char>>>,
)
    requires
        rests_on(lookup, escaped(t), result, record),
    ensures
        record == Map::<int, Option<Seq<char>>>::empty(),
{
    let answers = |i: int|
        if record.contains_key(i) {
            record[i]
        } else {
            None
        };
    assert(agrees(answers, record));
    law_escaped_text(t, |name: Seq<char>| None);
    assert forall|i: int| !#[trigger] record.contains_key(i) by {
        if record.contains_key(i) {
            assert(is_asked(escaped(t), 0, i, answers));
            assert(is_live(escaped(t), 0, i, answers));
        }
    }
    assert(record =~= Map::<int, Option<Seq<char>>>::empty());
}

proof fn lemma_escaped_reads(
    p: Seq<char>,
    t: Seq<char>,
    k: int,
    answers: spec_fn(int) -> Option<Seq<char>>,
)
    requires
        is_live(p + escaped(t), p.len() as int, k, answers),
    ensures
        !(piece_at(p + escaped(t), k) matches Some((Piece::Variable { .. }, _))),
    decreases t.len(),
{
    let s = p + escaped(t);
    let i = p.len() as int;
    if t.len() > 0 {
        let rest = escaped(t.drop_first());
        if is_escapable(t[0]) {
            let q = p + seq!['\\', t[0]];
            assert(q + rest =~= s);
            assert(s[i] == '\\' && s[i + 1] == t[0]);
            assert(piece_at(s, i) == Some((Piece::Escaped(t[0]), i + 2)));
            if k != i {
                lemma_escaped_reads(q, t.drop_first(), k, answers);
            }
        } else {
            let q = p + seq![t[0]];
            assert(q + rest =~= s);
            assert(s[i] == t[0]);
            assert(piece_at(s, i) is None);
            if k != i {
                lemma_escaped_reads(q, t.drop_first(), k, answers);
            }
        }
    }
}

proof fn lemma_escaped(p: Seq<char>, t: Seq<char>, answers: spec_fn(int) -> Option<Seq<char>>)
    ensures
        resolved(p + escaped(t), p.len() as int, 0, answers) == Ok::<Seq<char>, Fault>(t),
    decreases t.len(),
{
    let s = p + escaped(t);
    let i = p.len() as int;
    if t.len() == 0 {
        assert(t =~= Seq::<char>::empty());
    } else {
        let rest = escaped(t.drop_first());
        assert(seq![t[0]] + t.drop_first() =~= t);
        if is_escapable(t[0]) {
            let q = p + seq!['\\', t[0]];
            assert(q + rest =~= s);
            lemma_escaped(q, t.drop_first(), answers);
            assert(s[i] == '\\' && s[i + 1] == t[0]);
            assert(piece_at(s, i) == Some((Piece::Escaped(t[0]), i + 2)));
        } else {
            let q = p + seq![t[0]];
            assert(q + rest =~= s);
            lemma_escaped(q, t.drop_first(), answers);
            assert(s[i] == t[0]);
            assert(piece_at(s, i) is None);
        }
    }
}

/// The three substitution forms, with a fallback that holds nothing to act on. `${NAME}` is the
/// variable's value, even an empty one, and an error if the variable is not set;
/// `${NAME-fallback}` falls back when it is not set; `${NAME:-fallback}` falls back when it is
/// not set or empty.
pub proof fn law_substitution_forms(
    name: Seq<char>,
    operator: Operator,
    fallback: Seq<char>,
    env: spec_fn(Seq<char>) -> Option<Seq<char>>,
)
    requires
        is_name(name),
        is_plain(fallback),
        operator == Operator::Required ==> fallback.len() == 0,
    ensures
        interpolated(substitution(name, operator, fallback), env) == match (operator, env(name)) {
            (Operator::Required, None) => Err(Fault::NotFound(name)),
            (Operator::UnsetOrEmpty, Some(value)) => Ok(
                if value.len() == 0 {
                    fallback
                } else {
                    value
                },
            ),
            (_, Some(value)) => Ok(value),
            (_, None) => Ok(fallback),
        },
{
    let s = substitution(name, operator, fallback);
    let answers = answers_of(s, env);
    let n = name.len() as int;
    assert forall|k: int| 0 <= k < n implies #[trigger] s[k + 2] == name[k] by {}
    assert(s[0] == '$' && s[1] == '{' && s[2] == name[0]);
    lemma_name_run(s, 3, n + 2);
    assert(variable_name(s, 0) =~= name);
    let end = match operator {
        Operator::Required => n + 2,
        Operator::Unset => n + 3,
        Operator::UnsetOrEmpty => n + 4,
    };
    assert(!is_name_char(s[n + 2]));
    assert(piece_at(s, 0) == Some((Piece::Variable { name, operator }, end)));
    let close = s.len() - 1;
    assert(s[close] == '}');
    assert(s.subrange(end, close) =~= fallback);
    lemma_plain_run(s, end, close);
    assert(piece_at(s, close) == Some((Piece::CloseBrace, close + 1)));
    assert(resolved(s, s.len() as int, 0, answers) == Ok::<Seq<char>, Fault>(Seq::empty()));
    assert(resolved(s, close, 1, answers) == Ok::<Seq<char>, Fault>(Seq::empty()));
    assert(fallback + Seq::<char>::empty() =~= fallback);
    assert(resolved(s, end, 1, answers) == Ok::<Seq<char>, Fault>(fallback));
    assert(fallback_end(s, close, 0) == Some(s.len() as int));
    assert(answers(0) == env(name));
    if let Some(value) = env(name) {
        assert(value + Seq::<char>::empty() =~= value);
    }
}

proof fn lemma_name_run(s: Seq<char>, i: int, end: int)
    requires
        0 <= i <= end < s.len(),
        forall|k: int| i <= k < end ==> is_name_char(#[trigger] s[k]),
        !is_name_char(s[end]),
    ensures
        name_end(s, i) == end,
    decreases end - i,
{
    if i < end {
        lemma_name_run(s, i + 1, end);
    }
}

proof fn lemma_plain_run(s: Seq<char>, i: int, end: int)
    requires
        0 <= i <= end <= s.len(),
        forall|k: int| i <= k < end ==> !is_escapable(#[trigger] s[k]),
    ensures
        forall|depth: nat, answers: spec_fn(int) -> Option<Seq<char>>| #[trigger]
            resolved(s, i, depth, answers) == prepend(
                s.subrange(i, end),
                resolved(s, end, depth, answers),
            ),
        forall|nested: nat| #[trigger] fallback_end(s, i, nested) == fallback_end(s, end, nested),
    decreases end - i,
{
    if i < end {
        assert(!is_escapable(s[i]));
        assert(piece_at(s, i) is None);
        lemma_plain_run(s, i + 1, end);
        assert forall|depth: nat, answers: spec_fn(int) -> Option<Seq<char>>| #[trigger]
            resolved(s, i, depth, answers) == prepend(
                s.subrange(i, end),
                resolved(s, end, depth, answers),
            ) by {
            assert(resolved(s, i, depth, answers) == prepend(
                seq![s[i]],
                resolved(s, i + 1, depth, answers),
            ));
            assert(s.subrange(i, end) =~= seq![s[i]] + s.subrange(i + 1, end));
            lemma_prepend_twice(
                seq![s[i]],
                s.subrange(i + 1, end),
                resolved(s, end, depth, answers),
            );
        }
        assert forall|nested: nat| #[trigger]
            fallback_end(s, i, nested) == fallback_end(s, end, nested) by {
            assert(fallback_end(s, i, nested) == fallback_end(s, i + 1, nested));
        }
    } else {
        assert forall|depth: nat, answers: spec_fn(int) -> Option<Seq<char>>| #[trigger]
            resolved(s, i, depth, answers) == prepend(
                s.subrange(i, end),
                resolved(s, end, depth, answers),
            ) by {
            lemma_prepend_empty(s.subrange(i, end), resolved(s, end, depth, answers));
        }
    }
}

/// Plain text in front of a value stays in front of what the value resolves to.
pub proof fn law_plain_prefix(
    a: Seq<char>,
    b: Seq<char>,
    env: spec_fn(Seq<char>) -> Option<Seq<char>>,
)
    requires
        is_plain(a),
    ensures
        interpolated(a + b, env) == prepend(a, interpolated(b, env)),
{
    let s = a + b;
    let n = a.len() as int;
    assert forall|k: int| 0 <= k < n implies !is_escapable(#[trigger] s[k]) by {
        assert(s[k] == a[k]);
    }
    lemma_plain_run(s, 0, n);
    assert(s.subrange(0, n) =~= a);
    lemma_shift_all(a, b, env);
}

/// What stands behind a text resolves to what it resolves to alone.
proof fn lemma_shift_all(
    a: Seq<char>,
    b: Seq<char>,
    env: spec_fn(Seq<char>) -> Option<Seq<char>>,
)
    ensures
        resolved(a + b, a.len() as int, 0, answers_of(a + b, env)) == interpolated(b, env),
{
    let s = a + b;
    let n = a.len() as int;
    assert forall|i: int| 0 <= i && (piece_at(b, i) matches Some((Piece::Variable { .. }, _))) implies answers_of(
        s,
        env,
    )(n + i) == #[trigger] answers_of(b, env)(i) by {
        lemma_shift_piece(a, b, i);
        lemma_shift_name(a, b, i + 3);
        assert(variable_name(s, n + i) =~= variable_name(b, i));
    }
    lemma_shift(a, b, 0, 0, answers_of(s, env), answers_of(b, env));
}

proof fn lemma_shift_name(a: Seq<char>, b: Seq<char>, i: int)
    requires
        0 <= i,
    ensures
        name_end(a + b, a.len() + i) == a.len() + name_end(b, i),
    decreases b.len() - i,
{
    if i < b.len() {
        assert((a + b)[a.len() + i] == b[i]);
        if is_name_char(b[i]) {
            lemma_shift_name(a, b, i + 1);
        }
    }
}

proof fn lemma_shift_piece(a: Seq<char>, b: Seq<char>, i: int)
    requires
        0 <= i,
    ensures
        piece_at(a + b, a.len() + i) == match piece_at(b, i) {
            Some((piece, end)) => Some((piece, a.len() + end)),
            None => None,
        },
{
    let s = a + b;
    let n = a.len() as int;
    assert forall|k: int| 0 <= k < b.len() implies #[trigger] s[n + k] == b[k] by {}
    lemma_shift_name(a, b, i + 3);
    lemma_name_end(b, i + 3);
    let e = name_end(b, i + 3);
    if i < b.len() {
        assert(s[n + i] == b[i]);
        if i + 1 < b.len() {
            assert(s[n + (i + 1)] == b[i + 1]);
        }
        if i + 2 < b.len() {
            assert(s[n + (i + 2)] == b[i + 2]);
            assert(variable_name(s, n + i) =~= variable_name(b, i));
            if e < b.len() {
                assert(s[n + e] == b[e]);
            }
            if e + 1 < b.len() {
                assert(s[n + (e + 1)] == b[e + 1]);
            }
        }
    }
}

proof fn lemma_shift_fallback(a: Seq<char>, b: Seq<char>, i: int, nested: nat)
    requires
        0 <= i,
    ensures
        fallback_end(a + b, a.len() + i, nested) == match fallback_end(b, i, nested) {
            Some(end) => Some(a.len() + end),
            None => None,
        },
    decreases b.len() - i,
{
    if i < b.len() {
        lemma_shift_piece(a, b, i);
        lemma_piece_bounds(b, i);
        match piece_at(b, i) {
            None => lemma_shift_fallback(a, b, i + 1, nested),
            Some((Piece::Variable { .. }, end)) => lemma_shift_fallback(a, b, end, nested + 1),
            Some((Piece::CloseBrace, end)) => if nested > 0 {
                lemma_shift_fallback(a, b, end, (nested - 1) as nat);
            },
            Some((_, end)) => lemma_shift_fallback(a, b, end, nested),
        }
    }
}

proof fn lemma_shift(
    a: Seq<char>,
    b: Seq<char>,
    i: int,
    depth: nat,
    far: spec_fn(int) -> Option<Seq<char>>,
    near: spec_fn(int) -> Option<Seq<char>>,
)
    requires
        0 <= i,
        forall|k: int|
            0 <= k && (piece_at(b, k) matches Some((Piece::Variable { .. }, _))) ==> far(
                a.len() + k,
            ) == #[trigger] near(k),
    ensures
        resolved(a + b, a.len() + i, depth, far) == resolved(b, i, depth, near),
    decreases b.len() - i,
{
    if i < b.len() {
        lemma_shift_piece(a, b, i);
        lemma_piece_bounds(b, i);
        assert((a + b)[a.len() + i] == b[i]);
        match piece_at(b, i) {
            None => lemma_shift(a, b, i + 1, depth, far, near),
            Some((Piece::Escaped(_), end)) => lemma_shift(a, b, end, depth, far, near),
            Some((Piece::Unknown, _)) => {},
            Some((Piece::CloseBrace, end)) => if depth == 0 {
                lemma_shift(a, b, end, depth, far, near);
            } else {
                lemma_shift(a, b, end, (depth - 1) as nat, far, near);
            },
            Some((Piece::Variable { name, operator }, end)) => {
                assert(far(a.len() + i) == near(i));
                lemma_shift_fallback(a, b, end, 0);
                lemma_fallback_bounds(b, end, 0);
                match taken(operator, near(i)) {
                    Some(_) => if let Some(after) = fallback_end(b, end, 0) {
                        lemma_shift(a, b, after, depth, far, near);
                    },
                    None => lemma_shift(a, b, end, depth + 1, far, near),
                }
            },
        }
    }
}

/// A fallback that the variable's value made redundant is not read: what the variables in it are
/// set to, or whether they are set at all, has no part in the outcome.
pub proof fn law_discarded_fallback_is_not_read(
    s: Seq<char>,
    i: int,
    depth: nat,
    one: spec_fn(int) -> Option<Seq<char>>,
    other: spec_fn(int) -> Option<Seq<char>>,
)
    requires
        0 <= i,
        piece_at(s, i) matches Some((Piece::Variable { operator, .. }, end)) && {
            &&& taken(operator, one(i)) is Some
            &&& fallback_end(s, end, 0) matches Some(after) && forall|k: int|
                (k == i || after <= k) ==> #[trigger] one(k) == other(k)
        },
    ensures
        resolved(s, i, depth, one) == resolved(s, i, depth, other),
{
    let end = piece_at(s, i)->Some_0.1;
    lemma_piece_bounds(s, i);
    lemma_fallback_bounds(s, end, 0);
    lemma_reads_ahead(s, fallback_end(s, end, 0)->Some_0, depth, one, other);
    assert(one(i) == other(i));
}

proof fn lemma_reads_ahead(
    s: Seq<char>,
    i: int,
    depth: nat,
    one: spec_fn(int) -> Option<Seq<char>>,
    other: spec_fn(int) -> Option<Seq<char>>,
)
    requires
        0 <= i,
        forall|k: int| i <= k ==> #[trigger] one(k) == other(k),
    ensures
        resolved(s, i, depth, one) == resolved(s, i, depth, other),
    decreases s.len() - i,
{
    if i < s.len() {
        lemma_piece_bounds(s, i);
        match piece_at(s, i) {
            None => lemma_reads_ahead(s, i + 1, depth, one, other),
            Some((Piece::Escaped(_), end)) => lemma_reads_ahead(s, end, depth, one, other),
            Some((Piece::Unknown, _)) => {},
            Some((Piece::CloseBrace, end)) => if depth == 0 {
                lemma_reads_ahead(s, end, depth, one, other);
            } else {
                lemma_reads_ahead(s, end, (depth - 1) as nat, one, other);
            },
            Some((Piece::Variable { operator, .. }, end)) => {
                assert(one(i) == other(i));
                lemma_fallback_bounds(s, end, 0);
                match taken(operator, one(i)) {
                    Some(_) => if let Some(after) = fallback_end(s, end, 0) {
                        lemma_reads_ahead(s, after, depth, one, other);
                    },
                    None => lemma_reads_ahead(s, end, depth + 1, one, other),
                }
            },
        }
    }
}

/// The tokens of a text from `i` on, in the order in which they are read.
pub open spec fn tokens_from(s: Seq<char>, i: int) -> Seq<(int, int, Piece)>
    decreases s.len() - i,
{
    proof {
        lemma_next_bounds(s, i);
    }
    match next_piece(s, i) {
        Some((start, end, piece)) => seq![(start, end, piece)] + tokens_from(s, end),
        None => seq![],
    }
}

/// The text from `i` on, put together of what stands between the tokens and of the tokens.
pub open spec fn put_together(s: Seq<char>, i: int, tokens: Seq<(int, int, Piece)>) -> Seq<char>
    decreases tokens.len(),
{
    if tokens.len() == 0 {
        s.skip(i)
    } else {
        let (start, end, _) = tokens[0];
        s.subrange(i, start) + s.subrange(start, end) + put_together(s, end, tokens.drop_first())
    }
}

/// The first token from a position on, and what lies before it.
pub proof fn lemma_next_bounds(s: Seq<char>, i: int)
    ensures
        match next_piece(s, i) {
            Some((start, end, piece)) => {
                &&& i <= start < end <= s.len()
                &&& piece_at(s, start) == Some((piece, end))
                &&& forall|k: int| i <= k < start ==> #[trigger] piece_at(s, k) is None
            },
            None => forall|k: int| i <= k ==> #[trigger] piece_at(s, k) is None,
        },
    decreases s.len() - i,
{
    if i < s.len() {
        lemma_piece_bounds(s, i);
        if piece_at(s, i) is None {
            lemma_next_bounds(s, i + 1);
        }
    }
}

/// Reading a text token by token comes to an end: there are no more tokens than bytes, they stand
/// one behind the other, nothing that lies outside of them begins one, they make up the text with
/// what lies between them, and once there is none left there is none again.
pub proof fn law_tokens_make_up_the_text(s: Seq<char>)
    ensures
        ({
            let tokens = tokens_from(s, 0);
            &&& tokens.len() <= s.len() <= text::byte_len(s)
            &&& forall|k: int|
                0 <= k < tokens.len() ==> 0 <= (#[trigger] tokens[k]).0 < tokens[k].1 <= s.len()
                    && piece_at(s, tokens[k].0) == Some((tokens[k].2, tokens[k].1))
            &&& forall|j: int, k: int|
                0 <= j < k < tokens.len() ==> (#[trigger] tokens[j]).1 <= (#[trigger] tokens[k]).0
            &&& forall|i: int|
                0 <= i < s.len() && (#[trigger] piece_at(s, i)) is Some ==> exists|k: int|
                    0 <= k < tokens.len() && (#[trigger] tokens[k]).0 <= i < tokens[k].1
            &&& put_together(s, 0, tokens) == s
            &&& next_piece(s, s.len() as int) is None
        }),
{
    lemma_tokens(s, 0);
    text::lemma_offset_order(s, 0, s.len() as int);
    assert(s.skip(0) =~= s);
}

#[verifier::spinoff_prover]
#[verifier::rlimit(50)]
proof fn lemma_tokens(s: Seq<char>, i: int)
    requires
        0 <= i <= s.len(),
    ensures
        ({
            let tokens = tokens_from(s, i);
            &&& tokens.len() <= s.len() - i
            &&& forall|k: int|
                0 <= k < tokens.len() ==> i <= (#[trigger] tokens[k]).0 < tokens[k].1 <= s.len()
                    && piece_at(s, tokens[k].0) == Some((tokens[k].2, tokens[k].1))
            &&& forall|j: int, k: int|
                0 <= j < k < tokens.len() ==> (#[trigger] tokens[j]).1 <= (#[trigger] tokens[k]).0
            &&& forall|m: int|
                i <= m < s.len() && (#[trigger] piece_at(s, m)) is Some ==> exists|k: int|
                    0 <= k < tokens.len() && (#[trigger] tokens[k]).0 <= m < tokens[k].1
            &&& put_together(s, i, tokens) == s.skip(i)
        }),
    decreases s.len() - i,
{
    lemma_next_bounds(s, i);
    let tokens = tokens_from(s, i);
    if let Some((start, end, piece)) = next_piece(s, i) {
        lemma_tokens(s, end);
        let rest = tokens_from(s, end);
        assert(tokens.drop_first() =~= rest);
        assert(tokens[0] == (start, end, piece));
        assert forall|k: int| 0 < k < tokens.len() implies #[trigger] tokens[k] == rest[k - 1] by {}
        assert forall|k: int| 0 <= k < tokens.len() implies i <= (#[trigger] tokens[k]).0
            < tokens[k].1 <= s.len() && piece_at(s, tokens[k].0) == Some(
            (tokens[k].2, tokens[k].1),
        ) by {
            if k > 0 {
                assert(rest[k - 1] == tokens[k]);
            }
        }
        assert forall|j: int, k: int| 0 <= j < k < tokens.len() implies (#[trigger] tokens[j]).1
            <= (#[trigger] tokens[k]).0 by {
            assert(rest[k - 1] == tokens[k]);
            if j > 0 {
                assert(rest[j - 1] == tokens[j]);
            }
        }
        assert forall|m: int|
            i <= m < s.len() && (#[trigger] piece_at(s, m)) is Some implies exists|k: int|
            0 <= k < tokens.len() && (#[trigger] tokens[k]).0 <= m < tokens[k].1 by {
            if m >= end {
                let k = choose|k: int| 0 <= k < rest.len() && (#[trigger] rest[k]).0 <= m < rest[k].1;
                assert(tokens[k + 1] == rest[k]);
            } else {
                assert(tokens[0].0 <= m < tokens[0].1);
            }
        }
        assert(s.subrange(i, start) + s.subrange(start, end) + s.skip(end) =~= s.skip(i));
    }
}

/// A token that lies in the front part of a text is the same in that part alone, unless the part
/// ends in what could begin another one.
proof fn lemma_front_piece(a: Seq<char>, b: Seq<char>, i: int)
    requires
        0 <= i < a.len(),
        a.last() != '\\' && a.last() != '$',
        (piece_at(a, i) matches Some((Piece::Unknown, _))) ==> exists|k: int|
            i + 2 <= k < a.len() && #[trigger] a[k] == '}',
    ensures
        piece_at(a + b, i) == piece_at(a, i),
        (piece_at(a, i) matches Some((Piece::Variable { .. }, _))) ==> variable_name(a + b, i)
            == variable_name(a, i),
{
    let s = a + b;
    assert(s[i] == a[i]);
    if i + 1 < a.len() {
        assert(s[i + 1] == a[i + 1]);
    }
    if opens_at(a, i) {
        if i + 2 < a.len() {
            assert(s[i + 2] == a[i + 2]);
            lemma_name_end(a, i + 3);
            let e = name_end(a, i + 3);
            if is_letter(a[i + 2]) {
                if let Some((Piece::Unknown, _)) = piece_at(a, i) {
                    let k = choose|k: int| i + 2 <= k < a.len() && #[trigger] a[k] == '}';
                    lemma_name_stops(a, i + 3, k);
                    assert(e <= k);
                    assert(e + 1 < a.len() || a[e] == '}');
                }
                assert(e < a.len());
                lemma_name_front(a, b, i + 3);
                assert(s[e] == a[e]);
                if e + 1 < a.len() {
                    assert(s[e + 1] == a[e + 1]);
                }
                assert(variable_name(s, i) =~= variable_name(a, i));
            }
        }
    }
}

/// A name ends at a brace.
proof fn lemma_name_stops(s: Seq<char>, i: int, k: int)
    requires
        0 <= i <= k < s.len(),
        s[k] == '}',
    ensures
        name_end(s, i) <= k,
    decreases k - i,
{
    if i < k && is_name_char(s[i]) {
        lemma_name_stops(s, i + 1, k);
    }
}

/// A name that ends in the front part of a text ends there in the whole.
proof fn lemma_name_front(a: Seq<char>, b: Seq<char>, i: int)
    requires
        0 <= i,
        name_end(a, i) < a.len(),
    ensures
        name_end(a + b, i) == name_end(a, i),
    decreases a.len() - i,
{
    lemma_name_end(a, i);
    assert((a + b)[i] == a[i]);
    if is_name_char(a[i]) {
        lemma_name_front(a, b, i + 1);
    }
}

/// A fallback is closed by a brace.
proof fn lemma_fallback_brace(s: Seq<char>, i: int, nested: nat)
    requires
        0 <= i,
    ensures
        fallback_end(s, i, nested) matches Some(end) ==> i < end <= s.len() && s[end - 1] == '}',
    decreases s.len() - i,
{
    if i < s.len() {
        lemma_piece_bounds(s, i);
        match piece_at(s, i) {
            None => lemma_fallback_brace(s, i + 1, nested),
            Some((Piece::Variable { .. }, end)) => lemma_fallback_brace(s, end, nested + 1),
            Some((Piece::CloseBrace, end)) => if nested > 0 {
                lemma_fallback_brace(s, end, (nested - 1) as nat);
            },
            Some((_, end)) => lemma_fallback_brace(s, end, nested),
        }
    }
}

/// A fallback that is closed in the front part of a text is closed there in the whole.
proof fn lemma_front_fallback(a: Seq<char>, b: Seq<char>, i: int, nested: nat)
    requires
        0 <= i,
        a.len() > 0 ==> a.last() != '\\' && a.last() != '$',
        fallback_end(a, i, nested) is Some,
    ensures
        fallback_end(a + b, i, nested) == fallback_end(a, i, nested),
    decreases a.len() - i,
{
    lemma_piece_bounds(a, i);
    lemma_fallback_brace(a, i, nested);
    let closed = fallback_end(a, i, nested)->Some_0;
    if let Some((Piece::Unknown, end)) = piece_at(a, i) {
        lemma_fallback_brace(a, end, nested);
        assert(i + 2 <= closed - 1 < a.len() && a[closed - 1] == '}');
    }
    lemma_front_piece(a, b, i);
    match piece_at(a, i) {
        None => lemma_front_fallback(a, b, i + 1, nested),
        Some((Piece::Variable { .. }, end)) => lemma_front_fallback(a, b, end, nested + 1),
        Some((Piece::CloseBrace, end)) => if nested > 0 {
            lemma_front_fallback(a, b, end, (nested - 1) as nat);
        },
        Some((_, end)) => lemma_front_fallback(a, b, end, nested),
    }
}

/// What the front part of a text resolves to stands in front of what the rest resolves to.
proof fn lemma_front(
    a: Seq<char>,
    b: Seq<char>,
    i: int,
    depth: nat,
    env: spec_fn(Seq<char>) -> Option<Seq<char>>,
)
    requires
        0 <= i <= a.len(),
        a.len() > 0 ==> a.last() != '\\' && a.last() != '$',
        resolved(a, i, depth, answers_of(a, env)) is Ok,
    ensures
        resolved(a + b, i, depth, answers_of(a + b, env)) == prepend(
            resolved(a, i, depth, answers_of(a, env))->Ok_0,
            interpolated(b, env),
        ),
    decreases a.len() - i,
{
    let s = a + b;
    let far = answers_of(s, env);
    let near = answers_of(a, env);
    let rest = interpolated(b, env);
    if i == a.len() {
        lemma_shift_all(a, b, env);
        lemma_prepend_empty(Seq::empty(), rest);
    } else {
        lemma_piece_bounds(a, i);
        lemma_front_piece(a, b, i);
        assert(s[i] == a[i]);
        match piece_at(a, i) {
            None => {
                lemma_front(a, b, i + 1, depth, env);
                lemma_prepend_twice(seq![a[i]], resolved(a, i + 1, depth, near)->Ok_0, rest);
            },
            Some((Piece::Escaped(c), end)) => {
                lemma_front(a, b, end, depth, env);
                lemma_prepend_twice(seq![c], resolved(a, end, depth, near)->Ok_0, rest);
            },
            Some((Piece::Unknown, _)) => {},
            Some((Piece::CloseBrace, end)) => if depth == 0 {
                lemma_front(a, b, end, depth, env);
                lemma_prepend_twice(seq!['}'], resolved(a, end, depth, near)->Ok_0, rest);
            } else {
                lemma_front(a, b, end, (depth - 1) as nat, env);
            },
            Some((Piece::Variable { name, operator }, end)) => {
                assert(far(i) == near(i));
                match taken(operator, near(i)) {
                    Some(value) => {
                        lemma_fallback_bounds(a, end, 0);
                        lemma_front_fallback(a, b, end, 0);
                        let after = fallback_end(a, end, 0)->Some_0;
                        lemma_front(a, b, after, depth, env);
                        lemma_prepend_twice(value, resolved(a, after, depth, near)->Ok_0, rest);
                    },
                    None => lemma_front(a, b, end, depth + 1, env),
                }
            },
        }
    }
}

/// Texts that are resolved one behind the other are resolved as one: what the first resolves to
/// stands in front of what the second does, and a fault of the second is kept. The first must not
/// end in a character that acts on the next one.
pub proof fn law_texts_are_resolved_one_by_one(
    a: Seq<char>,
    b: Seq<char>,
    env: spec_fn(Seq<char>) -> Option<Seq<char>>,
)
    requires
        interpolated(a, env) is Ok,
        a.len() > 0 ==> a.last() != '\\' && a.last() != '$',
    ensures
        interpolated(a + b, env) == prepend(interpolated(a, env)->Ok_0, interpolated(b, env)),
{
    lemma_front(a, b, 0, 0, env);
}

/// The value of a variable stands between the texts around its substitution as it is: it is not
/// read again, whatever it holds.
pub proof fn law_values_are_not_read_again(
    before: Seq<char>,
    name: Seq<char>,
    after: Seq<char>,
    value: Seq<char>,
    env: spec_fn(Seq<char>) -> Option<Seq<char>>,
)
    requires
        is_plain(before),
        is_plain(after),
        is_name(name),
        env(name) == Some(value),
    ensures
        interpolated(
            before + substitution(name, Operator::Required, Seq::empty()) + after,
            env,
        ) == Ok::<Seq<char>, Fault>(before + value + after),
{
    let middle = substitution(name, Operator::Required, Seq::empty());
    law_substitution_forms(name, Operator::Required, Seq::empty(), env);
    law_texts_are_resolved_one_by_one(middle, after, env);
    assert(interpolated(after, env) == Ok::<Seq<char>, Fault>(after)) by {
        assert forall|i: int| 0 <= i < after.len() implies #[trigger] piece_at(after, i) is None by {
            assert(!is_escapable(after[i]));
        }
        law_text_without_tokens(after, env);
    }
    law_plain_prefix(before, middle + after, env);
    assert(before + middle + after =~= before + (middle + after));
    assert(before + (value + after) =~= before + value + after);
}

/// Where reading goes on behind position `i`: behind the fallback if the variable of a substitution
/// there has a value, else behind the token or the character.
pub open spec fn read_on(s: Seq<char>, i: int, answers: spec_fn(int) -> Option<Seq<char>>) -> int {
    match piece_at(s, i) {
        None => i + 1,
        Some((Piece::Variable { operator, .. }, end)) => match taken(operator, answers(i)) {
            Some(_) => match fallback_end(s, end, 0) {
                Some(after) => after,
                None => s.len() as int,
            },
            None => end,
        },
        Some((_, end)) => end,
    }
}

/// Whether position `k` is read from position `i` on: it lies in no token that begins before it, and
/// in no fallback that was discarded.
pub open spec fn is_live(
    s: Seq<char>,
    i: int,
    k: int,
    answers: spec_fn(int) -> Option<Seq<char>>,
) -> bool
    decreases s.len() - i,
{
    if i >= s.len() || i > k {
        false
    } else if i == k {
        true
    } else {
        proof {
            lemma_read_on(s, i, answers);
        }
        is_live(s, read_on(s, i, answers), k, answers)
    }
}

/// The fault at position `k`, if it is read: a `${` that opens no substitution, or a variable that
/// has to be set and is not.
pub open spec fn fault_at(
    s: Seq<char>,
    k: int,
    answers: spec_fn(int) -> Option<Seq<char>>,
) -> Option<Fault> {
    match piece_at(s, k) {
        Some((Piece::Unknown, _)) => Some(Fault::InvalidSyntax),
        Some((Piece::Variable { name, operator: Operator::Required }, _)) => if answers(
            k,
        ) is None {
            Some(Fault::NotFound(name))
        } else {
            None
        },
        _ => None,
    }
}

/// Whether a substitution at position `k` is never closed.
pub open spec fn is_unclosed(s: Seq<char>, k: int) -> bool {
    piece_at(s, k) matches Some((Piece::Variable { .. }, end)) && fallback_end(s, end, 0) is None
}

/// Whether `k` is the first position that is read from `i` on and has a fault.
pub open spec fn is_first_fault(
    s: Seq<char>,
    i: int,
    k: int,
    answers: spec_fn(int) -> Option<Seq<char>>,
) -> bool {
    &&& is_live(s, i, k, answers)
    &&& fault_at(s, k, answers) is Some
    &&& forall|j: int| j < k && #[trigger] is_live(s, i, j, answers) ==> fault_at(s, j, answers)
        is None
}

/// Reading goes on ahead.
pub proof fn lemma_read_on(s: Seq<char>, i: int, answers: spec_fn(int) -> Option<Seq<char>>)
    requires
        i < s.len(),
    ensures
        i < read_on(s, i, answers) <= s.len(),
{
    lemma_piece_bounds(s, i);
    if let Some((_, end)) = piece_at(s, i) {
        lemma_fallback_bounds(s, end, 0);
    }
}

/// Fallbacks around a position are closed one after the other.
proof fn lemma_fallbacks_around(s: Seq<char>, i: int, inner: nat, outer: nat)
    ensures
        fallback_end(s, i, inner + outer + 1) == match fallback_end(s, i, inner) {
            Some(end) => fallback_end(s, end, outer),
            None => None,
        },
    decreases s.len() - i,
{
    if i < s.len() {
        lemma_piece_bounds(s, i);
        match piece_at(s, i) {
            None => lemma_fallbacks_around(s, i + 1, inner, outer),
            Some((Piece::Variable { .. }, end)) => {
                lemma_fallbacks_around(s, end, inner + 1, outer);
                assert(inner + outer + 1 + 1 == (inner + 1) + outer + 1);
            },
            Some((Piece::CloseBrace, end)) => if inner > 0 {
                lemma_fallbacks_around(s, end, (inner - 1) as nat, outer);
                assert((inner + outer + 1) - 1 == (inner - 1) + outer + 1);
            },
            Some((_, end)) => lemma_fallbacks_around(s, end, inner, outer),
        }
    }
}

/// Whether the substitutions that are open around `i` are closed behind it.
spec fn is_closed_behind(s: Seq<char>, i: int, depth: nat) -> bool {
    depth > 0 ==> fallback_end(s, i, (depth - 1) as nat) is Some
}

/// Whether a substitution that is read from `i` on is never closed.
spec fn leaves_open(
    s: Seq<char>,
    i: int,
    answers: spec_fn(int) -> Option<Seq<char>>,
) -> bool {
    exists|k: int| #[trigger] is_live(s, i, k, answers) && is_unclosed(s, k)
}

/// What is read from `i` on is `i`, and what is read from behind it.
proof fn lemma_live_step(s: Seq<char>, i: int, answers: spec_fn(int) -> Option<Seq<char>>)
    requires
        i < s.len(),
    ensures
        forall|k: int| #[trigger]
            is_live(s, i, k, answers) <==> k == i || is_live(
                s,
                read_on(s, i, answers),
                k,
                answers,
            ),
        leaves_open(s, i, answers) == (is_unclosed(s, i) || leaves_open(
            s,
            read_on(s, i, answers),
            answers,
        )),
{
    lemma_read_on(s, i, answers);
    let next = read_on(s, i, answers);
    assert forall|k: int| #[trigger] is_live(s, i, k, answers) <==> k == i || is_live(
        s,
        next,
        k,
        answers,
    ) by {}
    if is_unclosed(s, i) {
        assert(is_live(s, i, i, answers));
    }
    if leaves_open(s, next, answers) {
        let k = choose|k: int| #[trigger] is_live(s, next, k, answers) && is_unclosed(s, k);
        assert(is_live(s, i, k, answers));
    }
    if leaves_open(s, i, answers) {
        let k = choose|k: int| #[trigger] is_live(s, i, k, answers) && is_unclosed(s, k);
        assert(k == i || is_live(s, next, k, answers));
    }
}

/// What is read lies at or behind where reading begins.
proof fn lemma_live_is_ahead(
    s: Seq<char>,
    i: int,
    answers: spec_fn(int) -> Option<Seq<char>>,
)
    ensures
        forall|k: int| #[trigger] is_live(s, i, k, answers) ==> i <= k < s.len(),
    decreases s.len() - i,
{
    if i < s.len() {
        lemma_read_on(s, i, answers);
        lemma_live_is_ahead(s, read_on(s, i, answers), answers);
        assert forall|k: int| #[trigger] is_live(s, i, k, answers) implies i <= k < s.len() by {
            if k != i {
                assert(is_live(s, read_on(s, i, answers), k, answers));
            }
        }
    }
}

/// How reading from `i` on ends, inside `depth` open substitutions.
proof fn lemma_outcome(
    s: Seq<char>,
    i: int,
    depth: nat,
    answers: spec_fn(int) -> Option<Seq<char>>,
)
    requires
        0 <= i <= s.len(),
    ensures
        forall|k: int| #[trigger]
            is_first_fault(s, i, k, answers) ==> resolved(s, i, depth, answers) == Err::<
                Seq<char>,
                Fault,
            >(fault_at(s, k, answers)->Some_0),
        (forall|k: int| #[trigger] is_live(s, i, k, answers) ==> fault_at(s, k, answers) is None)
            ==> if leaves_open(s, i, answers) || !is_closed_behind(s, i, depth) {
            resolved(s, i, depth, answers) == Err::<Seq<char>, Fault>(Fault::Incomplete)
        } else {
            resolved(s, i, depth, answers) is Ok
        },
    decreases s.len() - i,
{
    lemma_live_is_ahead(s, i, answers);
    if i == s.len() {
        assert(forall|k: int| !#[trigger] is_live(s, i, k, answers));
    } else {
        let next = read_on(s, i, answers);
        lemma_read_on(s, i, answers);
        lemma_live_step(s, i, answers);
        lemma_live_is_ahead(s, next, answers);
        lemma_piece_bounds(s, i);
        let inside = match piece_at(s, i) {
            Some((Piece::CloseBrace, _)) if depth > 0 => (depth - 1) as nat,
            Some((Piece::Variable { operator, .. }, _)) if taken(operator, answers(i)) is None =>
                depth + 1,
            _ => depth,
        };
        lemma_outcome(s, next, inside, answers);
        assert(is_live(s, i, i, answers));
        if let Some(fault) = fault_at(s, i, answers) {
            assert forall|k: int| #[trigger] is_first_fault(s, i, k, answers) implies k == i by {
                if k > i {
                    assert(fault_at(s, i, answers) is None);
                }
            }
            assert(taken(Operator::Required, None::<Seq<char>>) is None);
            assert(resolved(s, i, depth, answers) == Err::<Seq<char>, Fault>(fault));
        } else {
            assert forall|k: int| #[trigger] is_first_fault(s, i, k, answers) implies is_first_fault(
                s,
                next,
                k,
                answers,
            ) by {
                assert(k != i);
                assert forall|j: int| j < k && #[trigger] is_live(
                    s,
                    next,
                    j,
                    answers,
                ) implies fault_at(s, j, answers) is None by {
                    assert(is_live(s, i, j, answers));
                }
            }
            if forall|k: int| #[trigger]
                is_live(s, i, k, answers) ==> fault_at(s, k, answers) is None {
                assert forall|k: int| #[trigger] is_live(s, next, k, answers) implies fault_at(
                    s,
                    k,
                    answers,
                ) is None by {
                    assert(is_live(s, i, k, answers));
                }
            }
            if let Some((Piece::Variable { operator, .. }, end)) = piece_at(s, i) {
                if depth > 0 {
                    lemma_fallbacks_around(s, end, 0, (depth - 1) as nat);
                    assert(fallback_end(s, i, (depth - 1) as nat) == fallback_end(s, end, depth));
                }
                lemma_fallback_bounds(s, end, 0);
            }
        }
    }
}

/// When a text has no interpolation, and why. The first `${` that is read and opens no substitution,
/// or whose variable has to be set and is not, is reported; if there is none, a substitution that is
/// read and never closed is; and else the text has one. What lies in a fallback that a value made
/// redundant is not read.
pub proof fn law_failures(s: Seq<char>, env: spec_fn(Seq<char>) -> Option<Seq<char>>)
    ensures
        ({
            let answers = answers_of(s, env);
            &&& forall|k: int| #[trigger]
                is_first_fault(s, 0, k, answers) ==> interpolated(s, env) == Err::<
                    Seq<char>,
                    Fault,
                >(fault_at(s, k, answers)->Some_0)
            &&& (exists|k: int| #[trigger]
                is_live(s, 0, k, answers) && fault_at(s, k, answers) is Some) ==> exists|k: int| #[trigger]
                is_first_fault(s, 0, k, answers)
            &&& (forall|k: int| #[trigger]
                is_live(s, 0, k, answers) ==> fault_at(s, k, answers) is None) ==> {
                &&& (exists|k: int| #[trigger] is_live(s, 0, k, answers) && is_unclosed(s, k))
                    ==> interpolated(s, env) == Err::<Seq<char>, Fault>(Fault::Incomplete)
                &&& (forall|k: int| #[trigger] is_live(s, 0, k, answers) ==> !is_unclosed(s, k))
                    ==> interpolated(s, env) is Ok
            }
        }),
{
    let answers = answers_of(s, env);
    lemma_outcome(s, 0, 0, answers);
    lemma_live_is_ahead(s, 0, answers);
    if exists|k: int| #[trigger] is_live(s, 0, k, answers) && fault_at(s, k, answers) is Some {
        let k = choose|k: int| #[trigger]
            is_live(s, 0, k, answers) && fault_at(s, k, answers) is Some;
        lemma_first_fault_exists(s, answers, k);
    }
}

proof fn lemma_first_fault_exists(
    s: Seq<char>,
    answers: spec_fn(int) -> Option<Seq<char>>,
    k: int,
)
    requires
        is_live(s, 0, k, answers),
        fault_at(s, k, answers) is Some,
    ensures
        exists|j: int| #[trigger] is_first_fault(s, 0, j, answers),
    decreases k,
{
    lemma_live_is_ahead(s, 0, answers);
    if !is_first_fault(s, 0, k, answers) {
        let j = choose|j: int|
            j < k && #[trigger] is_live(s, 0, j, answers) && fault_at(s, j, answers) is Some;
        lemma_first_fault_exists(s, answers, j);
    }
}

/// Whether a substitution stands at position `k`.
pub open spec fn is_variable(s: Seq<char>, k: int) -> bool {
    piece_at(s, k) matches Some((Piece::Variable { .. }, _))
}

/// Whether the variable of a substitution at position `k` is asked for, reading from `i` on: the
/// position is read, and none that is read before it has a fault.
pub open spec fn is_asked(
    s: Seq<char>,
    i: int,
    k: int,
    answers: spec_fn(int) -> Option<Seq<char>>,
) -> bool {
    &&& is_live(s, i, k, answers)
    &&& is_variable(s, k)
    &&& forall|j: int| j < k && #[trigger] is_live(s, i, j, answers) ==> fault_at(s, j, answers)
        is None
}

/// The positions of the substitutions whose variables are asked for, reading from `i` on, in the
/// order in which they are read.
pub open spec fn questions(
    s: Seq<char>,
    i: int,
    answers: spec_fn(int) -> Option<Seq<char>>,
) -> Seq<int>
    decreases s.len() - i,
{
    if i >= s.len() {
        Seq::empty()
    } else {
        proof {
            lemma_read_on(s, i, answers);
        }
        let first = if is_variable(s, i) {
            seq![i]
        } else {
            Seq::empty()
        };
        if fault_at(s, i, answers) is Some {
            first
        } else {
            first + questions(s, read_on(s, i, answers), answers)
        }
    }
}

/// A substitution that is read is asked about first.
proof fn lemma_question(s: Seq<char>, i: int, answers: spec_fn(int) -> Option<Seq<char>>)
    requires
        0 <= i < s.len(),
        is_variable(s, i),
    ensures
        questions(s, i, answers) == seq![i] + (if fault_at(s, i, answers) is Some {
            Seq::empty()
        } else {
            questions(s, read_on(s, i, answers), answers)
        }),
{
    assert(seq![i] + Seq::<int>::empty() =~= seq![i]);
}

/// Nothing is asked about text without tokens, nor about tokens that are no substitutions.
proof fn lemma_next_question(s: Seq<char>, i: int, answers: spec_fn(int) -> Option<Seq<char>>)
    requires
        0 <= i <= s.len(),
    ensures
        match next_piece(s, i) {
            Some((start, end, piece)) => {
                &&& questions(s, i, answers) == questions(s, start, answers)
                &&& piece is Unknown ==> questions(s, start, answers) == Seq::<int>::empty()
                &&& (piece is Escaped || piece is CloseBrace) ==> questions(s, start, answers)
                    == questions(s, end, answers)
            },
            None => questions(s, i, answers) == Seq::<int>::empty(),
        },
    decreases s.len() - i,
{
    if i < s.len() {
        let rest = questions(s, read_on(s, i, answers), answers);
        assert(Seq::<int>::empty() + rest =~= rest);
        if piece_at(s, i) is None {
            lemma_next_question(s, i + 1, answers);
        }
    }
}

/// What is asked: the variables of the substitutions that are read up to the first fault, each
/// under its own name, once for each place where it stands, from the left to the right. None of them
/// lies in a fallback that a value made redundant, and none behind a backslash that escapes its `$`.
pub proof fn law_questions(s: Seq<char>, answers: spec_fn(int) -> Option<Seq<char>>)
    ensures
        ({
            let asked = questions(s, 0, answers);
            &&& forall|k: int|
                #![trigger asked.contains(k)]
                #![trigger is_asked(s, 0, k, answers)]
                asked.contains(k) <==> is_asked(s, 0, k, answers)
            &&& forall|a: int, b: int|
                0 <= a < b < asked.len() ==> #[trigger] asked[a] < #[trigger] asked[b]
            &&& forall|a: int|
                0 <= a < asked.len() ==> {
                    &&& opens_at(s, #[trigger] asked[a])
                    &&& is_name(variable_name(s, asked[a]))
                    &&& piece_at(s, asked[a]) matches Some((Piece::Variable { name, .. }, _))
                        && name == variable_name(s, asked[a])
                }
            &&& forall|i: int, a: int|
                0 <= a < asked.len() && #[trigger] is_live(s, 0, i, answers) && i
                    < #[trigger] asked[a] ==> read_on(s, i, answers) <= asked[a]
        }),
{
    let asked = questions(s, 0, answers);
    lemma_questions(s, 0, answers);
    assert forall|a: int| 0 <= a < asked.len() implies {
        &&& opens_at(s, #[trigger] asked[a])
        &&& is_name(variable_name(s, asked[a]))
        &&& piece_at(s, asked[a]) matches Some((Piece::Variable { name, .. }, _)) && name
            == variable_name(s, asked[a])
    } by {
        assert(asked.contains(asked[a]));
        assert(is_asked(s, 0, asked[a], answers));
        lemma_name_of(s, asked[a]);
    }
    assert forall|i: int, a: int|
        0 <= a < asked.len() && #[trigger] is_live(s, 0, i, answers) && i
            < #[trigger] asked[a] implies read_on(s, i, answers) <= asked[a] by {
        assert(asked.contains(asked[a]));
        assert(is_asked(s, 0, asked[a], answers));
        lemma_reads_on(s, 0, i, asked[a], answers);
    }
}

/// A lookup that reads an environment is asked for the variables that the environment's values leave
/// to be read, for all of them up to the first fault, and for no others.
pub proof fn law_what_is_read_is_asked<F: Fn(&str) -> Option<String>>(
    lookup: F,
    s: Seq<char>,
    result: Result<String, InterpolateError>,
    record: Map<int, Option<Seq<char>>>,
    env: spec_fn(Seq<char>) -> Option<Seq<char>>,
)
    requires
        rests_on(lookup, s, result, record),
        reads(lookup, env),
    ensures
        record.dom() == questions(s, 0, answers_of(s, env)).to_set(),
        forall|k: int| #[trigger]
            record.contains_key(k) ==> record[k] == env(variable_name(s, k)),
{
    let answers = answers_of(s, env);
    assert forall|k: int| #[trigger] record.contains_key(k) implies record[k] == env(
        variable_name(s, k),
    ) by {
        assert(may_answer(lookup, variable_name(s, k), record[k]));
    }
    assert(agrees(answers, record));
    law_questions(s, answers);
    let asked = questions(s, 0, answers);
    assert forall|k: int| record.dom().contains(k) <==> asked.to_set().contains(k) by {
        assert(record.contains_key(k) <==> is_asked(s, 0, k, answers));
        assert(asked.contains(k) <==> is_asked(s, 0, k, answers));
    }
    assert(record.dom() =~= asked.to_set());
}

proof fn lemma_questions(s: Seq<char>, i: int, answers: spec_fn(int) -> Option<Seq<char>>)
    requires
        0 <= i <= s.len(),
    ensures
        ({
            let asked = questions(s, i, answers);
            &&& forall|k: int|
                #![trigger asked.contains(k)]
                #![trigger is_asked(s, i, k, answers)]
                asked.contains(k) <==> is_asked(s, i, k, answers)
            &&& forall|a: int, b: int|
                0 <= a < b < asked.len() ==> #[trigger] asked[a] < #[trigger] asked[b]
        }),
    decreases s.len() - i,
{
    let asked = questions(s, i, answers);
    lemma_live_is_ahead(s, i, answers);
    if i < s.len() {
        let next = read_on(s, i, answers);
        let rest = questions(s, next, answers);
        lemma_read_on(s, i, answers);
        lemma_live_step(s, i, answers);
        lemma_live_is_ahead(s, next, answers);
        lemma_questions(s, next, answers);
        assert(is_live(s, i, i, answers));
        let first = if is_variable(s, i) {
            seq![i]
        } else {
            Seq::empty()
        };
        assert forall|k: int|
            #![trigger asked.contains(k)]
            #![trigger is_asked(s, i, k, answers)]
            asked.contains(k) <==> is_asked(s, i, k, answers) by {
            if k == i {
                if is_variable(s, i) {
                    assert(asked[0] == i);
                } else if asked.contains(i) {
                    let a = choose|a: int| 0 <= a < asked.len() && asked[a] == i;
                    assert(rest[a] == i);
                    assert(rest.contains(i));
                    assert(is_asked(s, next, i, answers));
                }
            } else if fault_at(s, i, answers) is None {
                if rest.contains(k) {
                    let a = choose|a: int| 0 <= a < rest.len() && rest[a] == k;
                    assert(asked[a + first.len()] == k);
                }
                if asked.contains(k) {
                    let a = choose|a: int| 0 <= a < asked.len() && asked[a] == k;
                    assert(rest[a - first.len()] == k);
                }
                assert(asked.contains(k) == rest.contains(k));
                if is_asked(s, next, k, answers) {
                    assert(is_live(s, i, k, answers));
                }
                if is_asked(s, i, k, answers) {
                    assert forall|j: int| j < k && #[trigger] is_live(
                        s,
                        next,
                        j,
                        answers,
                    ) implies fault_at(s, j, answers) is None by {
                        assert(is_live(s, i, j, answers));
                    }
                    assert(is_asked(s, next, k, answers));
                }
            }
        }
        assert forall|a: int, b: int| 0 <= a < b < asked.len() implies #[trigger] asked[a]
            < #[trigger] asked[b] by {
            if fault_at(s, i, answers) is None {
                assert(asked[b] == rest[b - first.len()]);
                if a >= first.len() {
                    assert(asked[a] == rest[a - first.len()]);
                } else {
                    assert(rest.contains(asked[b]));
                    assert(is_asked(s, next, asked[b], answers));
                }
            }
        }
    } else {
        assert forall|k: int| !#[trigger] is_asked(s, i, k, answers) by {}
    }
}

/// Reading goes on past a token and past a fallback that is discarded.
proof fn lemma_reads_on(
    s: Seq<char>,
    from: int,
    i: int,
    k: int,
    answers: spec_fn(int) -> Option<Seq<char>>,
)
    requires
        0 <= from,
        is_live(s, from, i, answers),
        is_live(s, from, k, answers),
        i < k,
    ensures
        read_on(s, i, answers) <= k,
    decreases s.len() - from,
{
    let next = read_on(s, from, answers);
    lemma_read_on(s, from, answers);
    lemma_live_is_ahead(s, next, answers);
    assert(is_live(s, next, k, answers));
    if from < i {
        lemma_reads_on(s, next, i, k, answers);
    }
}

/// A substitution stands behind a `${`, and its variable's name is one.
proof fn lemma_name_of(s: Seq<char>, i: int)
    requires
        is_variable(s, i),
    ensures
        opens_at(s, i),
        is_name(variable_name(s, i)),
        piece_at(s, i) matches Some((Piece::Variable { name, .. }, _)) && name == variable_name(
            s,
            i,
        ),
{
    let name = variable_name(s, i);
    lemma_name_end(s, i + 3);
    lemma_name_chars(s, i + 3);
    assert(name[0] == s[i + 2]);
    assert forall|k: int| 0 <= k < name.len() implies is_name_char(#[trigger] name[k]) by {
        assert(name[k] == s[i + 2 + k]);
    }
}

/// A run of name characters is made of name characters.
proof fn lemma_name_chars(s: Seq<char>, i: int)
    requires
        0 <= i,
    ensures
        forall|k: int| i <= k < name_end(s, i) ==> is_name_char(#[trigger] s[k]),
    decreases s.len() - i,
{
    if i < s.len() && is_name_char(s[i]) {
        lemma_name_chars(s, i + 1);
    }
}

/// A variable's name is an ASCII letter, and then ASCII letters, digits and underscores: by their
/// numbers.
pub proof fn law_variable_names(name: Seq<char>)
    ensures
        is_name(name) <==> name.len() > 0 && !(48 <= name[0] as int <= 57) && name[0] as int != 95
            && forall|i: int|
            0 <= i < name.len() ==> 48 <= #[trigger] name[i] as int <= 57 || 65 <= name[i] as int <= 90
                || name[i] as int == 95 || 97 <= name[i] as int <= 122,
{
    assert(forall|c: char| #[trigger]
        is_name_char(c) <==> 48 <= c as int <= 57 || 65 <= c as int <= 90 || c as int == 95 || 97
            <= c as int <= 122);
    assert(forall|c: char| #[trigger] is_letter(c) <==> is_name_char(c) && !(48 <= c as int <= 57)
        && c as int != 95);
    if name.len() > 0 {
        assert(is_letter(name[0]) <==> is_name_char(name[0]) && !(48 <= name[0] as int <= 57)
            && name[0] as int != 95);
    }
    if is_name(name) {
        assert forall|i: int| 0 <= i < name.len() implies 48 <= #[trigger] name[i] as int <= 57 || 65
            <= name[i] as int <= 90 || name[i] as int == 95 || 97 <= name[i] as int <= 122 by {
            assert(is_name_char(name[i]));
        }
    }
}

/// Backslashes escape the backslash, the dollar sign and the closing brace, and stay in front of all
/// else.
pub proof fn law_what_is_escaped(c: char, env: spec_fn(Seq<char>) -> Option<Seq<char>>)
    ensures
        interpolated(seq!['\\', c], env) == Ok::<Seq<char>, Fault>(
            if c as int == 92 || c as int == 36 || c as int == 125 {
                seq![c]
            } else {
                seq!['\\', c]
            },
        ),
{
    let s = seq!['\\', c];
    let answers = answers_of(s, env);
    reveal_with_fuel(resolved, 3);
    if is_escapable(c) {
        assert(piece_at(s, 0) == Some((Piece::Escaped(c), 2int)));
        assert(resolved(s, 2, 0, answers) == Ok::<Seq<char>, Fault>(Seq::empty()));
        assert(seq![c] + Seq::<char>::empty() =~= seq![c]);
    } else {
        assert(piece_at(s, 0) is None);
        assert(piece_at(s, 1) is None);
        assert(resolved(s, 2, 0, answers) == Ok::<Seq<char>, Fault>(Seq::empty()));
        assert(seq![c] + Seq::<char>::empty() =~= seq![c]);
        assert(seq!['\\'] + seq![c] =~= s);
    }
}

/// A `${` that no name follows, or a name behind which none of the operators stands, is an error.
pub proof fn law_unreadable_substitutions(
    name: Seq<char>,
    rest: Seq<char>,
    env: spec_fn(Seq<char>) -> Option<Seq<char>>,
)
    requires
        name.len() == 0 || is_name(name),
        rest.len() > 0 && name.len() == 0 ==> !is_letter(rest[0]),
        rest.len() > 0 && name.len() > 0 ==> !is_name_char(rest[0]) && rest[0] != '}' && rest[0] != '-'
            && !(rest[0] == ':' && rest.len() > 1 && rest[1] == '-'),
    ensures
        interpolated(seq!['$', '{'] + name + rest, env) == Err::<Seq<char>, Fault>(
            Fault::InvalidSyntax,
        ),
{
    let s = seq!['$', '{'] + name + rest;
    let n = name.len() as int;
    assert(s[0] == '$' && s[1] == '{');
    if n == 0 {
        if rest.len() > 0 {
            assert(s[2] == rest[0]);
        }
    } else {
        assert(s[2] == name[0]);
        assert forall|k: int| 3 <= k < n + 2 implies is_name_char(#[trigger] s[k]) by {
            assert(s[k] == name[k - 2]);
        }
        if rest.len() > 0 {
            assert(s[n + 2] == rest[0]);
            lemma_name_run(s, 3, n + 2);
            if rest.len() > 1 {
                assert(s[n + 3] == rest[1]);
            }
        } else {
            lemma_name_to_end(s, 3);
        }
    }
    assert(piece_at(s, 0) == Some((Piece::Unknown, 2int)));
}

proof fn lemma_name_to_end(s: Seq<char>, i: int)
    requires
        0 <= i <= s.len(),
        forall|k: int| i <= k < s.len() ==> is_name_char(#[trigger] s[k]),
    ensures
        name_end(s, i) == s.len(),
    decreases s.len() - i,
{
    if i < s.len() {
        lemma_name_to_end(s, i + 1);
    }
}

/// A text as it is meant: characters, escaped ones, and substitutions, whose fallbacks are such texts.
pub enum Meant {
    End,
    Plain { c: char, rest: Box<Meant> },
    Escaped { c: char, rest: Box<Meant> },
    Substitution { name: Seq<char>, operator: Operator, fallback: Box<Meant>, rest: Box<Meant> },
}

/// What opens a substitution.
pub open spec fn opening(name: Seq<char>, operator: Operator) -> Seq<char> {
    seq!['$', '{'] + name + match operator {
        Operator::Required => Seq::<char>::empty(),
        Operator::Unset => seq!['-'],
        Operator::UnsetOrEmpty => seq![':', '-'],
    }
}

impl Meant {
    /// Whether the text can be written: plain characters need no escape, escaped ones can have one,
    /// names are names, and a variable that has to be set has no fallback.
    pub open spec fn can_be_written(self) -> bool
        decreases self,
    {
        match self {
            Meant::End => true,
            Meant::Plain { c, rest } => c != '\\' && c != '$' && c != '}' && rest.can_be_written(),
            Meant::Escaped { c, rest } => (c == '\\' || c == '$' || c == '}')
                && rest.can_be_written(),
            Meant::Substitution { name, operator, fallback, rest } => is_name(name) && (operator
                == Operator::Required ==> *fallback is End) && fallback.can_be_written()
                && rest.can_be_written(),
        }
    }

    /// How the text is written.
    pub open spec fn written(self) -> Seq<char>
        decreases self,
    {
        match self {
            Meant::End => Seq::empty(),
            Meant::Plain { c, rest } => seq![c] + rest.written(),
            Meant::Escaped { c, rest } => seq!['\\', c] + rest.written(),
            Meant::Substitution { name, operator, fallback, rest } => opening(name, operator)
                + fallback.written() + seq!['}'] + rest.written(),
        }
    }

    /// What the text stands for in an environment. The value of a variable is used if it is set, and
    /// with `:-` if it is not empty either; the fallback counts only if the value is not used.
    pub open spec fn meaning(self, env: spec_fn(Seq<char>) -> Option<Seq<char>>) -> Result<
        Seq<char>,
        Fault,
    >
        decreases self,
    {
        match self {
            Meant::End => Ok(Seq::empty()),
            Meant::Plain { c, rest } => prepend(seq![c], rest.meaning(env)),
            Meant::Escaped { c, rest } => prepend(seq![c], rest.meaning(env)),
            Meant::Substitution { name, operator, fallback, rest } => match (operator, env(name)) {
                (Operator::Required, None) => Err(Fault::NotFound(name)),
                (Operator::Required, Some(value)) => prepend(value, rest.meaning(env)),
                (Operator::Unset, Some(value)) => prepend(value, rest.meaning(env)),
                (Operator::UnsetOrEmpty, Some(value)) if value.len() > 0 => prepend(
                    value,
                    rest.meaning(env),
                ),
                _ => match fallback.meaning(env) {
                    Ok(head) => prepend(head, rest.meaning(env)),
                    Err(fault) => Err(fault),
                },
            },
        }
    }
}

/// A text that is written resolves to what it means, however deep its substitutions are nested.
pub proof fn law_texts_resolve_to_what_they_mean(
    t: Meant,
    env: spec_fn(Seq<char>) -> Option<Seq<char>>,
)
    requires
        t.can_be_written(),
    ensures
        interpolated(t.written(), env) == t.meaning(env),
{
    let s = t.written();
    let n = s.len() as int;
    let answers = answers_of(s, env);
    assert(s.subrange(0, n) =~= s);
    lemma_meant(t, s, 0, 0, env);
    assert(resolved(s, n, 0, answers) == Ok::<Seq<char>, Fault>(Seq::empty()));
    if let Ok(text) = t.meaning(env) {
        assert(text + Seq::<char>::empty() =~= text);
    }
}

/// A substitution that is never closed is an error: if the value of its variable is used, and if the
/// fallback is read and has no error of its own.
pub proof fn law_unclosed_substitutions(
    name: Seq<char>,
    operator: Operator,
    t: Meant,
    env: spec_fn(Seq<char>) -> Option<Seq<char>>,
)
    requires
        is_name(name),
        operator != Operator::Required,
        t.can_be_written(),
    ensures
        ({
            let used = env(name) is Some && (operator == Operator::UnsetOrEmpty ==> env(
                name,
            )->Some_0.len() > 0);
            interpolated(opening(name, operator) + t.written(), env) == if used {
                Err::<Seq<char>, Fault>(Fault::Incomplete)
            } else {
                match t.meaning(env) {
                    Ok(_) => Err(Fault::Incomplete),
                    Err(fault) => Err(fault),
                }
            }
        }),
        forall|nested: nat| #[trigger]
            left_open(opening(name, operator) + t.written(), 0, nested) == nested + 1,
{
    let open = opening(name, operator);
    let s = open + t.written();
    let end = open.len() as int;
    let n = s.len() as int;
    let answers = answers_of(s, env);
    assert(s.subrange(0, end) =~= open);
    lemma_opening(s, 0, name, operator);
    assert(s.subrange(end, n) =~= t.written());
    lemma_meant(t, s, end, 1, env);
    assert(fallback_end(s, n, 0) is None);
    assert(answers(0) == env(name));
    assert(resolved(s, n, 1, answers) == Err::<Seq<char>, Fault>(Fault::Incomplete));
    assert forall|nested: nat| #[trigger] left_open(s, 0, nested) == nested + 1 by {
        assert(left_open(s, 0, nested) == left_open(s, end, nested + 1));
        assert(left_open(s, n, nested + 1) == nested + 1);
    }
}

/// What opens a substitution is its token.
proof fn lemma_opening(s: Seq<char>, i: int, name: Seq<char>, operator: Operator)
    requires
        0 <= i,
        is_name(name),
        i + opening(name, operator).len() <= s.len(),
        s.subrange(i, i + opening(name, operator).len()) == opening(name, operator),
        operator == Operator::Required ==> i + opening(name, operator).len() < s.len() && s[i
            + opening(name, operator).len()] == '}',
    ensures
        variable_name(s, i) == name,
        piece_at(s, i) == Some(
            (Piece::Variable { name, operator }, i + opening(name, operator).len()),
        ),
{
    let open = opening(name, operator);
    let n = name.len() as int;
    assert forall|k: int| 0 <= k < open.len() implies s[i + k] == #[trigger] open[k] by {
        assert(s.subrange(i, i + open.len())[k] == s[i + k]);
    }
    assert(s[i] == open[0] && s[i + 1] == open[1]);
    assert forall|k: int| 0 <= k < n implies s[i + 2 + k] == #[trigger] name[k] by {
        assert(open[2 + k] == name[k]);
    }
    assert(s[i + 2 + 0] == name[0]);
    assert forall|k: int| i + 3 <= k < i + 2 + n implies is_name_char(#[trigger] s[k]) by {
        assert(s[i + 2 + (k - i - 2)] == name[k - i - 2]);
    }
    if operator != Operator::Required {
        assert(s[i + (n + 2)] == open[n + 2]);
        if operator == Operator::UnsetOrEmpty {
            assert(s[i + (n + 3)] == open[n + 3]);
        }
    }
    lemma_name_run(s, i + 3, i + 2 + n);
    assert(variable_name(s, i) =~= name);
}

/// A text that stands somewhere is resolved there to what it means, leaves what stands behind it to be
/// read as before, and opens and closes as much.
proof fn lemma_meant(
    t: Meant,
    s: Seq<char>,
    i: int,
    depth: nat,
    env: spec_fn(Seq<char>) -> Option<Seq<char>>,
)
    requires
        t.can_be_written(),
        0 <= i,
        i + t.written().len() <= s.len(),
        s.subrange(i, i + t.written().len()) == t.written(),
    ensures
        ({
            let j = i + t.written().len();
            &&& resolved(s, i, depth, answers_of(s, env)) == match t.meaning(env) {
                Ok(head) => prepend(head, resolved(s, j, depth, answers_of(s, env))),
                Err(fault) => Err(fault),
            }
            &&& forall|nested: nat| #[trigger] fallback_end(s, i, nested) == fallback_end(s, j, nested)
            &&& forall|nested: nat| #[trigger] left_open(s, i, nested) == left_open(s, j, nested)
        }),
    decreases t,
{
    let w = t.written();
    let j = i + w.len();
    let answers = answers_of(s, env);
    assert forall|k: int| 0 <= k < w.len() implies s[i + k] == #[trigger] w[k] by {
        assert(s.subrange(i, i + w.len())[k] == s[i + k]);
    }
    match t {
        Meant::End => {
            lemma_prepend_empty(Seq::empty(), resolved(s, j, depth, answers));
        },
        Meant::Plain { c, rest } => {
            assert(s[i + 0] == w[0]);
            assert(piece_at(s, i) is None);
            assert(s.subrange(i + 1, j) =~= rest.written()) by {
                assert forall|k: int| 0 <= k < rest.written().len() implies s[i + 1 + k]
                    == rest.written()[k] by {
                    assert(s[i + (k + 1)] == w[k + 1]);
                }
            }
            lemma_meant(*rest, s, i + 1, depth, env);
            if let Ok(head) = rest.meaning(env) {
                lemma_prepend_twice(seq![c], head, resolved(s, j, depth, answers));
            }
            assert forall|nested: nat| #[trigger]
                fallback_end(s, i, nested) == fallback_end(s, j, nested) by {
                assert(fallback_end(s, i, nested) == fallback_end(s, i + 1, nested));
            }
            assert forall|nested: nat| #[trigger]
                left_open(s, i, nested) == left_open(s, j, nested) by {
                assert(left_open(s, i, nested) == left_open(s, i + 1, nested));
            }
        },
        Meant::Escaped { c, rest } => {
            assert(s[i + 0] == w[0]);
            assert(s[i + 1] == w[1]);
            assert(piece_at(s, i) == Some((Piece::Escaped(c), i + 2)));
            assert(s.subrange(i + 2, j) =~= rest.written()) by {
                assert forall|k: int| 0 <= k < rest.written().len() implies s[i + 2 + k]
                    == rest.written()[k] by {
                    assert(s[i + (k + 2)] == w[k + 2]);
                }
            }
            lemma_meant(*rest, s, i + 2, depth, env);
            if let Ok(head) = rest.meaning(env) {
                lemma_prepend_twice(seq![c], head, resolved(s, j, depth, answers));
            }
            assert forall|nested: nat| #[trigger]
                fallback_end(s, i, nested) == fallback_end(s, j, nested) by {
                assert(fallback_end(s, i, nested) == fallback_end(s, i + 2, nested));
            }
            assert forall|nested: nat| #[trigger]
                left_open(s, i, nested) == left_open(s, j, nested) by {
                assert(left_open(s, i, nested) == left_open(s, i + 2, nested));
            }
        },
        Meant::Substitution { name, operator, fallback, rest } => {
            let open = opening(name, operator);
            let end = i + open.len();
            let inner = fallback.written();
            let close = end + inner.len();
            let m = open.len() as int;
            assert(s.subrange(i, end) =~= open) by {
                assert forall|k: int| 0 <= k < m implies s[i + k] == open[k] by {
                    assert(s[i + k] == w[k]);
                }
            }
            assert(s.subrange(end, close) =~= inner) by {
                assert forall|k: int| 0 <= k < inner.len() implies s[end + k] == inner[k] by {
                    assert(s[i + (m + k)] == w[m + k]);
                }
            }
            assert(s[close] == '}') by {
                assert(s[i + (m + inner.len())] == w[m + inner.len()]);
            }
            assert(s.subrange(close + 1, j) =~= rest.written()) by {
                assert forall|k: int| 0 <= k < rest.written().len() implies s[close + 1 + k]
                    == rest.written()[k] by {
                    assert(s[i + (m + inner.len() + 1 + k)] == w[m + inner.len() + 1 + k]);
                }
            }
            lemma_opening(s, i, name, operator);
            assert(answers(i) == env(name));
            lemma_meant(*fallback, s, end, depth + 1, env);
            lemma_meant(*rest, s, close + 1, depth, env);
            assert(piece_at(s, close) == Some((Piece::CloseBrace, close + 1)));
            assert(fallback_end(s, end, 0) == fallback_end(s, close, 0));
            assert(fallback_end(s, close, 0) == Some(close + 1));
            assert(resolved(s, close, depth + 1, answers) == resolved(s, close + 1, depth, answers));
            match taken(operator, env(name)) {
                Some(value) => {
                    assert(resolved(s, i, depth, answers) == prepend(
                        value,
                        resolved(s, close + 1, depth, answers),
                    ));
                    if let Ok(head) = rest.meaning(env) {
                        lemma_prepend_twice(value, head, resolved(s, j, depth, answers));
                    }
                },
                None => {
                    if operator != Operator::Required {
                        assert(resolved(s, i, depth, answers) == resolved(
                            s,
                            end,
                            depth + 1,
                            answers,
                        ));
                        if let Ok(first) = fallback.meaning(env) {
                            if let Ok(head) = rest.meaning(env) {
                                lemma_prepend_twice(first, head, resolved(s, j, depth, answers));
                            }
                        }
                    }
                },
            }
            assert forall|nested: nat| #[trigger]
                fallback_end(s, i, nested) == fallback_end(s, j, nested) by {
                assert(fallback_end(s, i, nested) == fallback_end(s, end, nested + 1));
                assert(fallback_end(s, end, nested + 1) == fallback_end(s, close, nested + 1));
                assert(fallback_end(s, close, nested + 1) == fallback_end(s, close + 1, nested));
            }
            assert forall|nested: nat| #[trigger]
                left_open(s, i, nested) == left_open(s, j, nested) by {
                assert(left_open(s, i, nested) == left_open(s, end, nested + 1));
                assert(left_open(s, end, nested + 1) == left_open(s, close, nested + 1));
                assert(left_open(s, close, nested + 1) == left_open(s, close + 1, nested));
            }
        },
    }
}

/// Characters that act on nothing stay: a closing brace that closes nothing, a dollar sign without a
/// brace behind it, a backslash in front of what needs no escape, and all others.
pub proof fn law_lone_characters_stay(
    c: char,
    s: Seq<char>,
    env: spec_fn(Seq<char>) -> Option<Seq<char>>,
)
    requires
        c == '$' && s.len() > 0 ==> s[0] != '{',
        c == '\\' && s.len() > 0 ==> s[0] != '\\' && s[0] != '$' && s[0] != '}',
    ensures
        interpolated(seq![c] + s, env) == match interpolated(s, env) {
            Ok(text) => Ok::<Seq<char>, Fault>(seq![c] + text),
            Err(fault) => Err(fault),
        },
{
    let t = seq![c] + s;
    assert(t[0] == c);
    if s.len() > 0 {
        assert(t[1] == s[0]);
    }
    lemma_shift_all(seq![c], s, env);
    if c == '}' {
        assert(piece_at(t, 0) == Some((Piece::CloseBrace, 1int)));
    } else {
        assert(piece_at(t, 0) is None);
    }
}

} // verus!
