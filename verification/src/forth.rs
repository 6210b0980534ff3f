//! Forth programs: words separated by white space.
//!
//! A backslash starts a comment up to the end of the line, an opening
//! parenthesis one up to its closing parenthesis, nested ones counted. Text in
//! double quotes is a string literal, a numeral is a number, everything else
//! a word name. A colon, a name, words and a semicolon make a definition.
use vstd::prelude::*;
use vstd::std_specs::convert::FromSpecImpl;
use vstd::string::*;

use crate::order::chars_of;
use crate::text::{is_space, lower, lower_text, same_text, space, string_of};

verus! {

/// A word of a program.
#[derive(Debug, PartialEq)]
pub enum Word {
    /// A string literal.
    Str(String),
    /// A number, as it was written.
    Num(String),
    /// A named word.
    Ident(String),
    /// A sequence of words.
    Sequence(Vec<Word>),
    /// A definition: a name and the words it stands for.
    ColonDef { name: String, body: Vec<Word> },
}

/// A program: a sequence of words.
#[derive(Debug, PartialEq)]
pub struct Ast {
    pub words: Vec<Word>,
}

impl Ast {
    /// A program of some words.
    pub fn new(words: Vec<Word>) -> (r: Self)
        ensures
            r.words == words,
    {
        Ast { words }
    }

    /// Whether the program has no words.
    pub fn is_empty(&self) -> (r: bool)
        ensures
            r == (self.words@.len() == 0),
    {
        self.words.len() == 0
    }
}

impl From<Vec<Word>> for Ast {
    fn from(words: Vec<Word>) -> (r: Self) {
        Ast { words }
    }
}

impl FromSpecImpl<Vec<Word>> for Ast {
    open spec fn obeys_from_spec() -> bool {
        true
    }

    open spec fn from_spec(words: Vec<Word>) -> Self {
        Ast { words }
    }
}

impl Word {
    /// The name of a named word.
    pub fn as_ident(&self) -> (r: Option<&str>)
        ensures
            r is Some <==> *self is Ident,
            r matches Some(s) ==> s@ == self->Ident_0@,
    {
        match self {
            Word::Ident(s) => Some(s.as_str()),
            _ => None,
        }
    }

    /// The text of a string literal.
    pub fn as_str(&self) -> (r: Option<&str>)
        ensures
            r is Some <==> *self is Str,
            r matches Some(s) ==> s@ == self->Str_0@,
    {
        match self {
            Word::Str(s) => Some(s.as_str()),
            _ => None,
        }
    }

    /// The numeral of a number.
    pub fn as_num(&self) -> (r: Option<&str>)
        ensures
            r is Some <==> *self is Num,
            r matches Some(s) ==> s@ == self->Num_0@,
    {
        match self {
            Word::Num(s) => Some(s.as_str()),
            _ => None,
        }
    }
}

/// Why a program does not parse.
#[derive(Debug, Clone, Copy, PartialEq, Eq, Structural)]
pub enum ParseError {
    /// A string literal does not end.
    UnterminatedString,
    /// A block comment does not end.
    UnterminatedComment,
}

impl ParseError {
    /// The message.
    pub fn to_string(&self) -> (r: String)
        ensures
            r@ == match *self {
                ParseError::UnterminatedString => "unterminated string literal"@,
                ParseError::UnterminatedComment => "unterminated block comment"@,
            },
    {
        match self {
            ParseError::UnterminatedString => "unterminated string literal".to_owned(),
            ParseError::UnterminatedComment => "unterminated block comment".to_owned(),
        }
    }
}

/// A decimal digit.
pub open spec fn digit(c: char) -> bool {
    '0' <= c && c <= '9'
}

/// Decimal digits, at least one.
pub open spec fn digits_only(s: Seq<char>) -> bool {
    s.len() > 0 && forall|i: int| 0 <= i < s.len() ==> digit(#[trigger] s[i])
}

/// How many points a text has.
pub open spec fn points(s: Seq<char>) -> nat
    decreases s.len(),
{
    if s.len() == 0 {
        0
    } else {
        points(s.drop_last()) + if s.last() == '.' {
            1nat
        } else {
            0nat
        }
    }
}

/// Digits with at most one point among them, at least one digit.
pub open spec fn mantissa(s: Seq<char>) -> bool {
    &&& forall|i: int| 0 <= i < s.len() ==> digit(#[trigger] s[i]) || s[i] == '.'
    &&& points(s) <= 1
    &&& exists|i: int| 0 <= i < s.len() && digit(#[trigger] s[i])
}

/// A text without its sign.
pub open spec fn unsigned(s: Seq<char>) -> Seq<char> {
    if s.len() > 0 && (s[0] == '+' || s[0] == '-') {
        s.skip(1)
    } else {
        s
    }
}

/// The letter that starts an exponent.
pub open spec fn exponent_mark(c: char) -> bool {
    c == 'e' || c == 'E'
}

/// A decimal number without a sign: a mantissa, possibly with an exponent.
pub open spec fn decimal_form(s: Seq<char>) -> bool {
    mantissa(s) || exists|k: int|
        0 <= k < s.len() && exponent_mark(#[trigger] s[k]) && mantissa(s.take(k)) && digits_only(
            unsigned(s.skip(k + 1)),
        )
}

/// A numeral: an optional sign, then a decimal number, an infinity or the
/// not-a-number, in small letters or capitals.
pub open spec fn numeral(s: Seq<char>) -> bool {
    let u = unsigned(s);
    ||| decimal_form(u)
    ||| lower_text(u) == "inf"@
    ||| lower_text(u) == "infinity"@
    ||| lower_text(u) == "nan"@
}

/// A word of the source, before definitions are grouped.
pub enum Token {
    Str(Seq<char>),
    Num(Seq<char>),
    Ident(Seq<char>),
}

/// The word that collected characters make; none where there are none.
pub open spec fn flushed(buf: Seq<char>) -> Seq<Token> {
    if buf.len() == 0 {
        Seq::empty()
    } else if numeral(buf) {
        seq![Token::Num(buf)]
    } else {
        seq![Token::Ident(buf)]
    }
}

/// Where the line goes on that a position lies in: its line feed, or the end.
pub open spec fn line_end(s: Seq<char>, i: int) -> int
    decreases s.len() - i,
{
    if i < 0 || i >= s.len() || s[i] == '\n' {
        i
    } else {
        line_end(s, i + 1)
    }
}

/// Where the comments end that are open at a position; none where they do
/// not.
pub open spec fn comment_end(s: Seq<char>, i: int, depth: nat) -> Option<int>
    decreases s.len() - i,
{
    if depth == 0 {
        Some(i)
    } else if i < 0 || i >= s.len() {
        None
    } else if s[i] == '(' {
        comment_end(s, i + 1, depth + 1)
    } else if s[i] == ')' {
        comment_end(s, i + 1, (depth - 1) as nat)
    } else {
        comment_end(s, i + 1, depth)
    }
}

/// Where the literal ends that is open at a position, after its quote; none
/// where it does not. A backslash takes the next character as it is.
pub open spec fn literal_end(s: Seq<char>, i: int) -> Option<int>
    decreases s.len() - i,
{
    if i < 0 || i >= s.len() {
        None
    } else if s[i] == '"' {
        Some(i + 1)
    } else if s[i] == '\\' {
        if i + 1 < s.len() {
            literal_end(s, i + 2)
        } else {
            None
        }
    } else {
        literal_end(s, i + 1)
    }
}

/// The rest of the literal that is open at a position.
pub open spec fn literal_text(s: Seq<char>, i: int) -> Seq<char>
    decreases s.len() - i,
{
    if i < 0 || i >= s.len() || s[i] == '"' {
        Seq::empty()
    } else if s[i] == '\\' {
        if i + 1 < s.len() {
            seq![s[i + 1]] + literal_text(s, i + 2)
        } else {
            Seq::empty()
        }
    } else {
        seq![s[i]] + literal_text(s, i + 1)
    }
}

pub proof fn lemma_line_end(s: Seq<char>, i: int)
    requires
        0 <= i <= s.len(),
    ensures
        i <= line_end(s, i) <= s.len(),
    decreases s.len() - i,
{
    if i < s.len() && s[i] != '\n' {
        lemma_line_end(s, i + 1);
    }
}

pub proof fn lemma_comment_end(s: Seq<char>, i: int, depth: nat)
    requires
        0 <= i <= s.len(),
    ensures
        comment_end(s, i, depth) matches Some(j) ==> i <= j <= s.len(),
    decreases s.len() - i,
{
    if depth > 0 && i < s.len() {
        lemma_comment_end(s, i + 1, depth + 1);
        lemma_comment_end(s, i + 1, (depth - 1) as nat);
        lemma_comment_end(s, i + 1, depth);
    }
}

pub proof fn lemma_literal_end(s: Seq<char>, i: int)
    requires
        0 <= i <= s.len(),
    ensures
        literal_end(s, i) matches Some(j) ==> i < j <= s.len(),
    decreases s.len() - i,
{
    if i < s.len() && s[i] != '"' {
        if s[i] == '\\' {
            if i + 1 < s.len() {
                lemma_literal_end(s, i + 2);
            }
        } else {
            lemma_literal_end(s, i + 1);
        }
    }
}

/// Words before those of a result.
pub open spec fn preceded(
    before: Seq<Token>,
    r: Result<Seq<Token>, ParseError>,
) -> Result<Seq<Token>, ParseError> {
    match r {
        Ok(t) => Ok(before + t),
        Err(e) => Err(e),
    }
}

/// The words of the source from a position on, some characters of a word
/// having been collected.
pub open spec fn lexed(s: Seq<char>, i: int, buf: Seq<char>) -> Result<Seq<Token>, ParseError>
    decreases s.len() - i,
{
    if i < 0 || i >= s.len() {
        Ok(flushed(buf))
    } else if is_space(s[i]) {
        preceded(flushed(buf), lexed(s, i + 1, Seq::empty()))
    } else if s[i] == '\\' {
        proof {
            lemma_line_end(s, i + 1);
        }
        preceded(flushed(buf), lexed(s, line_end(s, i + 1), Seq::empty()))
    } else if s[i] == '(' {
        proof {
            lemma_comment_end(s, i + 1, 1);
        }
        match comment_end(s, i + 1, 1) {
            Some(j) => preceded(flushed(buf), lexed(s, j, Seq::empty())),
            None => Err(ParseError::UnterminatedComment),
        }
    } else if s[i] == '"' {
        proof {
            lemma_literal_end(s, i + 1);
        }
        match literal_end(s, i + 1) {
            Some(j) => preceded(
                flushed(buf).push(Token::Str(literal_text(s, i + 1))),
                lexed(s, j, Seq::empty()),
            ),
            None => Err(ParseError::UnterminatedString),
        }
    } else {
        lexed(s, i + 1, buf.push(s[i]))
    }
}

/// A word of a program as parsed: a single word or a definition.
pub enum Item {
    Plain(Token),
    Def { name: Seq<char>, body: Seq<Token> },
}

/// The first semicolon from a position on.
pub open spec fn semicolon(t: Seq<Token>, i: int) -> Option<int>
    decreases t.len() - i,
{
    if i < 0 || i >= t.len() {
        None
    } else if t[i] == Token::Ident(";"@) {
        Some(i)
    } else {
        semicolon(t, i + 1)
    }
}

pub proof fn lemma_semicolon(t: Seq<Token>, i: int)
    requires
        0 <= i <= t.len(),
    ensures
        semicolon(t, i) matches Some(j) ==> i <= j < t.len() && t[j] == Token::Ident(";"@),
    decreases t.len() - i,
{
    if i < t.len() && t[i] != Token::Ident(";"@) {
        lemma_semicolon(t, i + 1);
    }
}

/// A definition starts at a position: a colon, a name, and a semicolon after
/// them.
pub open spec fn defines(t: Seq<Token>, i: int) -> bool {
    &&& 0 <= i && i + 2 < t.len()
    &&& t[i] == Token::Ident(":"@)
    &&& t[i + 1] is Ident
    &&& semicolon(t, i + 2) is Some
}

/// The words from a position on, definitions grouped.
pub open spec fn grouped(t: Seq<Token>, i: int) -> Seq<Item>
    decreases t.len() - i,
{
    if i < 0 || i >= t.len() {
        Seq::empty()
    } else if defines(t, i) {
        proof {
            lemma_semicolon(t, i + 2);
        }
        let j = semicolon(t, i + 2)->0;
        seq![Item::Def { name: t[i + 1]->Ident_0, body: t.subrange(i + 2, j) }] + grouped(t, j + 1)
    } else {
        seq![Item::Plain(t[i])] + grouped(t, i + 1)
    }
}

/// The program of a source.
pub open spec fn program(s: Seq<char>) -> Result<Seq<Item>, ParseError> {
    match lexed(s, 0, Seq::empty()) {
        Ok(t) => Ok(grouped(t, 0)),
        Err(e) => Err(e),
    }
}

/// A word is a given single word.
pub open spec fn is_token(w: Word, t: Token) -> bool {
    match w {
        Word::Str(s) => t == Token::Str(s@),
        Word::Num(s) => t == Token::Num(s@),
        Word::Ident(s) => t == Token::Ident(s@),
        _ => false,
    }
}

/// Words are given single words.
pub open spec fn are_tokens(w: Seq<Word>, t: Seq<Token>) -> bool {
    w.len() == t.len() && forall|i: int| 0 <= i < w.len() ==> is_token(#[trigger] w[i], t[i])
}

/// A word is a given item.
pub open spec fn is_item(w: Word, it: Item) -> bool {
    match it {
        Item::Plain(t) => is_token(w, t),
        Item::Def { name, body } => w is ColonDef && w->name@ == name && are_tokens(
            w->body@,
            body,
        ),
    }
}

/// Words are given items.
pub open spec fn are_items(w: Seq<Word>, items: Seq<Item>) -> bool {
    w.len() == items.len() && forall|i: int|
        0 <= i < w.len() ==> is_item(#[trigger] w[i], items[i])
}

fn is_decimal_digit(c: char) -> (r: bool)
    ensures
        r == digit(c),
{
    '0' <= c && c <= '9'
}

fn all_digits(s: &[char]) -> (r: bool)
    ensures
        r == digits_only(s@),
{
    let mut i: usize = 0;
    while i < s.len()
        invariant
            i <= s@.len(),
            forall|j: int| 0 <= j < i ==> digit(#[trigger] s@[j]),
        decreases s@.len() - i,
    {
        if !is_decimal_digit(s[i]) {
            assert(!digit(s@[i as int]));
            return false;
        }
        i = i + 1;
    }
    s.len() > 0
}

proof fn lemma_points_prefix(s: Seq<char>, i: int)
    requires
        0 <= i <= s.len(),
    ensures
        points(s.take(i)) <= points(s),
        points(s) <= s.len(),
    decreases s.len(),
{
    if i < s.len() {
        lemma_points_prefix(s.drop_last(), i);
        assert(s.drop_last().take(i) =~= s.take(i));
    } else {
        assert(s.take(i) =~= s);
        if s.len() > 0 {
            lemma_points_prefix(s.drop_last(), s.len() - 1);
        }
    }
}

fn is_mantissa(s: &[char]) -> (r: bool)
    ensures
        r == mantissa(s@),
{
    let mut dots: usize = 0;
    let mut some_digit = false;
    let mut i: usize = 0;
    proof {
        assert(s@.take(0) =~= Seq::empty());
    }
    while i < s.len()
        invariant
            i <= s@.len(),
            dots <= 1,
            dots == points(s@.take(i as int)),
            forall|j: int| 0 <= j < i ==> digit(#[trigger] s@[j]) || s@[j] == '.',
            some_digit == exists|j: int| 0 <= j < i && digit(#[trigger] s@[j]),
        decreases s@.len() - i,
    {
        let c: char = s[i];
        proof {
            assert(s@.take(i + 1).drop_last() =~= s@.take(i as int));
            assert(s@.take(i + 1).last() == c);
            lemma_points_prefix(s@, i + 1);
        }
        if is_decimal_digit(c) {
            some_digit = true;
            assert(digit(s@[i as int]));
        } else if c == '.' {
            if dots == 1 {
                return false;
            }
            dots = dots + 1;
        } else {
            assert(!(digit(s@[i as int]) || s@[i as int] == '.'));
            return false;
        }
        i = i + 1;
    }
    proof {
        assert(s@.take(i as int) =~= s@);
    }
    some_digit
}

/// The characters after an optional sign.
fn after_sign(s: &[char]) -> (r: &[char])
    ensures
        r@ == unsigned(s@),
{
    if s.len() > 0 && (s[0] == '+' || s[0] == '-') {
        let r = vstd::slice::slice_subrange(s, 1, s.len());
        proof {
            assert(r@ =~= s@.skip(1));
        }
        r
    } else {
        s
    }
}

fn is_decimal_form(s: &[char]) -> (r: bool)
    ensures
        r == decimal_form(s@),
{
    if is_mantissa(s) {
        return true;
    }
    let mut k: usize = 0;
    while k < s.len()
        invariant
            k <= s@.len(),
            !mantissa(s@),
            forall|j: int| 0 <= j < k ==> !exponent_mark(#[trigger] s@[j]),
        decreases s@.len() - k,
    {
        if s[k] == 'e' || s[k] == 'E' {
            let head = vstd::slice::slice_subrange(s, 0, k);
            let tail = vstd::slice::slice_subrange(s, k + 1, s.len());
            let r = is_mantissa(head) && all_digits(after_sign(tail));
            proof {
                assert(head@ =~= s@.take(k as int));
                assert(tail@ =~= s@.skip(k + 1));
                assert(exponent_mark(s@[k as int]));
                assert forall|j: int|
                    0 <= j < s@.len() && exponent_mark(#[trigger] s@[j]) && mantissa(
                        s@.take(j),
                    ) implies j == k by {
                    if j > k {
                        assert(s@.take(j)[k as int] == s@[k as int]);
                    }
                }
            }
            return r;
        }
        k = k + 1;
    }
    false
}

fn is_numeral(s: &[char]) -> (r: bool)
    ensures
        r == numeral(s@),
{
    let u = after_sign(s);
    if is_decimal_form(u) {
        return true;
    }
    let mut small: Vec<char> = Vec::new();
    let mut i: usize = 0;
    while i < u.len()
        invariant
            i <= u@.len(),
            small@.len() == i,
            forall|j: int| 0 <= j < i ==> #[trigger] small@[j] == lower_text(u@)[j],
        decreases u@.len() - i,
    {
        small.push(lower(u[i]));
        i = i + 1;
    }
    proof {
        assert(small@ =~= lower_text(u@));
    }
    let text = string_of(small.as_slice());
    same_text(text.as_str(), "inf") || same_text(text.as_str(), "infinity") || same_text(
        text.as_str(),
        "nan",
    )
}

enum Lexeme {
    Str(String),
    Num(String),
    Ident(String),
}

impl View for Lexeme {
    type V = Token;

    closed spec fn view(&self) -> Token {
        match *self {
            Lexeme::Str(s) => Token::Str(s@),
            Lexeme::Num(s) => Token::Num(s@),
            Lexeme::Ident(s) => Token::Ident(s@),
        }
    }
}

spec fn tokens(v: Seq<Lexeme>) -> Seq<Token> {
    v.map_values(|l: Lexeme| l@)
}

/// Ends the word being collected.
fn flush_buf(buf: &[char], words: &mut Vec<Lexeme>)
    ensures
        tokens(final(words)@) == tokens(old(words)@) + flushed(buf@),
{
    let ghost before = words@;
    if buf.len() == 0 {
        proof {
            assert(tokens(before) + Seq::<Token>::empty() =~= tokens(before));
        }
        return;
    }
    let text = string_of(buf);
    if is_numeral(buf) {
        words.push(Lexeme::Num(text));
    } else {
        words.push(Lexeme::Ident(text));
    }
    proof {
        assert(tokens(words@) =~= tokens(before) + flushed(buf@));
    }
}

fn skip_line(s: &Vec<char>, from: usize) -> (r: usize)
    requires
        from <= s@.len(),
    ensures
        r == line_end(s@, from as int),
        from <= r <= s@.len(),
{
    let mut i: usize = from;
    while i < s.len() && s[i] != '\n'
        invariant
            from <= i <= s@.len(),
            line_end(s@, i as int) == line_end(s@, from as int),
        decreases s@.len() - i,
    {
        i = i + 1;
    }
    i
}

fn skip_comment(s: &Vec<char>, from: usize) -> (r: Option<usize>)
    requires
        0 < from <= s@.len(),
    ensures
        match r {
            Some(j) => comment_end(s@, from as int, 1) == Some(j as int) && from <= j <= s@.len(),
            None => comment_end(s@, from as int, 1) is None,
        },
{
    let mut i: usize = from;
    let mut depth: usize = 1;
    while depth > 0
        invariant
            0 < from <= i <= s@.len(),
            depth <= i - from + 1,
            comment_end(s@, i as int, depth as nat) == comment_end(s@, from as int, 1),
        decreases s@.len() - i, depth,
    {
        if i >= s.len() {
            return None;
        }
        if s[i] == '(' {
            depth = depth + 1;
        } else if s[i] == ')' {
            depth = depth - 1;
        }
        i = i + 1;
    }
    Some(i)
}

fn read_literal(s: &Vec<char>, from: usize) -> (r: Option<(String, usize)>)
    requires
        from <= s@.len(),
    ensures
        match r {
            Some(p) => literal_end(s@, from as int) == Some(p.1 as int) && p.0@ == literal_text(
                s@,
                from as int,
            ) && from < p.1 <= s@.len(),
            None => literal_end(s@, from as int) is None,
        },
{
    let mut i: usize = from;
    let mut out: Vec<char> = Vec::new();
    proof {
        assert(out@ + literal_text(s@, from as int) =~= literal_text(s@, from as int));
    }
    while i < s.len() && s[i] != '"'
        invariant
            from <= i <= s@.len(),
            literal_end(s@, i as int) == literal_end(s@, from as int),
            out@ + literal_text(s@, i as int) == literal_text(s@, from as int),
        decreases s@.len() - i,
    {
        let ghost before = out@;
        if s[i] == '\\' {
            if i + 1 >= s.len() {
                return None;
            }
            proof {
                assert(before.push(s@[i + 1]) + literal_text(s@, i + 2) =~= before + (
                seq![s@[i + 1]] + literal_text(s@, i + 2)));
            }
            out.push(s[i + 1]);
            i = i + 2;
        } else {
            proof {
                assert(before.push(s@[i as int]) + literal_text(s@, i + 1) =~= before + (
                seq![s@[i as int]] + literal_text(s@, i + 1)));
            }
            out.push(s[i]);
            i = i + 1;
        }
    }
    if i >= s.len() {
        return None;
    }
    proof {
        assert(out@ + Seq::<char>::empty() =~= out@);
    }
    Some((string_of(out.as_slice()), i + 1))
}

/// Parses a program.
pub fn parse(source: &str) -> (r: Result<Ast, ParseError>)
    ensures
        match r {
            Ok(ast) => program(source@) is Ok && are_items(ast.words@, program(source@)->Ok_0),
            Err(e) => program(source@) == Err::<Seq<Item>, ParseError>(e),
        },
{
    let s = chars_of(source);
    let ghost whole = lexed(s@, 0, Seq::empty());
    let mut words: Vec<Lexeme> = Vec::new();
    let mut buf: Vec<char> = Vec::new();
    let mut i: usize = 0;
    proof {
        assert(tokens(words@) =~= Seq::empty());
        lemma_preceded_nothing(whole);
    }
    while i < s.len()
        invariant
            i <= s@.len(),
            s@ == source@,
            whole == lexed(s@, 0, Seq::empty()),
            preceded(tokens(words@), lexed(s@, i as int, buf@)) == whole,
        decreases s@.len() - i,
    {
        let c: char = s[i];
        let ghost before = tokens(words@);
        let ghost held = flushed(buf@);
        if space(c) {
            flush_buf(buf.as_slice(), &mut words);
            buf = Vec::new();
            i = i + 1;
            proof {
                lemma_preceded(before, held, lexed(s@, i as int, Seq::empty()));
                assert(buf@ =~= Seq::empty());
            }
        } else if c == '\\' {
            flush_buf(buf.as_slice(), &mut words);
            buf = Vec::new();
            i = skip_line(&s, i + 1);
            proof {
                lemma_preceded(before, held, lexed(s@, i as int, Seq::empty()));
                assert(buf@ =~= Seq::empty());
            }
        } else if c == '(' {
            flush_buf(buf.as_slice(), &mut words);
            buf = Vec::new();
            match skip_comment(&s, i + 1) {
                Some(j) => {
                    i = j;
                    proof {
                        lemma_preceded(before, held, lexed(s@, i as int, Seq::empty()));
                        assert(buf@ =~= Seq::empty());
                    }
                },
                None => {
                    return Err(ParseError::UnterminatedComment);
                },
            }
        } else if c == '"' {
            flush_buf(buf.as_slice(), &mut words);
            buf = Vec::new();
            match read_literal(&s, i + 1) {
                Some(p) => {
                    let (text, j) = p;
                    let ghost t = Token::Str(text@);
                    let ghost mid = words@;
                    words.push(Lexeme::Str(text));
                    i = j;
                    proof {
                        assert(tokens(words@) =~= tokens(mid).push(t));
                        assert(before + held.push(t) =~= (before + held).push(t));
                        lemma_preceded(before, held.push(t), lexed(s@, i as int, Seq::empty()));
                        assert(buf@ =~= Seq::empty());
                    }
                },
                None => {
                    return Err(ParseError::UnterminatedString);
                },
            }
        } else {
            buf.push(c);
            i = i + 1;
        }
    }
    let ghost before = tokens(words@);
    flush_buf(buf.as_slice(), &mut words);
    proof {
        assert(whole == Ok::<Seq<Token>, ParseError>(tokens(words@)));
    }
    Ok(group_colon_defs(&words))
}

proof fn lemma_preceded(a: Seq<Token>, b: Seq<Token>, r: Result<Seq<Token>, ParseError>)
    ensures
        preceded(a, preceded(b, r)) == preceded(a + b, r),
{
    if let Ok(t) = r {
        assert(a + (b + t) =~= (a + b) + t);
    }
}

proof fn lemma_preceded_nothing(r: Result<Seq<Token>, ParseError>)
    ensures
        preceded(Seq::empty(), r) == r,
{
    if let Ok(t) = r {
        assert(Seq::<Token>::empty() + t =~= t);
    }
}

fn word_of(l: &Lexeme) -> (r: Word)
    ensures
        is_token(r, l@),
{
    match l {
        Lexeme::Str(s) => Word::Str(s.clone()),
        Lexeme::Num(s) => Word::Num(s.clone()),
        Lexeme::Ident(s) => Word::Ident(s.clone()),
    }
}

fn names(l: &Lexeme, name: &str) -> (r: bool)
    ensures
        r == (l@ == Token::Ident(name@)),
{
    match l {
        Lexeme::Ident(s) => same_text(s.as_str(), name),
        _ => false,
    }
}

fn find_semicolon(words: &Vec<Lexeme>, from: usize) -> (r: Option<usize>)
    requires
        from <= words@.len(),
    ensures
        match r {
            Some(j) => semicolon(tokens(words@), from as int) == Some(j as int) && from <= j
                < words@.len(),
            None => semicolon(tokens(words@), from as int) is None,
        },
{
    let ghost t = tokens(words@);
    let mut i: usize = from;
    while i < words.len()
        invariant
            from <= i <= words@.len(),
            t == tokens(words@),
            semicolon(t, i as int) == semicolon(t, from as int),
        decreases words@.len() - i,
    {
        if names(&words[i], ";") {
            assert(t[i as int] == words@[i as int]@);
            return Some(i);
        }
        assert(t[i as int] == words@[i as int]@);
        i = i + 1;
    }
    None
}

/// Groups definitions.
fn group_colon_defs(words: &Vec<Lexeme>) -> (r: Ast)
    ensures
        are_items(r.words@, grouped(tokens(words@), 0)),
{
    let ghost t = tokens(words@);
    let ghost whole = grouped(t, 0);
    let ghost mut done: Seq<Item> = Seq::empty();
    let mut out: Vec<Word> = Vec::new();
    let n: usize = words.len();
    let mut i: usize = 0;
    proof {
        assert(done + grouped(t, 0) =~= whole);
    }
    while i < n
        invariant
            n == words@.len(),
            i <= n,
            t == tokens(words@),
            t.len() == n,
            whole == grouped(t, 0),
            done + grouped(t, i as int) == whole,
            are_items(out@, done),
        decreases n - i,
    {
        proof {
            assert(t[i as int] == words@[i as int]@);
        }
        let mut end: Option<usize> = None;
        let mut name: Option<String> = None;
        if n - i > 2 && names(&words[i], ":") {
            proof {
                assert(t[i + 1] == words@[i + 1]@);
            }
            match &words[i + 1] {
                Lexeme::Ident(s) => {
                    end = find_semicolon(words, i + 2);
                    name = Some(s.clone());
                },
                _ => {},
            }
        }
        match (end, name) {
            (Some(j), Some(name)) => {
                let mut body: Vec<Word> = Vec::new();
                let mut k: usize = i + 2;
                let ghost want = t.subrange(i + 2, j as int);
                while k < j
                    invariant
                        i + 2 <= k <= j,
                        j < words@.len(),
                        t == tokens(words@),
                        want == t.subrange(i + 2, j as int),
                        body@.len() == k - (i + 2),
                        forall|m: int|
                            0 <= m < body@.len() ==> is_token(#[trigger] body@[m], want[m]),
                    decreases j - k,
                {
                    proof {
                        assert(want[k - (i + 2)] == words@[k as int]@);
                    }
                    body.push(word_of(&words[k]));
                    k = k + 1;
                }
                let ghost it = Item::Def { name: name@, body: want };
                let ghost before = out@;
                out.push(Word::ColonDef { name, body });
                proof {
                    assert(defines(t, i as int));
                    let rest = grouped(t, j + 1);
                    assert(done + (seq![it] + rest) =~= done.push(it) + rest);
                    let next = done.push(it);
                    assert forall|m: int| 0 <= m < out@.len() implies is_item(
                        #[trigger] out@[m],
                        next[m],
                    ) by {
                        if m < before.len() {
                            assert(out@[m] == before[m]);
                        }
                    }
                    done = next;
                }
                i = j + 1;
            },
            _ => {
                let ghost it = Item::Plain(t[i as int]);
                let ghost before = out@;
                out.push(word_of(&words[i]));
                proof {
                    let rest = grouped(t, i + 1);
                    assert(done + (seq![it] + rest) =~= done.push(it) + rest);
                    let next = done.push(it);
                    assert forall|m: int| 0 <= m < out@.len() implies is_item(
                        #[trigger] out@[m],
                        next[m],
                    ) by {
                        if m < before.len() {
                            assert(out@[m] == before[m]);
                        }
                    }
                    done = next;
                }
                i = i + 1;
            },
        }
    }
    proof {
        assert(done + Seq::<Item>::empty() =~= done);
    }
    Ast { words: out }
}

/// The text of a word.
pub open spec fn word_text(w: Word) -> Seq<char>
    decreases w,
{
    match w {
        Word::Str(s) => "\""@ + s@ + "\""@,
        Word::Num(s) => s@,
        Word::Ident(s) => s@,
        Word::Sequence(v) => {
            proof {
                assert(decreases_to!(v => v@));
            }
            "( "@ + words_text(v@) + ")"@
        },
        Word::ColonDef { name, body } => {
            proof {
                assert(decreases_to!(body => body@));
            }
            ": "@ + name@ + " "@ + words_text(body@) + ";"@
        },
    }
}

/// The text of words, each followed by a space.
pub open spec fn words_text(v: Seq<Word>) -> Seq<char>
    decreases v,
{
    if v.len() == 0 {
        Seq::empty()
    } else {
        words_text(v.subrange(0, v.len() - 1)) + word_text(v[v.len() - 1]) + " "@
    }
}

fn word_string(w: &Word) -> (r: String)
    ensures
        r@ == word_text(*w),
    decreases w,
{
    match w {
        Word::Str(s) => {
            let mut r = "\"".to_owned();
            r.append(s.as_str());
            r.append("\"");
            r
        },
        Word::Num(s) => s.clone(),
        Word::Ident(s) => s.clone(),
        Word::Sequence(v) => {
            let mut r = "( ".to_owned();
            r.append(words_string(v).as_str());
            r.append(")");
            r
        },
        Word::ColonDef { name, body } => {
            let mut r = ": ".to_owned();
            r.append(name.as_str());
            r.append(" ");
            r.append(words_string(body).as_str());
            r.append(";");
            r
        },
    }
}

fn words_string(v: &Vec<Word>) -> (r: String)
    ensures
        r@ == words_text(v@),
    decreases v,
{
    let mut r = String::new();
    let mut i: usize = 0;
    while i < v.len()
        invariant
            i <= v@.len(),
            r@ == words_text(v@.subrange(0, i as int)),
        decreases v@.len() - i,
    {
        proof {
            assert(v@.subrange(0, i + 1).subrange(0, i as int) =~= v@.subrange(0, i as int));
            assert(decreases_to!(v => v@));
            assert(decreases_to!(v@ => v@[i as int]));
        }
        r.append(word_string(&v[i]).as_str());
        r.append(" ");
        i = i + 1;
    }
    proof {
        assert(v@.subrange(0, i as int) =~= v@);
    }
    r
}

impl Word {
    /// The text of the word.
    pub fn to_string(&self) -> (r: String)
        ensures
            r@ == word_text(*self),
    {
        word_string(self)
    }
}

impl Ast {
    /// The text of the program.
    pub fn to_string(&self) -> (r: String)
        ensures
            r@ == words_text(self.words@),
    {
        words_string(&self.words)
    }
}

/// A character that a word can hold.
pub open spec fn plain_char(c: char) -> bool {
    !is_space(c) && c != '\\' && c != '(' && c != '"'
}

/// A single word as the source spells it.
pub open spec fn spelled(t: Token) -> bool {
    match t {
        Token::Str(_) => true,
        Token::Num(s) => s.len() > 0 && numeral(s) && forall|i: int|
            0 <= i < s.len() ==> plain_char(#[trigger] s[i]),
        Token::Ident(s) => s.len() > 0 && !numeral(s) && forall|i: int|
            0 <= i < s.len() ==> plain_char(#[trigger] s[i]),
    }
}

/// A text without quotes and backslashes.
pub open spec fn needs_no_escapes(s: Seq<char>) -> bool {
    forall|i: int| 0 <= i < s.len() ==> literal_char(#[trigger] s[i])
}

/// A character that stands for itself in a string literal.
pub open spec fn literal_char(c: char) -> bool {
    c != '"' && c != '\\'
}

/// Not a string literal that needs escapes.
pub open spec fn unescaped(t: Token) -> bool {
    t matches Token::Str(s) ==> needs_no_escapes(s)
}

/// The text of a single word.
pub open spec fn token_text(t: Token) -> Seq<char> {
    match t {
        Token::Str(s) => "\""@ + s + "\""@,
        Token::Num(s) => s,
        Token::Ident(s) => s,
    }
}

spec fn printed(t: Seq<Token>) -> Seq<char>
    decreases t.len(),
{
    if t.len() == 0 {
        Seq::empty()
    } else {
        printed(t.drop_last()) + token_text(t.last()) + " "@
    }
}

proof fn lemma_printed_concat(a: Seq<Token>, b: Seq<Token>)
    ensures
        printed(a + b) == printed(a) + printed(b),
    decreases b.len(),
{
    if b.len() == 0 {
        assert(a + b =~= a);
        assert(printed(a) + printed(b) =~= printed(a));
    } else {
        lemma_printed_concat(a, b.drop_last());
        assert((a + b).drop_last() =~= a + b.drop_last());
        assert((a + b).last() == b.last());
        assert(printed(a + b) =~= printed(a) + printed(b));
    }
}

proof fn lemma_printed_one(t: Token)
    ensures
        printed(seq![t]) == token_text(t) + " "@,
{
    assert(seq![t].drop_last() =~= Seq::empty());
    assert(printed(seq![t].drop_last()) =~= Seq::empty());
    assert(seq![t].last() == t);
    assert(printed(seq![t]) =~= token_text(t) + " "@);
}

proof fn lemma_words_concat(a: Seq<Word>, b: Seq<Word>)
    ensures
        words_text(a + b) == words_text(a) + words_text(b),
    decreases b.len(),
{
    if b.len() == 0 {
        assert(a + b =~= a);
        assert(words_text(a) + words_text(b) =~= words_text(a));
    } else {
        let s = a + b;
        let last = b.subrange(0, b.len() - 1);
        lemma_words_concat(a, last);
        assert(s.subrange(0, s.len() - 1) =~= a + last);
        assert(s[s.len() - 1] == b[b.len() - 1]);
        assert(words_text(s) =~= words_text(a) + words_text(b));
    }
}

proof fn lemma_words_one(w: Word)
    ensures
        words_text(seq![w]) == word_text(w) + " "@,
{
    let s = seq![w];
    assert(s.subrange(0, 0) =~= Seq::empty());
    assert(words_text(s.subrange(0, 0)) =~= Seq::empty());
    assert(words_text(s) =~= word_text(w) + " "@);
}

proof fn lemma_tokens_text(w: Seq<Word>, t: Seq<Token>)
    requires
        are_tokens(w, t),
    ensures
        words_text(w) == printed(t),
    decreases w.len(),
{
    if w.len() > 0 {
        let a = w.subrange(0, w.len() - 1);
        assert forall|i: int| 0 <= i < a.len() implies is_token(#[trigger] a[i], t.drop_last()[i]) by {
            assert(is_token(w[i], t[i]));
        }
        lemma_tokens_text(a, t.drop_last());
        assert(is_token(w[w.len() - 1], t[t.len() - 1]));
        assert(word_text(w[w.len() - 1]) == token_text(t.last()));
    }
}

proof fn lemma_def_text(name: Seq<char>, w: Seq<Word>, body: Seq<Token>)
    requires
        are_tokens(w, body),
    ensures
        ": "@ + name + " "@ + words_text(w) + ";"@ + " "@ == printed(
            seq![Token::Ident(":"@), Token::Ident(name)] + body + seq![Token::Ident(";"@)],
        ),
{
    let colon = Token::Ident(":"@);
    let named = Token::Ident(name);
    let semi = Token::Ident(";"@);
    lemma_tokens_text(w, body);
    lemma_printed_concat(seq![colon, named] + body, seq![semi]);
    lemma_printed_concat(seq![colon, named], body);
    lemma_printed_concat(seq![colon], seq![named]);
    assert(seq![colon] + seq![named] =~= seq![colon, named]);
    lemma_printed_one(colon);
    lemma_printed_one(named);
    lemma_printed_one(semi);
    reveal_strlit(": ");
    reveal_strlit(":");
    reveal_strlit(" ");
    reveal_strlit(";");
    assert(": "@ =~= ":"@ + " "@);
    assert(": "@ + name + " "@ + words_text(w) + ";"@ + " "@ =~= (":"@ + " "@) + (name + " "@)
        + printed(body) + (";"@ + " "@));
}

proof fn lemma_items_text(w: Seq<Word>, t: Seq<Token>, i: int)
    requires
        0 <= i <= t.len(),
        are_items(w, grouped(t, i)),
    ensures
        words_text(w) == printed(t.skip(i)),
    decreases t.len() - i,
{
    let items = grouped(t, i);
    if i == t.len() {
        assert(t.skip(i) =~= Seq::empty());
        assert(w =~= Seq::empty());
        return ;
    }
    let rest = w.skip(1);
    assert(w =~= seq![w[0]] + rest);
    lemma_words_concat(seq![w[0]], rest);
    lemma_words_one(w[0]);
    assert(is_item(w[0], items[0]));
    if defines(t, i) {
        lemma_semicolon(t, i + 2);
        let j = semicolon(t, i + 2)->0;
        let next = grouped(t, j + 1);
        let it = Item::Def { name: t[i + 1]->Ident_0, body: t.subrange(i + 2, j) };
        assert(items == seq![it] + next);
        assert forall|k: int| 0 <= k < rest.len() implies is_item(#[trigger] rest[k], next[k]) by {
            assert(is_item(w[k + 1], items[k + 1]));
        }
        lemma_items_text(rest, t, j + 1);
        let name = t[i + 1]->Ident_0;
        let body = t.subrange(i + 2, j);
        lemma_def_text(name, w[0]->body@, body);
        let head = seq![Token::Ident(":"@), Token::Ident(name)] + body + seq![Token::Ident(";"@)];
        lemma_printed_concat(head, t.skip(j + 1));
        assert(t.skip(i) =~= head + t.skip(j + 1));
    } else {
        let next = grouped(t, i + 1);
        assert(items == seq![Item::Plain(t[i])] + next);
        assert forall|k: int| 0 <= k < rest.len() implies is_item(#[trigger] rest[k], next[k]) by {
            assert(is_item(w[k + 1], items[k + 1]));
        }
        lemma_items_text(rest, t, i + 1);
        lemma_printed_concat(seq![t[i]], t.skip(i + 1));
        lemma_printed_one(t[i]);
        assert(t.skip(i) =~= seq![t[i]] + t.skip(i + 1));
        assert(is_token(w[0], t[i]));
        assert(word_text(w[0]) == token_text(t[i]));
    }
}

proof fn lemma_run(s: Seq<char>, i: int, buf: Seq<char>, run: Seq<char>)
    requires
        0 <= i,
        i + run.len() <= s.len(),
        s.subrange(i, i + run.len()) == run,
        forall|k: int| 0 <= k < run.len() ==> plain_char(#[trigger] run[k]),
    ensures
        lexed(s, i, buf) == lexed(s, i + run.len(), buf + run),
    decreases run.len(),
{
    if run.len() == 0 {
        assert(buf + run =~= buf);
    } else {
        let rest = run.skip(1);
        assert(s[i] == s.subrange(i, i + run.len())[0]);
        assert(plain_char(run[0]));
        assert(s.subrange(i + 1, i + 1 + rest.len()) =~= rest) by {
            assert forall|k: int| 0 <= k < rest.len() implies s.subrange(i + 1, i + 1 + rest.len())[k]
                == rest[k] by {
                assert(s[i + 1 + k] == s.subrange(i, i + run.len())[k + 1]);
            }
        }
        lemma_run(s, i + 1, buf.push(s[i]), rest);
        assert(buf.push(s[i]) + rest =~= buf + run);
    }
}

proof fn lemma_literal_run(s: Seq<char>, i: int, run: Seq<char>)
    requires
        0 <= i,
        i + run.len() < s.len(),
        s.subrange(i, i + run.len()) == run,
        s[i + run.len()] == '"',
        needs_no_escapes(run),
    ensures
        literal_end(s, i) == Some(i + run.len() + 1),
        literal_text(s, i) == run,
    decreases run.len(),
{
    if run.len() == 0 {
        assert(literal_text(s, i) =~= run);
    } else {
        let rest = run.skip(1);
        assert(s[i] == s.subrange(i, i + run.len())[0]);
        assert(literal_char(run[0]));
        assert(s.subrange(i + 1, i + 1 + rest.len()) =~= rest) by {
            assert forall|k: int| 0 <= k < rest.len() implies s.subrange(i + 1, i + 1 + rest.len())[k]
                == rest[k] by {
                assert(s[i + 1 + k] == s.subrange(i, i + run.len())[k + 1]);
            }
        }
        lemma_literal_run(s, i + 1, rest);
        assert(seq![s[i]] + rest =~= run);
    }
}

/// Reading printed words gives the words back.
proof fn lemma_lexed_printed(s: Seq<char>, i: int, t: Seq<Token>)
    requires
        0 <= i <= s.len(),
        s.skip(i) == printed(t),
        forall|k: int| 0 <= k < t.len() ==> spelled(#[trigger] t[k]) && unescaped(t[k]),
    ensures
        lexed(s, i, Seq::empty()) == Ok::<Seq<Token>, ParseError>(t),
    decreases t.len(),
{
    if t.len() == 0 {
        assert(s.skip(i).len() == 0);
        assert(flushed(Seq::empty()) =~= t);
        return ;
    }
    let head = t[0];
    let rest = t.skip(1);
    assert(t =~= seq![head] + rest);
    lemma_printed_concat(seq![head], rest);
    lemma_printed_one(head);
    let text = token_text(head);
    reveal_strlit(" ");
    let all = s.skip(i);
    assert(all == text + " "@ + printed(rest));
    let n = text.len() as int;
    assert(s.subrange(i, i + n) =~= text) by {
        assert forall|k: int| 0 <= k < n implies s.subrange(i, i + n)[k] == text[k] by {
            assert(all[k] == text[k]);
        }
    }
    assert(s[i + n] == ' ') by {
        assert(all[n] == ' ');
    }
    assert(is_space(' '));
    assert(s.skip(i + n + 1) =~= printed(rest)) by {
        assert forall|k: int| 0 <= k < printed(rest).len() implies s.skip(i + n + 1)[k] == printed(
            rest,
        )[k] by {
            assert(all[n + 1 + k] == printed(rest)[k]);
        }
    }
    assert forall|k: int| 0 <= k < rest.len() implies spelled(#[trigger] rest[k]) && unescaped(
        rest[k],
    ) by {
        assert(spelled(t[k + 1]));
    }
    lemma_lexed_printed(s, i + n + 1, rest);
    assert(spelled(t[0]) && unescaped(t[0]));
    let none = Seq::<char>::empty();
    match head {
        Token::Str(l) => {
            reveal_strlit("\"");
            assert(n == l.len() + 2);
            assert(s[i] == '"') by {
                assert(all[0] == text[0]);
            }
            assert(!is_space('"'));
            assert(s.subrange(i + 1, i + 1 + l.len()) =~= l) by {
                assert forall|k: int| 0 <= k < l.len() implies s.subrange(i + 1, i + 1 + l.len())[k]
                    == l[k] by {
                    assert(all[k + 1] == text[k + 1]);
                }
            }
            assert(s[i + 1 + l.len()] == '"') by {
                assert(all[1 + l.len() as int] == text[1 + l.len() as int]);
            }
            lemma_literal_run(s, i + 1, l);
            assert(lexed(s, i + n, none) == preceded(flushed(none), lexed(s, i + n + 1, none)));
            assert(flushed(none) =~= Seq::empty());
            lemma_preceded_nothing(lexed(s, i + n + 1, none));
            assert(flushed(none).push(head) =~= seq![head]);
        },
        _ => {
            lemma_run(s, i, none, text);
            assert(none + text =~= text);
            assert(flushed(text) == seq![head]);
        },
    }
}

/// What is read is spelled as words are.
proof fn lemma_lexed_spelled(s: Seq<char>, i: int, buf: Seq<char>)
    requires
        0 <= i <= s.len(),
        forall|k: int| 0 <= k < buf.len() ==> plain_char(#[trigger] buf[k]),
    ensures
        lexed(s, i, buf) matches Ok(t) ==> forall|k: int|
            0 <= k < t.len() ==> spelled(#[trigger] t[k]),
    decreases s.len() - i,
{
    let none = Seq::<char>::empty();
    assert forall|k: int| 0 <= k < flushed(buf).len() implies spelled(#[trigger] flushed(buf)[k]) by {}
    if i < s.len() {
        if is_space(s[i]) {
            lemma_lexed_spelled(s, i + 1, none);
        } else if s[i] == '\\' {
            lemma_line_end(s, i + 1);
            lemma_lexed_spelled(s, line_end(s, i + 1), none);
        } else if s[i] == '(' {
            lemma_comment_end(s, i + 1, 1);
            if let Some(j) = comment_end(s, i + 1, 1) {
                lemma_lexed_spelled(s, j, none);
            }
        } else if s[i] == '"' {
            lemma_literal_end(s, i + 1);
            if let Some(j) = literal_end(s, i + 1) {
                lemma_lexed_spelled(s, j, none);
            }
        } else {
            lemma_lexed_spelled(s, i + 1, buf.push(s[i]));
        }
    }
}

/// Printing a parsed program and parsing the text gives the program again,
/// where no string literal holds a quote or a backslash.
pub proof fn printed_programs_parse_back(source: Seq<char>, words: Seq<Word>)
    requires
        program(source) is Ok,
        are_items(words, program(source)->Ok_0),
        forall|k: int|
            0 <= k < lexed(source, 0, Seq::empty())->Ok_0.len() ==> unescaped(
                #[trigger] lexed(source, 0, Seq::empty())->Ok_0[k],
            ),
    ensures
        program(words_text(words)) == program(source),
{
    let t = lexed(source, 0, Seq::empty())->Ok_0;
    lemma_lexed_spelled(source, 0, Seq::empty());
    lemma_items_text(words, t, 0);
    assert(t.skip(0) =~= t);
    let text = words_text(words);
    assert(text.skip(0) =~= text);
    lemma_lexed_printed(text, 0, t);
}

/// Grouping definitions keeps the words: without colons there are none, and
/// the words stay as they are.
pub proof fn words_without_colons_stay(t: Seq<Token>)
    requires
        forall|k: int| 0 <= k < t.len() ==> #[trigger] t[k] != Token::Ident(":"@),
    ensures
        grouped(t, 0) == t.map_values(|x: Token| Item::Plain(x)),
{
    lemma_no_colons(t, 0);
    assert(t.skip(0) =~= t);
}

proof fn lemma_no_colons(t: Seq<Token>, i: int)
    requires
        0 <= i <= t.len(),
        forall|k: int| 0 <= k < t.len() ==> #[trigger] t[k] != Token::Ident(":"@),
    ensures
        grouped(t, i) == t.skip(i).map_values(|x: Token| Item::Plain(x)),
    decreases t.len() - i,
{
    let f = |x: Token| Item::Plain(x);
    if i < t.len() {
        lemma_no_colons(t, i + 1);
        assert(t[i] != Token::Ident(":"@));
        assert(t.skip(i).map_values(f) =~= seq![Item::Plain(t[i])] + t.skip(i + 1).map_values(f));
    } else {
        assert(t.skip(i).map_values(f) =~= Seq::empty());
    }
}

/// The words that an item was read from.
pub open spec fn spread_item(it: Item) -> Seq<Token> {
    match it {
        Item::Plain(t) => seq![t],
        Item::Def { name, body } => seq![Token::Ident(":"@), Token::Ident(name)] + body
            + seq![Token::Ident(";"@)],
    }
}

/// The words that items were read from, one item after the other.
pub open spec fn spread(items: Seq<Item>) -> Seq<Token>
    decreases items.len(),
{
    if items.len() == 0 {
        Seq::empty()
    } else {
        spread_item(items[0]) + spread(items.skip(1))
    }
}

proof fn lemma_grouped_spread(t: Seq<Token>, i: int)
    requires
        0 <= i <= t.len(),
    ensures
        spread(grouped(t, i)) == t.skip(i),
    decreases t.len() - i,
{
    let g = grouped(t, i);
    if i < t.len() {
        if defines(t, i) {
            lemma_semicolon(t, i + 2);
            let j = semicolon(t, i + 2)->0;
            lemma_grouped_spread(t, j + 1);
            assert(g.skip(1) =~= grouped(t, j + 1));
            assert(spread_item(g[0]) + t.skip(j + 1) =~= t.skip(i));
        } else {
            lemma_grouped_spread(t, i + 1);
            assert(g.skip(1) =~= grouped(t, i + 1));
            assert(spread_item(g[0]) + t.skip(i + 1) =~= t.skip(i));
        }
    } else {
        assert(t.skip(i) =~= Seq::empty());
    }
}

/// Nothing stands between a position and the first semicolon from it on but
/// other words, and where there is none, no word is one.
proof fn lemma_first_semicolon(t: Seq<Token>, i: int, m: int)
    requires
        0 <= i <= m < t.len(),
        semicolon(t, i) matches Some(j) ==> m < j,
    ensures
        t[m] != Token::Ident(";"@),
    decreases t.len() - i,
{
    if t[i] != Token::Ident(";"@) && i < m {
        lemma_first_semicolon(t, i + 1, m);
    }
}

proof fn lemma_grouped_bodies(t: Seq<Token>, i: int)
    requires
        0 <= i <= t.len(),
    ensures
        forall|k: int, m: int|
            #![trigger grouped(t, i)[k]->body[m]]
            0 <= k < grouped(t, i).len() && grouped(t, i)[k] is Def && 0 <= m < grouped(
                t,
                i,
            )[k]->body.len() ==> grouped(t, i)[k]->body[m] != Token::Ident(";"@),
    decreases t.len() - i,
{
    let g = grouped(t, i);
    if i < t.len() {
        let next = if defines(t, i) {
            semicolon(t, i + 2)->0 + 1
        } else {
            i + 1
        };
        if defines(t, i) {
            lemma_semicolon(t, i + 2);
        }
        lemma_grouped_bodies(t, next);
        let rest = grouped(t, next);
        assert forall|k: int, m: int|
            #![trigger g[k]->body[m]]
            0 <= k < g.len() && g[k] is Def && 0 <= m < g[k]->body.len() implies g[k]->body[m]
            != Token::Ident(";"@) by {
            if k > 0 {
                assert(g[k] == rest[k - 1]);
                assert(rest[k - 1]->body[m] != Token::Ident(";"@));
            } else {
                assert(g[0]->body[m] == t[i + 2 + m]);
                lemma_first_semicolon(t, i + 2, i + 2 + m);
            }
        }
    }
}

/// Grouping keeps every word in its place: the words of the items, a definition
/// read as its colon, name, body and semicolon, are the words of the source.
pub proof fn grouping_keeps_every_word(t: Seq<Token>)
    ensures
        spread(grouped(t, 0)) == t,
{
    lemma_grouped_spread(t, 0);
    assert(t.skip(0) =~= t);
}

/// A definition ends at the first semicolon after its name: no body of a
/// program's definitions holds one.
pub proof fn definitions_end_at_the_first_semicolon(s: Seq<char>, k: int, m: int)
    requires
        program(s) is Ok,
        0 <= k < program(s)->Ok_0.len(),
        program(s)->Ok_0[k] is Def,
        0 <= m < program(s)->Ok_0[k]->body.len(),
    ensures
        program(s)->Ok_0[k]->body[m] != Token::Ident(";"@),
{
    let t = lexed(s, 0, Seq::empty())->Ok_0;
    lemma_grouped_bodies(t, 0);
    assert(grouped(t, 0)[k]->body[m] != Token::Ident(";"@));
}

proof fn lemma_grouped_colons(t: Seq<Token>, i: int, k: int, m: int)
    requires
        0 <= i <= t.len(),
        0 <= k < grouped(t, i).len(),
        grouped(t, i)[k] == Item::Plain(Token::Ident(":"@)),
        2 <= m < spread(grouped(t, i).skip(k)).len(),
        spread(grouped(t, i).skip(k))[1] is Ident,
    ensures
        spread(grouped(t, i).skip(k))[m] != Token::Ident(";"@),
    decreases t.len() - i,
{
    let g = grouped(t, i);
    let next = if defines(t, i) {
        semicolon(t, i + 2)->0 + 1
    } else {
        i + 1
    };
    if defines(t, i) {
        lemma_semicolon(t, i + 2);
    }
    let rest = grouped(t, next);
    if k > 0 {
        assert(g.skip(k) =~= rest.skip(k - 1));
        assert(g[k] == rest[k - 1]);
        lemma_grouped_colons(t, next, k - 1, m);
    } else {
        assert(g.skip(0) =~= g);
        lemma_grouped_spread(t, i);
        assert(t.skip(i)[1] == t[i + 1]);
        assert(t.skip(i)[m] == t[i + m]);
        if semicolon(t, i + 2) is None {
            lemma_first_semicolon(t, i + 2, i + m);
        }
    }
}

/// Every definition is found: a colon that stays a word of its own, though a
/// name follows it, has no semicolon after that name.
pub proof fn stray_colons_have_no_semicolon(t: Seq<Token>, k: int, m: int)
    requires
        0 <= k < grouped(t, 0).len(),
        grouped(t, 0)[k] == Item::Plain(Token::Ident(":"@)),
        2 <= m < spread(grouped(t, 0).skip(k)).len(),
        spread(grouped(t, 0).skip(k))[1] is Ident,
    ensures
        spread(grouped(t, 0).skip(k))[m] != Token::Ident(";"@),
{
    lemma_grouped_colons(t, 0, k, m);
}

proof fn lemma_line_shift(a: Seq<char>, b: Seq<char>, k: int)
    requires
        0 <= k <= b.len(),
    ensures
        line_end(a + b, a.len() + k) == a.len() + line_end(b, k),
    decreases b.len() - k,
{
    if k < b.len() && b[k] != '\n' {
        lemma_line_shift(a, b, k + 1);
    }
}

proof fn lemma_comment_shift(a: Seq<char>, b: Seq<char>, k: int, depth: nat)
    requires
        0 <= k <= b.len(),
    ensures
        comment_end(a + b, a.len() + k, depth) == match comment_end(b, k, depth) {
            Some(j) => Some(a.len() + j),
            None => None::<int>,
        },
    decreases b.len() - k,
{
    if depth > 0 && k < b.len() {
        lemma_comment_shift(a, b, k + 1, depth + 1);
        lemma_comment_shift(a, b, k + 1, (depth - 1) as nat);
        lemma_comment_shift(a, b, k + 1, depth);
    }
}

proof fn lemma_literal_shift(a: Seq<char>, b: Seq<char>, k: int)
    requires
        0 <= k <= b.len(),
    ensures
        literal_end(a + b, a.len() + k) == match literal_end(b, k) {
            Some(j) => Some(a.len() + j),
            None => None::<int>,
        },
        literal_text(a + b, a.len() + k) == literal_text(b, k),
    decreases b.len() - k,
{
    if k < b.len() && b[k] != '"' {
        if b[k] == '\\' {
            if k + 1 < b.len() {
                lemma_literal_shift(a, b, k + 2);
            }
        } else {
            lemma_literal_shift(a, b, k + 1);
        }
    }
}

/// What stands before a position does not matter to the words from it on.
proof fn lemma_lexed_shift(a: Seq<char>, b: Seq<char>, k: int, buf: Seq<char>)
    requires
        0 <= k <= b.len(),
    ensures
        lexed(a + b, a.len() + k, buf) == lexed(b, k, buf),
    decreases b.len() - k,
{
    if k < b.len() {
        if is_space(b[k]) {
            lemma_lexed_shift(a, b, k + 1, Seq::empty());
        } else if b[k] == '\\' {
            lemma_line_shift(a, b, k + 1);
            lemma_line_end(b, k + 1);
            lemma_lexed_shift(a, b, line_end(b, k + 1), Seq::empty());
        } else if b[k] == '(' {
            lemma_comment_shift(a, b, k + 1, 1);
            lemma_comment_end(b, k + 1, 1);
            if let Some(j) = comment_end(b, k + 1, 1) {
                lemma_lexed_shift(a, b, j, Seq::empty());
            }
        } else if b[k] == '"' {
            lemma_literal_shift(a, b, k + 1);
            lemma_literal_end(b, k + 1);
            if let Some(j) = literal_end(b, k + 1) {
                lemma_lexed_shift(a, b, j, Seq::empty());
            }
        } else {
            lemma_lexed_shift(a, b, k + 1, buf.push(b[k]));
        }
    }
}

proof fn lemma_line_prefix(a: Seq<char>, b: Seq<char>, i: int)
    requires
        0 <= i <= a.len(),
        b.len() > 0,
        b[0] == '\n',
    ensures
        line_end(a + b, i) == line_end(a, i),
    decreases a.len() - i,
{
    if i < a.len() && a[i] != '\n' {
        lemma_line_prefix(a, b, i + 1);
    }
}

proof fn lemma_comment_prefix(a: Seq<char>, b: Seq<char>, i: int, depth: nat)
    requires
        0 <= i <= a.len(),
        comment_end(a, i, depth) is Some,
    ensures
        comment_end(a + b, i, depth) == comment_end(a, i, depth),
    decreases a.len() - i,
{
    if depth > 0 && i < a.len() {
        if a[i] == '(' {
            lemma_comment_prefix(a, b, i + 1, depth + 1);
        } else if a[i] == ')' {
            lemma_comment_prefix(a, b, i + 1, (depth - 1) as nat);
        } else {
            lemma_comment_prefix(a, b, i + 1, depth);
        }
    }
}

proof fn lemma_literal_prefix(a: Seq<char>, b: Seq<char>, i: int)
    requires
        0 <= i <= a.len(),
        literal_end(a, i) is Some,
    ensures
        literal_end(a + b, i) == literal_end(a, i),
        literal_text(a + b, i) == literal_text(a, i),
    decreases a.len() - i,
{
    if i < a.len() && a[i] != '"' {
        if a[i] == '\\' {
            lemma_literal_prefix(a, b, i + 2);
        } else {
            lemma_literal_prefix(a, b, i + 1);
        }
    }
}

proof fn lemma_lexed_lines(a: Seq<char>, b: Seq<char>, i: int, buf: Seq<char>)
    requires
        0 <= i <= a.len(),
        lexed(a, i, buf) is Ok,
    ensures
        lexed(a + seq!['\n'] + b, i, buf) == preceded(
            lexed(a, i, buf)->Ok_0,
            lexed(b, 0, Seq::empty()),
        ),
    decreases a.len() - i,
{
    let tail = seq!['\n'] + b;
    let s = a + tail;
    assert(a + seq!['\n'] + b =~= s);
    let rest = lexed(b, 0, Seq::empty());
    if i == a.len() {
        assert(s[i] == '\n');
        lemma_lexed_shift(a + seq!['\n'], b, 0, Seq::empty());
        assert((a + seq!['\n']) + b =~= s);
    } else {
        assert(s[i] == a[i]);
        if is_space(a[i]) {
            lemma_lexed_lines(a, b, i + 1, Seq::empty());
            lemma_preceded(flushed(buf), lexed(a, i + 1, Seq::empty())->Ok_0, rest);
        } else if a[i] == '\\' {
            lemma_line_end(a, i + 1);
            lemma_line_prefix(a, tail, i + 1);
            let j = line_end(a, i + 1);
            lemma_lexed_lines(a, b, j, Seq::empty());
            lemma_preceded(flushed(buf), lexed(a, j, Seq::empty())->Ok_0, rest);
        } else if a[i] == '(' {
            lemma_comment_end(a, i + 1, 1);
            lemma_comment_prefix(a, tail, i + 1, 1);
            let j = comment_end(a, i + 1, 1)->0;
            lemma_lexed_lines(a, b, j, Seq::empty());
            lemma_preceded(flushed(buf), lexed(a, j, Seq::empty())->Ok_0, rest);
        } else if a[i] == '"' {
            lemma_literal_end(a, i + 1);
            lemma_literal_prefix(a, tail, i + 1);
            let j = literal_end(a, i + 1)->0;
            lemma_lexed_lines(a, b, j, Seq::empty());
            lemma_preceded(
                flushed(buf).push(Token::Str(literal_text(a, i + 1))),
                lexed(a, j, Seq::empty())->Ok_0,
                rest,
            );
        } else {
            lemma_lexed_lines(a, b, i + 1, buf.push(a[i]));
        }
    }
}

/// A program on two lines has the words of the first line and then those of
/// the second, whatever comments and literals they hold.
pub proof fn lines_are_read_one_after_the_other(a: Seq<char>, b: Seq<char>)
    requires
        lexed(a, 0, Seq::empty()) is Ok,
    ensures
        lexed(a + seq!['\n'] + b, 0, Seq::empty()) == preceded(
            lexed(a, 0, Seq::empty())->Ok_0,
            lexed(b, 0, Seq::empty()),
        ),
{
    lemma_lexed_lines(a, b, 0, Seq::empty());
}

/// A backslash hides the rest of its line and nothing else.
pub proof fn line_comments_end_with_their_line(c: Seq<char>, b: Seq<char>)
    requires
        !c.contains('\n'),
    ensures
        lexed(seq!['\\'] + c + seq!['\n'] + b, 0, Seq::empty()) == lexed(b, 0, Seq::empty()),
{
    let a = seq!['\\'] + c;
    let s = a + seq!['\n'] + b;
    assert(!is_space('\\'));
    assert forall|i: int| 1 <= i < a.len() implies #[trigger] a[i] != '\n' by {
        assert(c.contains(c[i - 1]));
    }
    lemma_line_whole(a, 1);
    assert(line_end(a, 1) == a.len());
    assert(lexed(a, a.len() as int, Seq::empty()) == Ok::<Seq<Token>, ParseError>(Seq::empty()));
    assert(lexed(a, 0, Seq::empty())->Ok_0 =~= Seq::empty());
    lemma_lexed_lines(a, b, 0, Seq::empty());
    lemma_preceded_nothing(lexed(b, 0, Seq::empty()));
}

proof fn lemma_line_whole(a: Seq<char>, i: int)
    requires
        0 <= i <= a.len(),
        forall|k: int| i <= k < a.len() ==> #[trigger] a[k] != '\n',
    ensures
        line_end(a, i) == a.len(),
    decreases a.len() - i,
{
    if i < a.len() {
        lemma_line_whole(a, i + 1);
    }
}

/// How many comments are open after a text: its opening parentheses less its
/// closing ones.
pub open spec fn depth_after(c: Seq<char>) -> int
    decreases c.len(),
{
    if c.len() == 0 {
        0
    } else {
        depth_after(c.drop_last()) + if c.last() == '(' {
            1int
        } else if c.last() == ')' {
            -1int
        } else {
            0int
        }
    }
}

proof fn lemma_depth(s: Seq<char>, i: int, k: int)
    requires
        0 <= i <= k < s.len(),
    ensures
        depth_after(s.subrange(i, k + 1)) == depth_after(s.subrange(i, k)) + if s[k] == '(' {
            1int
        } else if s[k] == ')' {
            -1int
        } else {
            0int
        },
{
    assert(s.subrange(i, k + 1).drop_last() =~= s.subrange(i, k));
}

proof fn lemma_comment_depth(s: Seq<char>, from: int, i: int, depth: nat)
    requires
        0 <= from <= i <= s.len(),
        depth == 1 + depth_after(s.subrange(from, i)),
        depth > 0 || i > from,
        forall|k: int|
            from <= k < i ==> 1 + depth_after(#[trigger] s.subrange(from, k)) > 0,
    ensures
        match comment_end(s, i, depth) {
            Some(j) => {
                &&& i <= j <= s.len()
                &&& 1 + depth_after(s.subrange(from, j)) == 0
                &&& forall|k: int|
                    from <= k < j ==> 1 + depth_after(#[trigger] s.subrange(from, k)) > 0
            },
            None => forall|k: int|
                from <= k <= s.len() ==> 1 + depth_after(#[trigger] s.subrange(from, k)) > 0,
        },
    decreases s.len() - i,
{
    if depth > 0 && i < s.len() {
        lemma_depth(s, from, i);
        let more: int = if s[i] == '(' {
            depth as int + 1
        } else if s[i] == ')' {
            depth as int - 1
        } else {
            depth as int
        };
        lemma_comment_depth(s, from, i + 1, more as nat);
    }
}

/// A block comment ends with the parenthesis that closes it: up to there every
/// closing parenthesis has its opening one inside, and there is one closing
/// parenthesis more than opening ones. Where there is no such place, the
/// comment does not end.
pub proof fn comments_end_with_their_own_parenthesis(s: Seq<char>, from: int)
    requires
        0 <= from <= s.len(),
    ensures
        match comment_end(s, from, 1) {
            Some(j) => {
                &&& from < j <= s.len()
                &&& s[j - 1] == ')'
                &&& depth_after(s.subrange(from, j)) == -1
                &&& forall|k: int|
                    from <= k < j ==> depth_after(#[trigger] s.subrange(from, k)) >= 0
            },
            None => forall|k: int|
                from <= k <= s.len() ==> depth_after(#[trigger] s.subrange(from, k)) >= 0,
        },
{
    assert(s.subrange(from, from) =~= Seq::empty());
    lemma_comment_depth(s, from, from, 1);
    if let Some(j) = comment_end(s, from, 1) {
        if j == from {
            assert(depth_after(s.subrange(from, j)) == 0);
        } else {
            assert(depth_after(s.subrange(from, j - 1)) >= 0);
            lemma_depth(s, from, j - 1);
        }
    }
}

/// A block comment is skipped whole, the comments inside it included.
pub proof fn comments_are_skipped_whole(c: Seq<char>, b: Seq<char>)
    requires
        depth_after(c) == 0,
        forall|k: int| 0 <= k <= c.len() ==> depth_after(#[trigger] c.take(k)) >= 0,
    ensures
        lexed(seq!['('] + c + seq![')'] + b, 0, Seq::empty()) == lexed(b, 0, Seq::empty()),
{
    let s = seq!['('] + c + seq![')'] + b;
    let n = c.len() as int;
    assert(!is_space('('));
    comments_end_with_their_own_parenthesis(s, 1);
    assert forall|k: int| 1 <= k <= n + 1 implies depth_after(#[trigger] s.subrange(1, k)) >= 0 by {
        assert(s.subrange(1, k) =~= c.take(k - 1));
    }
    assert(s.subrange(1, n + 1) =~= c);
    lemma_depth(s, 1, n + 1);
    assert(depth_after(s.subrange(1, n + 2)) == -1);
    let j = comment_end(s, 1, 1)->0;
    if j > n + 2 {
        assert(depth_after(s.subrange(1, n + 2)) >= 0);
    } else if j < n + 2 {
        assert(depth_after(s.subrange(1, j)) >= 0);
    }
    let a = seq!['('] + c + seq![')'];
    lemma_lexed_shift(a, b, 0, Seq::empty());
    assert(flushed(Seq::empty()) =~= Seq::empty());
    lemma_preceded_nothing(lexed(b, 0, Seq::empty()));
}

/// A text with a backslash before every quote and every backslash.
pub open spec fn escaped(x: Seq<char>) -> Seq<char>
    decreases x.len(),
{
    if x.len() == 0 {
        Seq::empty()
    } else if x[0] == '"' || x[0] == '\\' {
        seq!['\\', x[0]] + escaped(x.skip(1))
    } else {
        seq![x[0]] + escaped(x.skip(1))
    }
}

proof fn lemma_escaped(a: Seq<char>, x: Seq<char>, b: Seq<char>)
    ensures
        ({
            let s = a + escaped(x) + seq!['"'] + b;
            &&& literal_end(s, a.len() as int) == Some(
                a.len() + escaped(x).len() + 1int,
            )
            &&& literal_text(s, a.len() as int) == x
        }),
    decreases x.len(),
{
    let s = a + escaped(x) + seq!['"'] + b;
    let n = a.len() as int;
    if x.len() == 0 {
        assert(s[n] == '"');
        assert(literal_text(s, n) =~= x);
    } else {
        let rest = x.skip(1);
        if x[0] == '"' || x[0] == '\\' {
            let more = a + seq!['\\', x[0]];
            lemma_escaped(more, rest, b);
            assert(more + escaped(rest) + seq!['"'] + b =~= s);
            assert(s[n] == '\\' && s[n + 1] == x[0]);
            assert(seq![x[0]] + rest =~= x);
        } else {
            let more = a + seq![x[0]];
            lemma_escaped(more, rest, b);
            assert(more + escaped(rest) + seq!['"'] + b =~= s);
            assert(s[n] == x[0]);
            assert(seq![x[0]] + rest =~= x);
        }
    }
}

/// Any text comes back from between its quotes, its quotes and backslashes
/// escaped, and what follows the closing quote is read on from there.
pub proof fn literals_read_back(x: Seq<char>, b: Seq<char>)
    ensures
        lexed(seq!['"'] + escaped(x) + seq!['"'] + b, 0, Seq::empty()) == preceded(
            seq![Token::Str(x)],
            lexed(b, 0, Seq::empty()),
        ),
{
    let s = seq!['"'] + escaped(x) + seq!['"'] + b;
    assert(!is_space('"'));
    lemma_escaped(seq!['"'], x, b);
    let a = seq!['"'] + escaped(x) + seq!['"'];
    lemma_lexed_shift(a, b, 0, Seq::empty());
    assert(flushed(Seq::empty()).push(Token::Str(x)) =~= seq![Token::Str(x)]);
}

/// A run of other characters before white space is one word: a number where it
/// is a numeral, a name otherwise.
pub proof fn words_end_at_white_space(w: Seq<char>, c: char, b: Seq<char>)
    requires
        w.len() > 0,
        forall|i: int|
            0 <= i < w.len() ==> !is_space(#[trigger] w[i]) && w[i] != '\\' && w[i] != '(' && w[i]
                != '"',
        is_space(c),
    ensures
        lexed(w + seq![c] + b, 0, Seq::empty()) == preceded(
            seq![
                if numeral(w) {
                    Token::Num(w)
                } else {
                    Token::Ident(w)
                },
            ],
            lexed(b, 0, Seq::empty()),
        ),
{
    let s = w + seq![c] + b;
    lemma_word_run(w, seq![c] + b, 0);
    assert(w + (seq![c] + b) =~= s);
    assert(w.take(0) =~= Seq::empty());
    assert(s[w.len() as int] == c);
    lemma_lexed_shift(w + seq![c], b, 0, Seq::empty());
}

proof fn lemma_word_run(w: Seq<char>, b: Seq<char>, i: int)
    requires
        0 <= i <= w.len(),
        forall|i: int|
            0 <= i < w.len() ==> !is_space(#[trigger] w[i]) && w[i] != '\\' && w[i] != '(' && w[i]
                != '"',
    ensures
        lexed(w + b, i, w.take(i)) == lexed(w + b, w.len() as int, w),
    decreases w.len() - i,
{
    if i < w.len() {
        assert(w.take(i).push(w[i]) =~= w.take(i + 1));
        assert((w + b)[i] == w[i]);
        lemma_word_run(w, b, i + 1);
    } else {
        assert(w.take(i) =~= w);
    }
}

proof fn lemma_digit_points(s: Seq<char>)
    requires
        forall|i: int| 0 <= i < s.len() ==> digit(#[trigger] s[i]),
    ensures
        points(s) == 0,
    decreases s.len(),
{
    if s.len() > 0 {
        let d = s.drop_last();
        assert forall|i: int| 0 <= i < d.len() implies digit(#[trigger] d[i]) by {
            assert(d[i] == s[i]);
        }
        lemma_digit_points(d);
        assert(digit(s[s.len() - 1]));
    }
}

proof fn lemma_points_add(a: Seq<char>, b: Seq<char>)
    ensures
        points(a + b) == points(a) + points(b),
    decreases b.len(),
{
    if b.len() == 0 {
        assert(a + b =~= a);
    } else {
        lemma_points_add(a, b.drop_last());
        assert((a + b).drop_last() =~= a + b.drop_last());
    }
}

/// Numerals are what decimal numbers are written as: digits, also with a point
/// among them, with a sign, or with an exponent of digits.
pub proof fn decimal_numbers_are_numerals(
    whole: Seq<char>,
    part: Seq<char>,
    e: char,
    power: Seq<char>,
)
    requires
        digits_only(whole),
        digits_only(part),
        digits_only(power),
        e == 'e' || e == 'E',
    ensures
        numeral(whole),
        numeral(whole + seq!['.'] + part),
        numeral(whole + seq!['.']),
        numeral(seq!['.'] + part),
        numeral(whole + seq![e] + power),
        numeral(whole + seq![e, '-'] + power),
        numeral(seq!['-'] + whole),
        numeral(seq!['+'] + whole),
        !numeral(whole + seq!['.'] + part + seq!['.'] + whole),
        !numeral(whole + seq![e]),
        !numeral(Seq::empty()),
        !numeral(seq!['.']),
        !numeral(seq!['-']),
{
    assert(digit(whole[0]) && digit(part[0]) && digit(power[0]));
    lemma_digit_points(whole);
    lemma_digit_points(part);
    lemma_digit_points(power);
    let dot = seq!['.'];
    assert(dot.drop_last() =~= Seq::empty());
    assert(points(Seq::<char>::empty()) == 0);
    assert(points(dot) == 1);
    lemma_points_add(whole, dot);
    lemma_points_add(whole + dot, part);
    lemma_points_add(dot, part);
    assert(mantissa(whole));
    assert((whole + dot)[0] == whole[0]);
    assert(mantissa(whole + dot));
    assert((whole + dot + part)[0] == whole[0]);
    assert(mantissa(whole + dot + part));
    assert((dot + part)[1] == part[0]);
    assert(mantissa(dot + part));
    let a = whole + seq![e] + power;
    let n = whole.len() as int;
    assert(a[0] == whole[0]);
    assert(exponent_mark(a[n]) && a.take(n) =~= whole && a.skip(n + 1) =~= power);
    let b = whole + seq![e, '-'] + power;
    assert(b[0] == whole[0]);
    assert(exponent_mark(b[n]) && b.take(n) =~= whole && b.skip(n + 1) =~= seq!['-'] + power);
    assert((seq!['-'] + power).skip(1) =~= power);
    assert((seq!['-'] + whole).skip(1) =~= whole);
    assert((seq!['+'] + whole).skip(1) =~= whole);
    lemma_not_numerals(whole, part, e);
}

proof fn lemma_special_names(s: Seq<char>)
    requires
        s.len() == 0 || digit(s[0]) || s[0] == '.',
    ensures
        lower_text(s) != "inf"@,
        lower_text(s) != "infinity"@,
        lower_text(s) != "nan"@,
{
    reveal_strlit("inf");
    reveal_strlit("infinity");
    reveal_strlit("nan");
    assert(lower_text(s).len() == s.len());
    if s.len() > 0 {
        assert("inf"@[0] == 'i' && "infinity"@[0] == 'i' && "nan"@[0] == 'n');
        assert(lower_text(s)[0] == s[0]);
    }
}

proof fn lemma_not_numerals(whole: Seq<char>, part: Seq<char>, e: char)
    requires
        digits_only(whole),
        digits_only(part),
        e == 'e' || e == 'E',
    ensures
        !numeral(whole + seq!['.'] + part + seq!['.'] + whole),
        !numeral(whole + seq![e]),
        !numeral(Seq::empty()),
        !numeral(seq!['.']),
        !numeral(seq!['-']),
{
    let none = Seq::<char>::empty();
    let dot = seq!['.'];
    lemma_digit_points(whole);
    lemma_digit_points(part);
    assert(dot.drop_last() =~= none);
    assert(points(Seq::<char>::empty()) == 0);
    assert(points(dot) == 1);
    lemma_points_add(whole, dot);
    lemma_points_add(whole + dot, part);
    lemma_points_add(whole + dot + part, dot);
    lemma_points_add(whole + dot + part + dot, whole);
    let two = whole + dot + part + dot + whole;
    assert(digit(whole[0]));
    assert(two[0] == whole[0]);
    assert forall|k: int| 0 <= k < two.len() implies !exponent_mark(#[trigger] two[k]) by {
        let w = whole.len() as int;
        let q = part.len() as int;
        if k < w {
            assert(two[k] == whole[k]);
        } else if k == w {
            assert(two[k] == '.');
        } else if k < w + 1 + q {
            assert(two[k] == part[k - w - 1]);
        } else if k == w + 1 + q {
            assert(two[k] == '.');
        } else {
            assert(two[k] == whole[k - w - q - 2]);
        }
    }
    lemma_special_names(two);
    let cut = whole + seq![e];
    let n = whole.len() as int;
    assert(cut[0] == whole[0]);
    assert(cut[n] == e);
    assert(!mantissa(cut)) by {
        assert(!(digit(cut[n]) || cut[n] == '.'));
    }
    assert forall|k: int| 0 <= k < cut.len() && exponent_mark(#[trigger] cut[k]) implies k == n by {
        if k < n {
            assert(cut[k] == whole[k]);
        }
    }
    assert(cut.skip(n + 1) =~= none);
    lemma_special_names(cut);
    lemma_special_names(none);
    lemma_special_names(dot);
    assert forall|k: int| 0 <= k < dot.len() implies !digit(#[trigger] dot[k]) by {}
    assert(!mantissa(dot));
    assert(!exponent_mark(dot[0]));
    assert(seq!['-'].skip(1) =~= none);
}

/// A word ends where a comment or a literal opens right after it, and what
/// opens there is read as it would be alone.
pub proof fn words_end_where_something_opens(w: Seq<char>, b: Seq<char>)
    requires
        w.len() > 0,
        forall|i: int|
            0 <= i < w.len() ==> !is_space(#[trigger] w[i]) && w[i] != '\\' && w[i] != '(' && w[i]
                != '"',
        b.len() > 0,
        b[0] == '\\' || b[0] == '(' || b[0] == '"',
    ensures
        lexed(w + b, 0, Seq::empty()) == preceded(
            seq![
                if numeral(w) {
                    Token::Num(w)
                } else {
                    Token::Ident(w)
                },
            ],
            lexed(b, 0, Seq::empty()),
        ),
{
    let s = w + b;
    let n = w.len() as int;
    lemma_word_run(w, b, 0);
    assert(w.take(0) =~= Seq::empty());
    assert(s[n] == b[0]);
    assert(!is_space('\\') && !is_space('(') && !is_space('"'));
    let none = Seq::<Token>::empty();
    assert(flushed(Seq::empty()) =~= none);
    if b[0] == '\\' {
        lemma_line_shift(w, b, 1);
        lemma_line_end(b, 1);
        lemma_lexed_shift(w, b, line_end(b, 1), Seq::empty());
        lemma_preceded_nothing(lexed(b, line_end(b, 1), Seq::empty()));
    } else if b[0] == '(' {
        lemma_comment_shift(w, b, 1, 1);
        lemma_comment_end(b, 1, 1);
        if let Some(j) = comment_end(b, 1, 1) {
            lemma_lexed_shift(w, b, j, Seq::empty());
            lemma_preceded_nothing(lexed(b, j, Seq::empty()));
        }
    } else {
        lemma_literal_shift(w, b, 1);
        lemma_literal_end(b, 1);
        if let Some(j) = literal_end(b, 1) {
            lemma_lexed_shift(w, b, j, Seq::empty());
            let t = Token::Str(literal_text(b, 1));
            assert(none.push(t) =~= seq![t]);
            assert(flushed(w).push(t) =~= flushed(w) + seq![t]);
            lemma_preceded(flushed(w), seq![t], lexed(b, j, Seq::empty()));
        }
    }
}

proof fn lemma_open_literal(a: Seq<char>, x: Seq<char>)
    ensures
        literal_end(a + escaped(x), a.len() as int) is None,
    decreases x.len(),
{
    let s = a + escaped(x);
    let n = a.len() as int;
    if x.len() > 0 {
        let rest = x.skip(1);
        let more = if x[0] == '"' || x[0] == '\\' {
            a + seq!['\\', x[0]]
        } else {
            a + seq![x[0]]
        };
        lemma_open_literal(more, rest);
        assert(more + escaped(rest) =~= s);
        if x[0] == '"' || x[0] == '\\' {
            assert(s[n] == '\\' && s[n + 1] == x[0]);
        } else {
            assert(s[n] == x[0]);
        }
    }
}

/// A literal without its closing quote is an error, and so is a comment
/// without its closing parenthesis: each its own.
pub proof fn what_opens_must_close(x: Seq<char>, c: Seq<char>)
    requires
        forall|k: int| 0 <= k <= c.len() ==> depth_after(#[trigger] c.take(k)) >= 0,
    ensures
        lexed(seq!['"'] + escaped(x), 0, Seq::empty()) == Err::<Seq<Token>, ParseError>(
            ParseError::UnterminatedString,
        ),
        lexed(seq!['('] + c, 0, Seq::empty()) == Err::<Seq<Token>, ParseError>(
            ParseError::UnterminatedComment,
        ),
{
    assert(!is_space('"') && !is_space('('));
    lemma_open_literal(seq!['"'], x);
    let s = seq!['('] + c;
    comments_end_with_their_own_parenthesis(s, 1);
    if let Some(j) = comment_end(s, 1, 1) {
        assert(s.subrange(1, j) =~= c.take(j - 1));
        assert(depth_after(c.take(j - 1)) >= 0);
    }
}

/// Programs are printed word by word, each with a space behind it, a group of
/// words between parentheses.
pub proof fn programs_are_printed_word_by_word(a: Seq<Word>, b: Seq<Word>, w: Word, v: Vec<Word>)
    ensures
        words_text(a + b) == words_text(a) + words_text(b),
        words_text(seq![w]) == word_text(w) + " "@,
        word_text(Word::Sequence(v)) == "( "@ + words_text(v@) + ")"@,
{
    lemma_words_concat(a, b);
    lemma_words_one(w);
}

} // verus!
