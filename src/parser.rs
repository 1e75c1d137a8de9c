use vstd::prelude::*;

use crate::token::{
    chars_of, lex, start_loc, tokenize, toks_view, LexError, Loc, RichToken, Tok,
    Token,
};
use crate::value::{insert_pair, items_tree, Object, Tree, Value};

verus! {

/// Why GON text could not be read as one value.
#[derive(Debug, PartialEq, Eq)]
pub enum GonError {
    /// The text could not be split into tokens.
    LexerErr(LexError),
    /// The text holds no value at all.
    NoValueErr,
    /// A bare symbol that names no value.
    InvalidValue(String, Loc),
    /// A token that cannot stand where it was found.
    UnexpectedToken(Token, Loc),
    /// A key that is not followed by `:`.
    MissingColon(String, Loc),
    /// A key and `:` that no value follows.
    MissingValue(String, Loc),
    /// A comma that a stricter grammar asks for and that is not there.
    MissingComma(Loc),
    /// An object or list, opened at the place given, that is never closed.
    UnclosedDelimiter(char, Loc),
    /// Tokens that follow the one value of the text.
    LeftoverTokens(Token, Loc),
    /// A numeric literal that has no JSON number.
    NumericConversionError(String),
}

/// What a `GonError` says, over mathematical text.
pub enum ErrView {
    Lexer(LexError),
    NoValue,
    InvalidValue(Seq<char>, Loc),
    UnexpectedToken(Tok, Loc),
    MissingColon(Seq<char>, Loc),
    MissingValue(Seq<char>, Loc),
    MissingComma(Loc),
    UnclosedDelimiter(char, Loc),
    LeftoverTokens(Tok, Loc),
    NumericConversion(Seq<char>),
}

impl View for GonError {
    type V = ErrView;

    open spec fn view(&self) -> ErrView {
        match self {
            GonError::LexerErr(e) => ErrView::Lexer(*e),
            GonError::NoValueErr => ErrView::NoValue,
            GonError::InvalidValue(s, l) => ErrView::InvalidValue(s@, *l),
            GonError::UnexpectedToken(t, l) => ErrView::UnexpectedToken(t@, *l),
            GonError::MissingColon(s, l) => ErrView::MissingColon(s@, *l),
            GonError::MissingValue(s, l) => ErrView::MissingValue(s@, *l),
            GonError::MissingComma(l) => ErrView::MissingComma(*l),
            GonError::UnclosedDelimiter(c, l) => ErrView::UnclosedDelimiter(*c, *l),
            GonError::LeftoverTokens(t, l) => ErrView::LeftoverTokens(t@, *l),
            GonError::NumericConversionError(s) => ErrView::NumericConversion(s@),
        }
    }
}

/// What reading a value, a pair or a run of entries from a position gives: an error,
/// nothing (the tokens ran out first), or the result and the position after it.
pub type Step<T> = Result<Option<(T, int)>, ErrView>;

/// The place of the token read last before position `i`.
pub open spec fn last_loc(ts: Seq<(Tok, Loc)>, i: int) -> Loc {
    if 0 < i <= ts.len() {
        ts[i - 1].1
    } else {
        start_loc()
    }
}

/// The upper-case form of an ASCII lower-case letter; any other character stays.
pub open spec fn ascii_upper(w: char) -> char {
    if w == 'a' {
        'A'
    } else if w == 'b' {
        'B'
    } else if w == 'c' {
        'C'
    } else if w == 'd' {
        'D'
    } else if w == 'e' {
        'E'
    } else if w == 'f' {
        'F'
    } else if w == 'g' {
        'G'
    } else if w == 'h' {
        'H'
    } else if w == 'i' {
        'I'
    } else if w == 'j' {
        'J'
    } else if w == 'k' {
        'K'
    } else if w == 'l' {
        'L'
    } else if w == 'm' {
        'M'
    } else if w == 'n' {
        'N'
    } else if w == 'o' {
        'O'
    } else if w == 'p' {
        'P'
    } else if w == 'q' {
        'Q'
    } else if w == 'r' {
        'R'
    } else if w == 's' {
        'S'
    } else if w == 't' {
        'T'
    } else if w == 'u' {
        'U'
    } else if w == 'v' {
        'V'
    } else if w == 'w' {
        'W'
    } else if w == 'x' {
        'X'
    } else if w == 'y' {
        'Y'
    } else if w == 'z' {
        'Z'
    } else {
        w
    }
}

/// `c` equals `w` up to ASCII letter case.
pub open spec fn same_letter(c: char, w: char) -> bool {
    c == w || c == ascii_upper(w)
}

/// `s` spells the lowercase word `w` in any letter case.
pub open spec fn word_ci(s: Seq<char>, w: Seq<char>) -> bool {
    s.len() == w.len() && forall|i: int| 0 <= i < s.len() ==> same_letter(#[trigger] s[i], w[i])
}

pub open spec fn null_word(s: Seq<char>) -> bool {
    word_ci(s, seq!['n', 'o', 'n', 'e']) || word_ci(s, seq!['n', 'u', 'l', 'l'])
}

pub open spec fn true_word(s: Seq<char>) -> bool {
    word_ci(s, seq!['t', 'r', 'u', 'e'])
}

pub open spec fn false_word(s: Seq<char>) -> bool {
    word_ci(s, seq!['f', 'a', 'l', 's', 'e'])
}

/// The raw-string marker `r` or `R`.
pub open spec fn raw_mark(s: Seq<char>) -> bool {
    s == seq!['r'] || s == seq!['R']
}

/// Position `j`, moved past one comma if one stands there.
pub open spec fn skip_comma(ts: Seq<(Tok, Loc)>, j: int) -> int {
    if 0 <= j < ts.len() && ts[j].0 is Comma {
        j + 1
    } else {
        j
    }
}

/// The value that starts at position `i`.
pub open spec fn value_at(ts: Seq<(Tok, Loc)>, i: int) -> Step<Tree>
    decreases ts.len() - i, 1int,
{
    if i < 0 || i >= ts.len() {
        Ok(None)
    } else {
        let l = ts[i].1;
        match ts[i].0 {
            Tok::Sym(s) => if null_word(s) {
                Ok(Some((Tree::Null, i + 1)))
            } else if true_word(s) {
                Ok(Some((Tree::Bool(true), i + 1)))
            } else if false_word(s) {
                Ok(Some((Tree::Bool(false), i + 1)))
            } else if raw_mark(s) && i + 1 < ts.len() && ts[i + 1].0 is Str {
                Ok(Some((Tree::Str(ts[i + 1].0->Str_0, true), i + 2)))
            } else {
                Err(ErrView::InvalidValue(s, l))
            },
            Tok::Str(t) => Ok(Some((Tree::Str(t, false), i + 1))),
            Tok::Num(t) => Ok(Some((Tree::Num(t), i + 1))),
            Tok::Minus => if i + 1 < ts.len() && ts[i + 1].0 is Num {
                Ok(Some((Tree::Num(seq!['-'] + ts[i + 1].0->Num_0), i + 2)))
            } else {
                Err(ErrView::UnexpectedToken(Tok::Minus, l))
            },
            Tok::LBrace => obj_from(ts, i + 1, l, seq![]),
            Tok::LBrack => list_from(ts, i + 1, l, seq![]),
            t => Err(ErrView::UnexpectedToken(t, l)),
        }
    }
}

/// The rest of a list opened at `open`, from position `i`, after the items `acc`.
pub open spec fn list_from(ts: Seq<(Tok, Loc)>, i: int, open: Loc, acc: Seq<Tree>) -> Step<Tree>
    decreases ts.len() - i, 3int,
{
    if 0 <= i < ts.len() && ts[i].0 is RBrack {
        Ok(Some((Tree::List(acc), i + 1)))
    } else {
        match value_at(ts, i) {
            Err(e) => Err(e),
            Ok(None) => Err(ErrView::UnclosedDelimiter(']', open)),
            Ok(Some((v, j))) => if i < j <= ts.len() {
                list_from(ts, skip_comma(ts, j), open, acc.push(v))
            } else {
                Ok(None)
            },
        }
    }
}

/// The rest of an object opened at `open`, from position `i`, after the pairs `acc`.
pub open spec fn obj_from(
    ts: Seq<(Tok, Loc)>,
    i: int,
    open: Loc,
    acc: Seq<(Seq<char>, Tree)>,
) -> Step<Tree>
    decreases ts.len() - i, 3int,
{
    if 0 <= i < ts.len() && ts[i].0 is RBrace {
        Ok(Some((Tree::Obj(acc), i + 1)))
    } else {
        match pair_at(ts, i) {
            Err(e) => Err(e),
            Ok(None) => Err(ErrView::UnclosedDelimiter('}', open)),
            Ok(Some((p, j))) => if i < j <= ts.len() {
                obj_from(ts, skip_comma(ts, j), open, insert_pair(acc, p.0, p.1))
            } else {
                Ok(None)
            },
        }
    }
}

/// The text of a token that can stand as a key.
pub open spec fn key_text(t: Tok) -> Option<Seq<char>> {
    match t {
        Tok::Sym(s) => Some(s),
        Tok::Str(s) => Some(s),
        Tok::Num(s) => Some(s),
        _ => None,
    }
}

/// A token that can only close or separate, never start a value: a closer, a colon or a comma.
pub open spec fn starts_no_value(t: Tok) -> bool {
    t is RBrace || t is RBrack || t is Colon || t is Comma
}

/// The key/value pair that starts at position `i`. After `key:`, no value at all, or a token
/// that cannot start one, is `MissingValue` at the place of the token read last; another error
/// in the value is passed on.
pub open spec fn pair_at(ts: Seq<(Tok, Loc)>, i: int) -> Step<(Seq<char>, Tree)>
    decreases ts.len() - i, 2int,
{
    if i < 0 || i >= ts.len() {
        Ok(None)
    } else {
        match key_text(ts[i].0) {
            None => Err(ErrView::UnexpectedToken(ts[i].0, ts[i].1)),
            Some(k) => if !(i + 1 < ts.len() && ts[i + 1].0 is Colon) {
                Err(ErrView::MissingColon(k, last_loc(ts, if i + 1 < ts.len() { i + 2 } else { i + 1 })))
            } else if i + 2 < ts.len() && starts_no_value(ts[i + 2].0) {
                Err(ErrView::MissingValue(k, ts[i + 2].1))
            } else {
                match value_at(ts, i + 2) {
                    Err(e) => Err(e),
                    Ok(None) => Err(ErrView::MissingValue(k, ts[i + 1].1)),
                    Ok(Some((v, j))) => Ok(Some(((k, v), j))),
                }
            },
        }
    }
}

/// The one value that the tokens `ts` hold.
pub open spec fn parse_toks(ts: Seq<(Tok, Loc)>) -> Result<Tree, ErrView> {
    match value_at(ts, 0) {
        Err(e) => Err(e),
        Ok(None) => Err(ErrView::NoValue),
        Ok(Some((v, j))) => if 0 <= j < ts.len() {
            Err(ErrView::LeftoverTokens(ts[j].0, ts[j].1))
        } else {
            Ok(v)
        },
    }
}

/// The one value that the text `s` holds.
pub open spec fn parse_text(s: Seq<char>) -> Result<Tree, ErrView> {
    match lex(s) {
        Err(e) => Err(ErrView::Lexer(e)),
        Ok(ts) => parse_toks(ts),
    }
}

/// A cursor over tokens that remembers where the token read last stood.
pub struct TokenIter {
    pub tokens: Vec<RichToken>,
    pub pos: usize,
    pub loc: Loc,
}

impl TokenIter {
    pub open spec fn toks(&self) -> Seq<(Tok, Loc)> {
        toks_view(self.tokens@)
    }

    pub open spec fn wf(&self) -> bool {
        &&& self.pos <= self.tokens@.len()
        &&& self.loc == last_loc(self.toks(), self.pos as int)
    }

    /// A cursor at the first of `tokens`.
    pub fn new(tokens: Vec<RichToken>) -> (r: TokenIter)
        ensures
            r.wf(),
            r.tokens == tokens,
            r.pos == 0,
    {
        TokenIter { tokens, pos: 0, loc: Loc { line: 1, col: 1, pos: 0 } }
    }

    /// The token that would be read next, if any.
    pub fn peek(&self) -> (r: Option<&RichToken>)
        requires
            self.wf(),
        ensures
            match r {
                Some(t) => self.pos < self.tokens@.len() && *t == self.tokens@[self.pos as int],
                None => self.pos == self.tokens@.len(),
            },
    {
        if self.pos < self.tokens.len() {
            Some(&self.tokens[self.pos])
        } else {
            None
        }
    }

    /// Moves past the next token, if any; returns whether there was one.
    pub fn next(&mut self) -> (r: bool)
        requires
            old(self).wf(),
        ensures
            final(self).wf(),
            final(self).tokens == old(self).tokens,
            r == (old(self).pos < old(self).tokens@.len()),
            final(self).pos == if r { old(self).pos + 1 } else { old(self).pos as int },
    {
        if self.pos < self.tokens.len() {
            self.loc = self.tokens[self.pos].loc;
            self.pos = self.pos + 1;
            true
        } else {
            false
        }
    }

    /// The place of the token read last.
    pub fn loc(&self) -> (r: Loc)
        ensures
            r == self.loc,
    {
        self.loc
    }
}

pub open spec fn value_step(r: Result<Option<Value>, GonError>, pos: int) -> Step<Tree> {
    match r {
        Err(e) => Err(e@),
        Ok(None) => Ok(None),
        Ok(Some(v)) => Ok(Some((v@, pos))),
    }
}

pub open spec fn pair_step(r: Result<Option<(String, Value)>, GonError>, pos: int) -> Step<
    (Seq<char>, Tree),
> {
    match r {
        Err(e) => Err(e@),
        Ok(None) => Ok(None),
        Ok(Some(p)) => Ok(Some(((p.0@, p.1@), pos))),
    }
}

pub open spec fn parse_view(r: Result<Value, GonError>) -> Result<Tree, ErrView> {
    match r {
        Ok(v) => Ok(v@),
        Err(e) => Err(e@),
    }
}

/// A copy of `t`.
fn copy_token(t: &Token) -> (r: Token)
    ensures
        r@ == t@,
{
    match t {
        Token::Sym(s) => Token::Sym(s.clone()),
        Token::Str(s) => Token::Str(s.clone()),
        Token::Num(s) => Token::Num(s.clone()),
        Token::LBrace => Token::LBrace,
        Token::RBrace => Token::RBrace,
        Token::LBrack => Token::LBrack,
        Token::RBrack => Token::RBrack,
        Token::Colon => Token::Colon,
        Token::Comma => Token::Comma,
        Token::Minus => Token::Minus,
    }
}

fn upper_of(w: char) -> (r: char)
    ensures
        r == ascii_upper(w),
{
    if w == 'a' {
        'A'
    } else if w == 'b' {
        'B'
    } else if w == 'c' {
        'C'
    } else if w == 'd' {
        'D'
    } else if w == 'e' {
        'E'
    } else if w == 'f' {
        'F'
    } else if w == 'g' {
        'G'
    } else if w == 'h' {
        'H'
    } else if w == 'i' {
        'I'
    } else if w == 'j' {
        'J'
    } else if w == 'k' {
        'K'
    } else if w == 'l' {
        'L'
    } else if w == 'm' {
        'M'
    } else if w == 'n' {
        'N'
    } else if w == 'o' {
        'O'
    } else if w == 'p' {
        'P'
    } else if w == 'q' {
        'Q'
    } else if w == 'r' {
        'R'
    } else if w == 's' {
        'S'
    } else if w == 't' {
        'T'
    } else if w == 'u' {
        'U'
    } else if w == 'v' {
        'V'
    } else if w == 'w' {
        'W'
    } else if w == 'x' {
        'X'
    } else if w == 'y' {
        'Y'
    } else if w == 'z' {
        'Z'
    } else {
        w
    }
}

/// Whether `s` spells the lowercase word `w` in any letter case.
fn is_word(s: &Vec<char>, w: &Vec<char>) -> (r: bool)
    ensures
        r == word_ci(s@, w@),
{
    if s.len() != w.len() {
        return false;
    }
    let mut i: usize = 0;
    while i < s.len()
        invariant
            i <= s@.len() == w@.len(),
            forall|k: int| 0 <= k < i ==> same_letter(#[trigger] s@[k], w@[k]),
        decreases s@.len() - i,
    {
        let c = s[i];
        let d = w[i];
        if !(c == d || c == upper_of(d)) {
            return false;
        }
        i = i + 1;
    }
    true
}

/// What a bare symbol at a value's place stands for, the raw-string marker aside.
fn word_value(s: &String) -> (r: Option<Value>)
    ensures
        match r {
            Some(v) => (null_word(s@) && v@ == Tree::Null) || (!null_word(s@) && true_word(s@)
                && v@ == Tree::Bool(true)) || (!null_word(s@) && !true_word(s@) && false_word(s@)
                && v@ == Tree::Bool(false)),
            None => !null_word(s@) && !true_word(s@) && !false_word(s@),
        },
{
    let cs = chars_of(s.as_str());
    let none_w = vec!['n', 'o', 'n', 'e'];
    let null_w = vec!['n', 'u', 'l', 'l'];
    let true_w = vec!['t', 'r', 'u', 'e'];
    let false_w = vec!['f', 'a', 'l', 's', 'e'];
    proof {
        assert(none_w@ =~= seq!['n', 'o', 'n', 'e']);
        assert(null_w@ =~= seq!['n', 'u', 'l', 'l']);
        assert(true_w@ =~= seq!['t', 'r', 'u', 'e']);
        assert(false_w@ =~= seq!['f', 'a', 'l', 's', 'e']);
    }
    if is_word(&cs, &none_w) || is_word(&cs, &null_w) {
        Some(Value::Null)
    } else if is_word(&cs, &true_w) {
        Some(Value::Bool(true))
    } else if is_word(&cs, &false_w) {
        Some(Value::Bool(false))
    } else {
        None
    }
}

/// Whether `s` is the raw-string marker `r` or `R`.
fn is_raw_mark(s: &String) -> (r: bool)
    ensures
        r == raw_mark(s@),
{
    let cs = chars_of(s.as_str());
    let r = cs.len() == 1 && (cs[0] == 'r' || cs[0] == 'R');
    proof {
        if cs@.len() == 1 {
            if cs@[0] == 'r' {
                assert(cs@ =~= seq!['r']);
            }
            if cs@[0] == 'R' {
                assert(cs@ =~= seq!['R']);
            }
        }
    }
    r
}

/// Moves past a comma if one comes next.
pub fn consume_optional_comma(tokens: &mut TokenIter)
    requires
        old(tokens).wf(),
    ensures
        final(tokens).wf(),
        final(tokens).tokens == old(tokens).tokens,
        final(tokens).pos == skip_comma(old(tokens).toks(), old(tokens).pos as int),
{
    let is_comma = match tokens.peek() {
        Some(rt) => matches!(rt.inner, Token::Comma),
        None => false,
    };
    if is_comma {
        tokens.next();
    }
}

/// Reads a comma that must come next: `MissingComma`, at the place of the token read
/// last, where another token or none comes.
pub fn consume_required_comma(tokens: &mut TokenIter) -> (r: Result<(), GonError>)
    requires
        old(tokens).wf(),
    ensures
        final(tokens).wf(),
        final(tokens).tokens == old(tokens).tokens,
        final(tokens).pos == if old(tokens).pos < old(tokens).tokens@.len() {
            old(tokens).pos + 1
        } else {
            old(tokens).pos as int
        },
        r is Ok <==> (old(tokens).pos < old(tokens).tokens@.len() && old(
            tokens,
        ).toks()[old(tokens).pos as int].0 is Comma),
        r matches Err(e) ==> e@ == ErrView::MissingComma(final(tokens).loc),
{
    let is_comma = match tokens.peek() {
        Some(rt) => matches!(rt.inner, Token::Comma),
        None => false,
    };
    tokens.next();
    if is_comma {
        Ok(())
    } else {
        Err(GonError::MissingComma(tokens.loc()))
    }
}

/// Reads the value that comes next: `Ok(None)` where the tokens have run out.
fn next_value(tokens: &mut TokenIter) -> (r: Result<Option<Value>, GonError>)
    requires
        old(tokens).wf(),
    ensures
        final(tokens).wf(),
        final(tokens).tokens == old(tokens).tokens,
        value_step(r, final(tokens).pos as int) == value_at(old(tokens).toks(), old(tokens).pos as int),
        r matches Ok(Some(_)) ==> final(tokens).pos > old(tokens).pos,
    decreases old(tokens).tokens@.len() - old(tokens).pos, 1int,
{
    let ghost ts = tokens.toks();
    let ghost i = tokens.pos as int;
    let (first, first_loc) = match tokens.peek() {
        None => {
            return Ok(None);
        },
        Some(rt) => (copy_token(&rt.inner), rt.loc),
    };
    proof {
        assert(ts[i] == tokens.tokens@[i]@);
    }
    tokens.next();
    match first {
        Token::Sym(sym) => {
            match word_value(&sym) {
                Some(v) => Ok(Some(v)),
                None => {
                    let raw_text = if is_raw_mark(&sym) {
                        match tokens.peek() {
                            Some(rt) => match &rt.inner {
                                Token::Str(t) => Some(t.clone()),
                                _ => None,
                            },
                            None => None,
                        }
                    } else {
                        None
                    };
                    proof {
                        if i + 1 < ts.len() {
                            assert(ts[i + 1] == tokens.tokens@[i + 1]@);
                        }
                    }
                    match raw_text {
                        Some(text) => {
                            tokens.next();
                            Ok(Some(Value::Str { text, raw: true }))
                        },
                        None => Err(GonError::InvalidValue(sym, first_loc)),
                    }
                },
            }
        },
        Token::Str(text) => Ok(Some(Value::Str { text, raw: false })),
        Token::Num(text) => Ok(Some(Value::Num(text))),
        Token::Minus => {
            let digits = match tokens.peek() {
                Some(rt) => match &rt.inner {
                    Token::Num(t) => Some(t.clone()),
                    _ => None,
                },
                None => None,
            };
            proof {
                if i + 1 < ts.len() {
                    assert(ts[i + 1] == tokens.tokens@[i + 1]@);
                }
            }
            match digits {
                Some(d) => {
                    tokens.next();
                    let mut text = String::new();
                    crate::token::push_char(&mut text, '-');
                    text.append(d.as_str());
                    proof {
                        assert(text@ =~= seq!['-'] + d@);
                    }
                    Ok(Some(Value::Num(text)))
                },
                None => Err(GonError::UnexpectedToken(Token::Minus, first_loc)),
            }
        },
        Token::LBrace => {
            let opening = tokens.loc();
            let mut obj = Object::new();
            loop
                invariant_except_break
                    obj_from(ts, i + 1, first_loc, seq![]) == obj_from(
                        ts,
                        tokens.pos as int,
                        first_loc,
                        obj@,
                    ),
                invariant
                    tokens.wf(),
                    tokens.tokens == old(tokens).tokens,
                    ts == tokens.toks(),
                    tokens.pos > i,
                    i == old(tokens).pos,
                    ts == old(tokens).toks(),
                    0 <= i < ts.len(),
                    opening == first_loc,
                    first_loc == ts[i].1,
                    value_at(ts, i) == obj_from(ts, i + 1, first_loc, seq![]),
                ensures
                    obj_from(ts, i + 1, first_loc, seq![]) == Ok::<Option<(Tree, int)>, ErrView>(
                        Some((Tree::Obj(obj@), tokens.pos as int)),
                    ),
                decreases tokens.tokens@.len() - tokens.pos,
            {
                let closing = match tokens.peek() {
                    Some(rt) => matches!(rt.inner, Token::RBrace),
                    None => false,
                };
                proof {
                    if tokens.pos < ts.len() {
                        assert(ts[tokens.pos as int] == tokens.tokens@[tokens.pos as int]@);
                    }
                }
                if closing {
                    tokens.next();
                    break ;
                }
                match next_key_value_pair(tokens) {
                    Err(e) => {
                        return Err(e);
                    },
                    Ok(None) => {
                        return Err(GonError::UnclosedDelimiter('}', opening));
                    },
                    Ok(Some((k, v))) => {
                        obj.insert(k, v);
                        consume_optional_comma(tokens);
                    },
                }
            }
            Ok(Some(Value::Obj(obj)))
        },
        Token::LBrack => {
            let opening = tokens.loc();
            let mut list: Vec<Value> = Vec::new();
            proof {
                assert(items_tree(list@) =~= Seq::<Tree>::empty());
            }
            loop
                invariant_except_break
                    list_from(ts, i + 1, first_loc, seq![]) == list_from(
                        ts,
                        tokens.pos as int,
                        first_loc,
                        items_tree(list@),
                    ),
                invariant
                    tokens.wf(),
                    tokens.tokens == old(tokens).tokens,
                    ts == tokens.toks(),
                    tokens.pos > i,
                    i == old(tokens).pos,
                    ts == old(tokens).toks(),
                    0 <= i < ts.len(),
                    opening == first_loc,
                    first_loc == ts[i].1,
                    value_at(ts, i) == list_from(ts, i + 1, first_loc, seq![]),
                ensures
                    list_from(ts, i + 1, first_loc, seq![]) == Ok::<Option<(Tree, int)>, ErrView>(
                        Some((Tree::List(items_tree(list@)), tokens.pos as int)),
                    ),
                decreases tokens.tokens@.len() - tokens.pos,
            {
                let closing = match tokens.peek() {
                    Some(rt) => matches!(rt.inner, Token::RBrack),
                    None => false,
                };
                proof {
                    if tokens.pos < ts.len() {
                        assert(ts[tokens.pos as int] == tokens.tokens@[tokens.pos as int]@);
                    }
                }
                if closing {
                    tokens.next();
                    break ;
                }
                match next_value(tokens) {
                    Err(e) => {
                        return Err(e);
                    },
                    Ok(None) => {
                        return Err(GonError::UnclosedDelimiter(']', opening));
                    },
                    Ok(Some(v)) => {
                        let ghost before = items_tree(list@);
                        let ghost vt = v@;
                        list.push(v);
                        proof {
                            assert(items_tree(list@) =~= before.push(vt));
                        }
                        consume_optional_comma(tokens);
                    },
                }
            }
            Ok(Some(Value::List(list)))
        },
        t => Err(GonError::UnexpectedToken(t, first_loc)),
    }
}

/// Reads the key/value pair that comes next: `Ok(None)` where the tokens have run out.
fn next_key_value_pair(tokens: &mut TokenIter) -> (r: Result<Option<(String, Value)>, GonError>)
    requires
        old(tokens).wf(),
    ensures
        final(tokens).wf(),
        final(tokens).tokens == old(tokens).tokens,
        pair_step(r, final(tokens).pos as int) == pair_at(old(tokens).toks(), old(tokens).pos as int),
        r matches Ok(Some(_)) ==> final(tokens).pos > old(tokens).pos,
    decreases old(tokens).tokens@.len() - old(tokens).pos, 2int,
{
    let ghost ts = tokens.toks();
    let ghost i = tokens.pos as int;
    let (first, first_loc) = match tokens.peek() {
        None => {
            return Ok(None);
        },
        Some(rt) => (copy_token(&rt.inner), rt.loc),
    };
    proof {
        assert(ts[i] == tokens.tokens@[i]@);
    }
    tokens.next();
    let key = match first {
        Token::Sym(k) => k,
        Token::Str(k) => k,
        Token::Num(k) => k,
        t => {
            return Err(GonError::UnexpectedToken(t, first_loc));
        },
    };
    let colon = match tokens.peek() {
        Some(rt) => matches!(rt.inner, Token::Colon),
        None => false,
    };
    proof {
        if i + 1 < ts.len() {
            assert(ts[i + 1] == tokens.tokens@[i + 1]@);
        }
    }
    tokens.next();
    if !colon {
        return Err(GonError::MissingColon(key, tokens.loc()));
    }
    let colon_loc = tokens.loc();
    let no_value = match tokens.peek() {
        Some(rt) => matches!(rt.inner, Token::RBrace | Token::RBrack | Token::Colon | Token::Comma),
        None => false,
    };
    proof {
        if i + 2 < ts.len() {
            assert(ts[i + 2] == tokens.tokens@[i + 2]@);
        }
    }
    if no_value {
        tokens.next();
        return Err(GonError::MissingValue(key, tokens.loc()));
    }
    match next_value(tokens) {
        Err(e) => Err(e),
        Ok(None) => Err(GonError::MissingValue(key, colon_loc)),
        Ok(Some(v)) => Ok(Some((key, v))),
    }
}

/// Reads the one value that `tokens` hold.
pub fn parse(tokens: Vec<RichToken>) -> (r: Result<Value, GonError>)
    ensures
        parse_view(r) == parse_toks(toks_view(tokens@)),
{
    let mut iter = TokenIter::new(tokens);
    let value = match next_value(&mut iter) {
        Err(e) => {
            return Err(e);
        },
        Ok(None) => {
            return Err(GonError::NoValueErr);
        },
        Ok(Some(v)) => v,
    };
    let leftover = match iter.peek() {
        Some(rt) => Some((copy_token(&rt.inner), rt.loc)),
        None => None,
    };
    proof {
        if iter.pos < iter.tokens@.len() {
            assert(iter.toks()[iter.pos as int] == iter.tokens@[iter.pos as int]@);
        }
    }
    match leftover {
        Some((t, l)) => Err(GonError::LeftoverTokens(t, l)),
        None => Ok(value),
    }
}

/// Reads the one value that the GON text `src` holds.
pub fn parse_str(src: &str) -> (r: Result<Value, GonError>)
    ensures
        parse_view(r) == parse_text(src@),
{
    match tokenize(src) {
        Err(e) => Err(GonError::LexerErr(e)),
        Ok(tokens) => parse(tokens),
    }
}

} // verus!
