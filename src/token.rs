use vstd::prelude::*;
use vstd::std_specs::iter::IteratorSpec;

verus! {

broadcast use vstd::string::group_string_axioms;

/// A place in the source text: 1-based line and column, 0-based character offset.
#[derive(Clone, Copy, Debug, PartialEq, Eq, Structural)]
pub struct Loc {
    pub line: usize,
    pub col: usize,
    pub pos: usize,
}

/// A token of GON text. Whitespace and `//` comments separate tokens and are dropped.
#[derive(Debug, PartialEq, Eq)]
pub enum Token {
    Sym(String),
    Str(String),
    Num(String),
    LBrace,
    RBrace,
    LBrack,
    RBrack,
    Colon,
    Comma,
    Minus,
}

/// A token together with the place where it starts.
#[derive(Debug, PartialEq, Eq)]
pub struct RichToken {
    pub inner: Token,
    pub loc: Loc,
}

/// Why text could not be split into tokens.
#[derive(Clone, Copy, Debug, PartialEq, Eq, Structural)]
pub enum LexError {
    /// A character that starts no token.
    UnexpectedChar(char, Loc),
    /// A string literal, opened at the place given, that the text never closes.
    UnclosedString(Loc),
}

/// What a token is, over mathematical text.
pub enum Tok {
    Sym(Seq<char>),
    Str(Seq<char>),
    Num(Seq<char>),
    LBrace,
    RBrace,
    LBrack,
    RBrack,
    Colon,
    Comma,
    Minus,
}

impl View for Token {
    type V = Tok;

    open spec fn view(&self) -> Tok {
        match self {
            Token::Sym(s) => Tok::Sym(s@),
            Token::Str(s) => Tok::Str(s@),
            Token::Num(s) => Tok::Num(s@),
            Token::LBrace => Tok::LBrace,
            Token::RBrace => Tok::RBrace,
            Token::LBrack => Tok::LBrack,
            Token::RBrack => Tok::RBrack,
            Token::Colon => Tok::Colon,
            Token::Comma => Tok::Comma,
            Token::Minus => Tok::Minus,
        }
    }
}

impl View for RichToken {
    type V = (Tok, Loc);

    open spec fn view(&self) -> (Tok, Loc) {
        (self.inner@, self.loc)
    }
}

pub open spec fn toks_view(ts: Seq<RichToken>) -> Seq<(Tok, Loc)> {
    ts.map_values(|t: RichToken| t@)
}

pub open spec fn start_loc() -> Loc {
    Loc { line: 1, col: 1, pos: 0 }
}

/// `n + 1`, held at `usize::MAX`.
pub open spec fn bump(n: usize) -> usize {
    if n < usize::MAX {
        (n + 1) as usize
    } else {
        n
    }
}

/// The place just after character `c`, read at `l`. The counters stop at `usize::MAX`.
pub open spec fn step_loc(l: Loc, c: char) -> Loc {
    if c == '\n' {
        Loc { line: bump(l.line), col: 1, pos: bump(l.pos) }
    } else {
        Loc { line: l.line, col: bump(l.col), pos: bump(l.pos) }
    }
}

/// The place of offset `i` in `s`.
pub open spec fn loc_at(s: Seq<char>, i: int) -> Loc
    decreases i,
{
    if i <= 0 {
        start_loc()
    } else {
        step_loc(loc_at(s, i - 1), s[i - 1])
    }
}

pub open spec fn is_ws(c: char) -> bool {
    c == ' ' || c == '\t' || c == '\n' || c == '\r'
}

pub open spec fn is_digit(c: char) -> bool {
    '0' <= c <= '9'
}

pub open spec fn is_sym_start(c: char) -> bool {
    ('a' <= c <= 'z') || ('A' <= c <= 'Z') || c == '_'
}

pub open spec fn is_sym_char(c: char) -> bool {
    is_sym_start(c) || is_digit(c)
}

/// Whether the number that runs up to `j` goes on with `s[j]`: letters, digits, `_` and `.`,
/// and a sign right after an exponent mark.
pub open spec fn num_goes_on(s: Seq<char>, j: int) -> bool {
    is_sym_char(s[j]) || s[j] == '.' || ((s[j] == '+' || s[j] == '-') && j > 0 && (s[j - 1]
        == 'e' || s[j - 1] == 'E'))
}

pub open spec fn punct_tok(c: char) -> Option<Tok> {
    if c == '{' {
        Some(Tok::LBrace)
    } else if c == '}' {
        Some(Tok::RBrace)
    } else if c == '[' {
        Some(Tok::LBrack)
    } else if c == ']' {
        Some(Tok::RBrack)
    } else if c == ':' {
        Some(Tok::Colon)
    } else if c == ',' {
        Some(Tok::Comma)
    } else if c == '-' {
        Some(Tok::Minus)
    } else {
        None
    }
}

/// End of the symbol characters that start at `j`.
pub open spec fn sym_end(s: Seq<char>, j: int) -> int
    decreases s.len() - j,
{
    if 0 <= j < s.len() && is_sym_char(s[j]) {
        sym_end(s, j + 1)
    } else {
        j
    }
}

/// End of the number characters that start at `j`.
pub open spec fn num_end(s: Seq<char>, j: int) -> int
    decreases s.len() - j,
{
    if 0 <= j < s.len() && num_goes_on(s, j) {
        num_end(s, j + 1)
    } else {
        j
    }
}

/// Offset of the first line break at or after `j`, or the end of `s`.
pub open spec fn line_end(s: Seq<char>, j: int) -> int
    decreases s.len() - j,
{
    if 0 <= j < s.len() && s[j] != '\n' {
        line_end(s, j + 1)
    } else {
        j
    }
}

/// The character that `\c` stands for inside a string literal.
pub open spec fn unescape(c: char) -> char {
    if c == 'n' {
        '\n'
    } else if c == 't' {
        '\t'
    } else if c == 'r' {
        '\r'
    } else {
        c
    }
}

/// Reads the rest of a string literal from `j`, after `acc` has been read:
/// its text and the offset after the closing quote, or `None` where it is never closed.
pub open spec fn scan_str(s: Seq<char>, j: int, acc: Seq<char>) -> Option<(Seq<char>, int)>
    decreases s.len() - j,
{
    if j < 0 || j >= s.len() {
        None
    } else if s[j] == '"' {
        Some((acc, j + 1))
    } else if s[j] == '\\' {
        if j + 1 >= s.len() {
            None
        } else {
            scan_str(s, j + 2, acc.push(unescape(s[j + 1])))
        }
    } else {
        scan_str(s, j + 1, acc.push(s[j]))
    }
}

pub open spec fn cons_tok(t: (Tok, Loc), rest: Result<Seq<(Tok, Loc)>, LexError>) -> Result<
    Seq<(Tok, Loc)>,
    LexError,
> {
    match rest {
        Ok(ts) => Ok(seq![t] + ts),
        Err(e) => Err(e),
    }
}

/// The tokens of `s` from offset `i` on.
pub open spec fn lex_from(s: Seq<char>, i: int) -> Result<Seq<(Tok, Loc)>, LexError>
    decreases s.len() - i,
{
    if i < 0 || i >= s.len() {
        Ok(seq![])
    } else {
        let c = s[i];
        let l = loc_at(s, i);
        if is_ws(c) {
            lex_from(s, i + 1)
        } else if c == '/' && i + 1 < s.len() && s[i + 1] == '/' {
            let e = line_end(s, i + 2);
            if i < e <= s.len() {
                lex_from(s, e)
            } else {
                Ok(seq![])
            }
        } else if punct_tok(c) is Some {
            cons_tok((punct_tok(c)->0, l), lex_from(s, i + 1))
        } else if c == '"' {
            match scan_str(s, i + 1, seq![]) {
                None => Err(LexError::UnclosedString(l)),
                Some((t, e)) => if i < e <= s.len() {
                    cons_tok((Tok::Str(t), l), lex_from(s, e))
                } else {
                    Ok(seq![])
                },
            }
        } else if is_digit(c) {
            let e = num_end(s, i + 1);
            if i < e <= s.len() {
                cons_tok((Tok::Num(s.subrange(i, e)), l), lex_from(s, e))
            } else {
                Ok(seq![])
            }
        } else if is_sym_start(c) {
            let e = sym_end(s, i + 1);
            if i < e <= s.len() {
                cons_tok((Tok::Sym(s.subrange(i, e)), l), lex_from(s, e))
            } else {
                Ok(seq![])
            }
        } else {
            Err(LexError::UnexpectedChar(c, l))
        }
    }
}

/// The tokens of `s`.
pub open spec fn lex(s: Seq<char>) -> Result<Seq<(Tok, Loc)>, LexError> {
    lex_from(s, 0)
}

/// Relies on `String::push`: appends one character.
#[verifier::external_body]
pub(crate) fn push_char(s: &mut String, c: char)
    ensures
        final(s)@ == old(s)@.push(c),
{
    s.push(c);
}

/// The characters of `s`, in order.
pub fn chars_of(s: &str) -> (r: Vec<char>)
    ensures
        r@ == s@,
{
    let mut out: Vec<char> = Vec::new();
    let mut it = s.chars();
    loop
        invariant
            it.remaining() == s@.skip(out@.len() as int),
            out@ == s@.take(out@.len() as int),
            out@.len() <= s@.len(),
        ensures
            out@ == s@,
        decreases s@.len() - out@.len(),
    {
        match it.next() {
            Some(c) => {
                out.push(c);
            },
            None => {
                proof {
                    assert(out@ =~= s@);
                }
                break;
            },
        }
    }
    out
}

/// The text of `s[from..to]` as a `String`.
pub fn string_of(s: &Vec<char>, from: usize, to: usize) -> (r: String)
    requires
        from <= to <= s@.len(),
    ensures
        r@ == s@.subrange(from as int, to as int),
{
    let mut r = String::new();
    let mut i = from;
    while i < to
        invariant
            from <= i <= to <= s@.len(),
            r@ == s@.subrange(from as int, i as int),
        decreases to - i,
    {
        push_char(&mut r, s[i]);
        proof {
            assert(s@.subrange(from as int, i + 1) =~= s@.subrange(from as int, i as int).push(
                s@[i as int],
            ));
        }
        i = i + 1;
    }
    r
}

fn bump_exec(n: usize) -> (r: usize)
    ensures
        r == bump(n),
{
    if n < usize::MAX {
        n + 1
    } else {
        n
    }
}

/// The place after `c`, read at `l`.
fn step(l: Loc, c: char) -> (r: Loc)
    ensures
        r == step_loc(l, c),
{
    if c == '\n' {
        Loc { line: bump_exec(l.line), col: 1, pos: bump_exec(l.pos) }
    } else {
        Loc { line: l.line, col: bump_exec(l.col), pos: bump_exec(l.pos) }
    }
}

fn punct(c: char) -> (r: Option<Token>)
    ensures
        match r {
            Some(t) => punct_tok(c) == Some(t@),
            None => punct_tok(c) is None,
        },
{
    if c == '{' {
        Some(Token::LBrace)
    } else if c == '}' {
        Some(Token::RBrace)
    } else if c == '[' {
        Some(Token::LBrack)
    } else if c == ']' {
        Some(Token::RBrack)
    } else if c == ':' {
        Some(Token::Colon)
    } else if c == ',' {
        Some(Token::Comma)
    } else if c == '-' {
        Some(Token::Minus)
    } else {
        None
    }
}

proof fn lemma_sym_end_ge(s: Seq<char>, j: int)
    ensures
        sym_end(s, j) >= j,
        0 <= j <= s.len() ==> sym_end(s, j) <= s.len(),
    decreases s.len() - j,
{
    if 0 <= j < s.len() && is_sym_char(s[j]) {
        lemma_sym_end_ge(s, j + 1);
    }
}

proof fn lemma_num_end_ge(s: Seq<char>, j: int)
    ensures
        num_end(s, j) >= j,
        0 <= j <= s.len() ==> num_end(s, j) <= s.len(),
    decreases s.len() - j,
{
    if 0 <= j < s.len() && num_goes_on(s, j) {
        lemma_num_end_ge(s, j + 1);
    }
}

proof fn lemma_line_end_ge(s: Seq<char>, j: int)
    ensures
        line_end(s, j) >= j,
        0 <= j <= s.len() ==> line_end(s, j) <= s.len(),
    decreases s.len() - j,
{
    if 0 <= j < s.len() && s[j] != '\n' {
        lemma_line_end_ge(s, j + 1);
    }
}

proof fn lemma_scan_str_end(s: Seq<char>, j: int, acc: Seq<char>)
    ensures
        scan_str(s, j, acc) matches Some((t, e)) ==> j < e <= s.len(),
    decreases s.len() - j,
{
    if 0 <= j < s.len() && s[j] != '"' {
        if s[j] == '\\' {
            if j + 1 < s.len() {
                lemma_scan_str_end(s, j + 2, acc.push(unescape(s[j + 1])));
            }
        } else {
            lemma_scan_str_end(s, j + 1, acc.push(s[j]));
        }
    }
}

/// Moves from `j` to `sym_end(s, j)`, keeping the place up to date.
fn sym_run(s: &Vec<char>, j: usize, l: Loc) -> (r: (usize, Loc))
    requires
        j <= s@.len(),
        l == loc_at(s@, j as int),
    ensures
        r.0 == sym_end(s@, j as int),
        r.1 == loc_at(s@, r.0 as int),
{
    let mut k = j;
    let mut loc = l;
    while k < s.len() && (('a' <= s[k] && s[k] <= 'z') || ('A' <= s[k] && s[k] <= 'Z') || s[k]
        == '_' || ('0' <= s[k] && s[k] <= '9'))
        invariant
            j <= k <= s@.len(),
            loc == loc_at(s@, k as int),
            sym_end(s@, j as int) == sym_end(s@, k as int),
        decreases s@.len() - k,
    {
        loc = step(loc, s[k]);
        k = k + 1;
    }
    (k, loc)
}

/// Moves from `j` to `num_end(s, j)`, keeping the place up to date.
fn num_run(s: &Vec<char>, j: usize, l: Loc) -> (r: (usize, Loc))
    requires
        0 < j <= s@.len(),
        l == loc_at(s@, j as int),
    ensures
        r.0 == num_end(s@, j as int),
        r.1 == loc_at(s@, r.0 as int),
{
    let mut k = j;
    let mut loc = l;
    while k < s.len() && (('a' <= s[k] && s[k] <= 'z') || ('A' <= s[k] && s[k] <= 'Z') || s[k]
        == '_' || ('0' <= s[k] && s[k] <= '9') || s[k] == '.' || ((s[k] == '+' || s[k] == '-')
        && (s[k - 1] == 'e' || s[k - 1] == 'E')))
        invariant
            0 < j <= k <= s@.len(),
            loc == loc_at(s@, k as int),
            num_end(s@, j as int) == num_end(s@, k as int),
        decreases s@.len() - k,
    {
        loc = step(loc, s[k]);
        k = k + 1;
    }
    (k, loc)
}

/// Moves from `j` to `line_end(s, j)`, keeping the place up to date.
fn comment_run(s: &Vec<char>, j: usize, l: Loc) -> (r: (usize, Loc))
    requires
        j <= s@.len(),
        l == loc_at(s@, j as int),
    ensures
        r.0 == line_end(s@, j as int),
        r.1 == loc_at(s@, r.0 as int),
{
    let mut k = j;
    let mut loc = l;
    while k < s.len() && s[k] != '\n'
        invariant
            j <= k <= s@.len(),
            loc == loc_at(s@, k as int),
            line_end(s@, j as int) == line_end(s@, k as int),
        decreases s@.len() - k,
    {
        loc = step(loc, s[k]);
        k = k + 1;
    }
    (k, loc)
}

/// Reads a string literal whose text starts at `j`: its text, the offset after
/// the closing quote and the place there; `None` where it is never closed.
fn str_run(s: &Vec<char>, j: usize, l: Loc) -> (r: Option<(String, usize, Loc)>)
    requires
        j <= s@.len(),
        l == loc_at(s@, j as int),
    ensures
        match r {
            Some((t, e, le)) => scan_str(s@, j as int, seq![]) == Some((t@, e as int)) && le
                == loc_at(s@, e as int),
            None => scan_str(s@, j as int, seq![]) is None,
        },
{
    let mut text = String::new();
    let mut k = j;
    let mut loc = l;
    while k < s.len()
        invariant
            j <= k <= s@.len(),
            loc == loc_at(s@, k as int),
            scan_str(s@, j as int, seq![]) == scan_str(s@, k as int, text@),
        decreases s@.len() - k,
    {
        let c = s[k];
        if c == '"' {
            loc = step(loc, c);
            return Some((text, k + 1, loc));
        } else if c == '\\' {
            if k + 1 >= s.len() {
                return None;
            }
            let d = s[k + 1];
            let u = if d == 'n' {
                '\n'
            } else if d == 't' {
                '\t'
            } else if d == 'r' {
                '\r'
            } else {
                d
            };
            push_char(&mut text, u);
            loc = step(loc, c);
            loc = step(loc, d);
            proof {
                assert(loc_at(s@, k + 1) == step_loc(loc_at(s@, k as int), s@[k as int]));
                assert(loc_at(s@, k + 2) == step_loc(loc_at(s@, k + 1), s@[k + 1]));
            }
            k = k + 2;
        } else {
            push_char(&mut text, c);
            loc = step(loc, c);
            k = k + 1;
        }
    }
    None
}

pub open spec fn prepend_all(pre: Seq<(Tok, Loc)>, rest: Result<Seq<(Tok, Loc)>, LexError>) -> Result<
    Seq<(Tok, Loc)>,
    LexError,
> {
    match rest {
        Ok(ts) => Ok(pre + ts),
        Err(e) => Err(e),
    }
}

proof fn lemma_prepend_cons(pre: Seq<(Tok, Loc)>, t: (Tok, Loc), rest: Result<Seq<(Tok, Loc)>, LexError>)
    ensures
        prepend_all(pre, cons_tok(t, rest)) == prepend_all(pre.push(t), rest),
{
    if let Ok(ts) = rest {
        assert(pre + (seq![t] + ts) =~= pre.push(t) + ts);
    }
}

/// Splits `src` into tokens: exactly `lex(src@)`.
pub fn tokenize(src: &str) -> (r: Result<Vec<RichToken>, LexError>)
    ensures
        match r {
            Ok(ts) => lex(src@) == Ok::<Seq<(Tok, Loc)>, LexError>(toks_view(ts@)),
            Err(e) => lex(src@) == Err::<Seq<(Tok, Loc)>, LexError>(e),
        },
{
    let s = chars_of(src);
    let n = s.len();
    let mut out: Vec<RichToken> = Vec::new();
    let mut i: usize = 0;
    let mut loc = Loc { line: 1, col: 1, pos: 0 };
    while i < n
        invariant
            i <= n == s@.len(),
            s@ == src@,
            loc == loc_at(s@, i as int),
            lex(s@) == prepend_all(toks_view(out@), lex_from(s@, i as int)),
        decreases n - i,
    {
        let c = s[i];
        let here = loc;
        if c == ' ' || c == '\t' || c == '\n' || c == '\r' {
            loc = step(loc, c);
            i = i + 1;
        } else if c == '/' && i + 1 < n && s[i + 1] == '/' {
            let ghost i0 = i as int;
            loc = step(loc, c);
            loc = step(loc, '/');
            let (e, le) = comment_run(&s, i + 2, loc);
            proof {
                lemma_line_end_ge(s@, i0 + 2);
            }
            i = e;
            loc = le;
        } else if let Some(t) = punct(c) {
            let ghost pre = toks_view(out@);
            out.push(RichToken { inner: t, loc: here });
            proof {
                lemma_prepend_cons(pre, (t@, here), lex_from(s@, i + 1));
                assert(toks_view(out@) =~= pre.push((t@, here)));
            }
            loc = step(loc, c);
            i = i + 1;
        } else if c == '"' {
            let after = step(loc, c);
            match str_run(&s, i + 1, after) {
                None => {
                    return Err(LexError::UnclosedString(here));
                },
                Some((text, e, le)) => {
                    let ghost pre = toks_view(out@);
                    let ghost tv = Tok::Str(text@);
                    proof {
                        lemma_scan_str_end(s@, i + 1, seq![]);
                    }
                    out.push(RichToken { inner: Token::Str(text), loc: here });
                    proof {
                        lemma_prepend_cons(pre, (tv, here), lex_from(s@, e as int));
                        assert(toks_view(out@) =~= pre.push((tv, here)));
                    }
                    i = e;
                    loc = le;
                },
            }
        } else if '0' <= c && c <= '9' {
            let after = step(loc, c);
            let (e, le) = num_run(&s, i + 1, after);
            proof {
                lemma_num_end_ge(s@, i + 1);
            }
            let text = string_of(&s, i, e);
            let ghost pre = toks_view(out@);
            let ghost tv = Tok::Num(text@);
            out.push(RichToken { inner: Token::Num(text), loc: here });
            proof {
                lemma_prepend_cons(pre, (tv, here), lex_from(s@, e as int));
                assert(toks_view(out@) =~= pre.push((tv, here)));
            }
            i = e;
            loc = le;
        } else if ('a' <= c && c <= 'z') || ('A' <= c && c <= 'Z') || c == '_' {
            let after = step(loc, c);
            let (e, le) = sym_run(&s, i + 1, after);
            proof {
                lemma_sym_end_ge(s@, i + 1);
            }
            let text = string_of(&s, i, e);
            let ghost pre = toks_view(out@);
            let ghost tv = Tok::Sym(text@);
            out.push(RichToken { inner: Token::Sym(text), loc: here });
            proof {
                lemma_prepend_cons(pre, (tv, here), lex_from(s@, e as int));
                assert(toks_view(out@) =~= pre.push((tv, here)));
            }
            i = e;
            loc = le;
        } else {
            return Err(LexError::UnexpectedChar(c, here));
        }
    }
    proof {
        assert(toks_view(out@) + seq![] =~= toks_view(out@));
    }
    Ok(out)
}

} // verus!
