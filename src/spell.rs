use vstd::prelude::*;

use crate::token::{chars_of, is_ws, lex, push_char, tokenize, Tok, Token};
use crate::value::{items_tree, pairs_tree, tree_of, SpellConfig, Tree, Value};

verus! {

/// The characters that stand for `c` between the quotes of a string literal.
pub open spec fn escape(c: char) -> Seq<char> {
    if c == '"' {
        seq!['\\', '"']
    } else if c == '\\' {
        seq!['\\', '\\']
    } else {
        seq![c]
    }
}

/// `t` with every quote and backslash escaped.
pub open spec fn escaped(t: Seq<char>) -> Seq<char>
    decreases t.len(),
{
    if t.len() == 0 {
        Seq::empty()
    } else {
        escaped(t.drop_last()) + escape(t.last())
    }
}

/// The string literal that reads back as `t`.
pub open spec fn quoted(t: Seq<char>) -> Seq<char> {
    seq!['"'] + escaped(t) + seq!['"']
}

/// A string value as a literal: quoted, with the `r` marker where it is raw.
pub open spec fn literal(t: Seq<char>, raw: bool) -> Seq<char> {
    if raw {
        seq!['r'] + quoted(t)
    } else {
        quoted(t)
    }
}

/// A key is written bare only where it reads back as exactly one symbol or number token
/// that is the whole key.
pub open spec fn needs_quoting(k: Seq<char>) -> bool {
    match lex(k) {
        Ok(ts) => !(ts.len() == 1 && (ts[0].0 == Tok::Sym(k) || ts[0].0 == Tok::Num(k))),
        Err(_) => true,
    }
}

/// How a key is written by both spellings.
pub open spec fn key_spelling(k: Seq<char>) -> Seq<char> {
    if needs_quoting(k) {
        quoted(k)
    } else {
        k
    }
}

pub open spec fn scalar_spelling(t: Tree) -> Seq<char> {
    match t {
        Tree::Null => "None"@,
        Tree::Bool(b) => if b {
            "true"@
        } else {
            "false"@
        },
        Tree::Num(s) => s,
        Tree::Str(s, raw) => literal(s, raw),
        _ => Seq::empty(),
    }
}

/// The shortest spelling of `t`: no optional whitespace, commas only between entries.
pub open spec fn min_spelling(t: Tree) -> Seq<char>
    decreases t,
{
    match t {
        Tree::Obj(ps) => seq!['{'] + min_pairs(ps) + seq!['}'],
        Tree::List(xs) => seq!['['] + min_items(xs) + seq![']'],
        _ => scalar_spelling(t),
    }
}

pub open spec fn min_pairs(ps: Seq<(Seq<char>, Tree)>) -> Seq<char>
    decreases ps,
{
    if ps.len() == 0 {
        Seq::empty()
    } else {
        let p = ps.last();
        let entry = key_spelling(p.0) + seq![':'] + min_spelling(p.1);
        if ps.len() == 1 {
            entry
        } else {
            min_pairs(ps.drop_last()) + seq![','] + entry
        }
    }
}

pub open spec fn min_items(xs: Seq<Tree>) -> Seq<char>
    decreases xs,
{
    if xs.len() == 0 {
        Seq::empty()
    } else if xs.len() == 1 {
        min_spelling(xs.last())
    } else {
        min_items(xs.drop_last()) + seq![','] + min_spelling(xs.last())
    }
}

/// `n` copies of `c`.
pub open spec fn indent_str(n: nat, c: char) -> Seq<char> {
    Seq::new(n, |i: int| c)
}

/// `a + b`, held at `usize::MAX`.
pub open spec fn sat_add(a: usize, b: usize) -> usize {
    if a + b <= usize::MAX {
        (a + b) as usize
    } else {
        usize::MAX
    }
}

/// Every run of two or more whitespace characters (space, tab, CR, LF), taken
/// leftmost first, replaced by one space.
pub open spec fn squashed(s: Seq<char>) -> Seq<char>
    decreases s.len(),
{
    if s.len() == 0 {
        Seq::empty()
    } else if s.len() >= 2 && is_ws(s[0]) && is_ws(s[1]) {
        let j = ws_run(s, 0);
        if 0 < j <= s.len() {
            seq![' '] + squashed(s.skip(j))
        } else {
            Seq::empty()
        }
    } else {
        seq![s[0]] + squashed(s.skip(1))
    }
}

/// The length of the run of whitespace characters at the start of `s.skip(j)`, at least 2
/// where two stand there.
pub open spec fn ws_run(s: Seq<char>, j: int) -> int
    decreases s.len() - j,
{
    if 0 <= j < s.len() && is_ws(s[j]) {
        ws_run(s, j + 1)
    } else {
        j
    }
}

/// What `textwrap::wrap` makes of `text` at `width` columns, with later lines starting with
/// `indent`.
pub uninterp spec fn wrapped(text: Seq<char>, width: nat, indent: Seq<char>) -> Seq<Seq<char>>;

/// `lines`, with a line break between each two.
pub open spec fn join_lines(lines: Seq<Seq<char>>) -> Seq<char>
    decreases lines.len(),
{
    if lines.len() == 0 {
        Seq::empty()
    } else if lines.len() == 1 {
        lines[0]
    } else {
        join_lines(lines.drop_last()) + seq!['\n'] + lines.last()
    }
}

/// A string value as the pretty spelling writes it at nesting column `ind`.
pub open spec fn pretty_str(s: Seq<char>, raw: bool, ind: usize, cfg: SpellConfig) -> Seq<char> {
    if raw || cfg.max_width == 0 {
        literal(s, raw)
    } else {
        join_lines(
            wrapped(
                squashed(quoted(s)),
                cfg.max_width as nat,
                indent_str(sat_add(ind, cfg.indent_amount) as nat, cfg.indent_char),
            ),
        )
    }
}

/// Whether a list is written on one line: at most five entries, none an object or a list.
pub open spec fn one_line(xs: Seq<Tree>) -> bool {
    xs.len() <= 5 && forall|i: int| 0 <= i < xs.len() ==> !(#[trigger] xs[i] is Obj || xs[i] is List)
}

/// The pretty spelling of `t`, written where the nesting column is `ind`.
pub open spec fn pretty(t: Tree, ind: usize, cfg: SpellConfig) -> Seq<char>
    decreases t,
{
    match t {
        Tree::Str(s, raw) => pretty_str(s, raw, ind, cfg),
        Tree::Obj(ps) => seq!['{', '\n'] + pretty_pairs(ps, ind, cfg) + indent_str(
            ind as nat,
            cfg.indent_char,
        ) + seq!['}'],
        Tree::List(xs) => if xs.len() == 0 {
            seq!['[', ']']
        } else if one_line(xs) {
            seq!['['] + inline_items(xs, cfg) + seq![']']
        } else {
            seq!['[', '\n'] + pretty_items(xs, ind, cfg) + indent_str(ind as nat, cfg.indent_char)
                + seq![']']
        },
        _ => scalar_spelling(t),
    }
}

/// What ends entry `i` of `n` in a multi-line object or list.
pub open spec fn entry_end(i: int, n: int, cfg: SpellConfig) -> Seq<char> {
    if !cfg.trailing_commas && i == n - 1 {
        seq!['\n']
    } else {
        seq![',', '\n']
    }
}

/// The lines of the pairs of a multi-line object at nesting column `ind`.
pub open spec fn pretty_pairs(ps: Seq<(Seq<char>, Tree)>, ind: usize, cfg: SpellConfig) -> Seq<char>
    decreases ps,
{
    if ps.len() == 0 {
        Seq::empty()
    } else {
        pretty_pairs_upto(ps, ps.len() as int, ind, cfg)
    }
}

/// The first `n` pair lines of an object with pairs `ps`.
pub open spec fn pretty_pairs_upto(
    ps: Seq<(Seq<char>, Tree)>,
    n: int,
    ind: usize,
    cfg: SpellConfig,
) -> Seq<char>
    decreases ps, n,
{
    if n <= 0 || n > ps.len() {
        Seq::empty()
    } else {
        let inner = sat_add(ind, cfg.indent_amount);
        let p = ps[n - 1];
        pretty_pairs_upto(ps, n - 1, ind, cfg) + indent_str(inner as nat, cfg.indent_char)
            + key_spelling(p.0) + seq![':', ' '] + pretty(p.1, inner, cfg) + entry_end(
            n - 1,
            ps.len() as int,
            cfg,
        )
    }
}

/// The lines of the entries of a multi-line list at nesting column `ind`.
pub open spec fn pretty_items(xs: Seq<Tree>, ind: usize, cfg: SpellConfig) -> Seq<char>
    decreases xs,
{
    pretty_items_upto(xs, xs.len() as int, ind, cfg)
}

/// The first `n` entry lines of a multi-line list with entries `xs`.
pub open spec fn pretty_items_upto(xs: Seq<Tree>, n: int, ind: usize, cfg: SpellConfig) -> Seq<
    char,
>
    decreases xs, n,
{
    if n <= 0 || n > xs.len() {
        Seq::empty()
    } else {
        let inner = sat_add(ind, cfg.indent_amount);
        pretty_items_upto(xs, n - 1, ind, cfg) + indent_str(inner as nat, cfg.indent_char)
            + pretty(xs[n - 1], inner, cfg) + entry_end(n - 1, xs.len() as int, cfg)
    }
}

/// The entries of a one-line list, separated by `, `.
pub open spec fn inline_items(xs: Seq<Tree>, cfg: SpellConfig) -> Seq<char>
    decreases xs,
{
    inline_items_upto(xs, xs.len() as int, cfg)
}

pub open spec fn inline_items_upto(xs: Seq<Tree>, n: int, cfg: SpellConfig) -> Seq<char>
    decreases xs, n,
{
    if n <= 0 || n > xs.len() {
        Seq::empty()
    } else if n == 1 {
        pretty(xs[0], 0, cfg)
    } else {
        inline_items_upto(xs, n - 1, cfg) + seq![',', ' '] + pretty(xs[n - 1], 0, cfg)
    }
}

/// Relies on `regex::Regex::replace_all` with the pattern `[ \t\r\n]{2,}` and the replacement
/// `" "`: matches are found leftmost first and are greedy, so each maximal run of two or more
/// of these characters becomes one space.
#[verifier::external_body]
fn squash_whitespace(input: &str) -> (r: String)
    ensures
        r@ == squashed(input@),
{
    let re = regex::Regex::new("[ \t\r\n]{2,}").unwrap();
    re.replace_all(input, " ").into_owned()
}

/// Relies on `textwrap::wrap` with `Options::new(width).subsequent_indent(indent)`: the lines
/// that `text` is wrapped into.
#[verifier::external_body]
fn wrap_lines(text: &str, width: usize, indent: &str) -> (r: Vec<String>)
    requires
        width > 0,
    ensures
        r@.map_values(|l: String| l@) == wrapped(text@, width as nat, indent@),
{
    let options = textwrap::Options::new(width).subsequent_indent(indent);
    textwrap::wrap(text, options).into_iter().map(|l| l.into_owned()).collect()
}

/// Appends the string literal that reads back as `t`.
fn push_quoted(buf: &mut String, t: &str)
    ensures
        final(buf)@ == old(buf)@ + quoted(t@),
{
    let ghost start = buf@;
    let cs = chars_of(t);
    push_char(buf, '"');
    let mut i: usize = 0;
    while i < cs.len()
        invariant
            i <= cs@.len(),
            cs@ == t@,
            buf@ == start + seq!['"'] + escaped(cs@.take(i as int)),
        decreases cs@.len() - i,
    {
        let c = cs[i];
        if c == '"' || c == '\\' {
            push_char(buf, '\\');
        }
        push_char(buf, c);
        proof {
            let tk = cs@.take(i + 1);
            assert(tk.drop_last() =~= cs@.take(i as int));
            assert(escaped(tk) == escaped(cs@.take(i as int)) + escape(c));
            assert(buf@ =~= start + seq!['"'] + escaped(tk));
        }
        i = i + 1;
    }
    push_char(buf, '"');
    proof {
        assert(cs@.take(cs@.len() as int) =~= cs@);
        assert(buf@ =~= start + quoted(t@));
    }
}

/// The string literal that reads back as `t`.
pub fn quote(t: &str) -> (r: String)
    ensures
        r@ == quoted(t@),
{
    let mut r = String::new();
    push_quoted(&mut r, t);
    proof {
        assert(r@ =~= quoted(t@));
    }
    r
}

/// Whether `key` has to be quoted to read back as itself.
pub fn key_needs_quoting(key: &str) -> (r: bool)
    ensures
        r == needs_quoting(key@),
{
    match tokenize(key) {
        Ok(tokens) => {
            if tokens.len() != 1 {
                return true;
            }
            let whole = String::from_str(key);
            let bare = match &tokens[0].inner {
                Token::Sym(s) => *s == whole,
                Token::Num(s) => *s == whole,
                _ => false,
            };
            proof {
                assert(crate::token::toks_view(tokens@)[0] == tokens@[0]@);
            }
            !bare
        },
        Err(_) => true,
    }
}

/// Appends `key` as both spellings write it.
fn push_key(buf: &mut String, key: &String)
    ensures
        final(buf)@ == old(buf)@ + key_spelling(key@),
{
    if key_needs_quoting(key.as_str()) {
        push_quoted(buf, key.as_str());
    } else {
        buf.append(key.as_str());
    }
}

/// `amount` copies of the configured indentation character.
pub fn gen_indent(amount: usize, config: &SpellConfig) -> (r: String)
    ensures
        r@ == indent_str(amount as nat, config.indent_char),
{
    let mut r = String::new();
    apply_indent(&mut r, amount, config);
    proof {
        assert(r@ =~= indent_str(amount as nat, config.indent_char));
    }
    r
}

/// Appends `amount` copies of the configured indentation character.
pub fn apply_indent(buf: &mut String, amount: usize, config: &SpellConfig)
    ensures
        final(buf)@ == old(buf)@ + indent_str(amount as nat, config.indent_char),
{
    let ghost start = buf@;
    let mut i: usize = 0;
    while i < amount
        invariant
            i <= amount,
            buf@ == start + indent_str(i as nat, config.indent_char),
        decreases amount - i,
    {
        push_char(buf, config.indent_char);
        proof {
            assert(indent_str((i + 1) as nat, config.indent_char) =~= indent_str(
                i as nat,
                config.indent_char,
            ).push(config.indent_char));
        }
        i = i + 1;
    }
}

fn sat_add_exec(a: usize, b: usize) -> (r: usize)
    ensures
        r == sat_add(a, b),
{
    if a <= usize::MAX - b {
        a + b
    } else {
        usize::MAX
    }
}

impl Value {
    /// The shortest text that reads back as this value.
    pub fn min_spell(&self) -> (r: String)
        ensures
            r@ == min_spelling(self@),
        decreases self,
    {
        match self {
            Value::Null => String::from_str("None"),
            Value::Str { text, raw } => {
                let mut r = String::new();
                if *raw {
                    push_char(&mut r, 'r');
                }
                push_quoted(&mut r, text.as_str());
                proof {
                    assert(r@ =~= literal(text@, *raw));
                }
                r
            },
            Value::Num(t) => String::from_str(t.as_str()),
            Value::Bool(b) => if *b {
                String::from_str("true")
            } else {
                String::from_str("false")
            },
            Value::Obj(o) => {
                let ghost ps = pairs_tree(o.pairs@);
                let mut spelling = String::new();
                push_char(&mut spelling, '{');
                let mut i: usize = 0;
                while i < o.pairs.len()
                    invariant
                        i <= o.pairs@.len(),
                        *self == Value::Obj(*o),
                        ps == pairs_tree(o.pairs@),
                        spelling@ == seq!['{'] + min_pairs(ps.take(i as int)),
                    decreases o.pairs@.len() - i,
                {
                    let ghost before = spelling@;
                    let k = &o.pairs[i].0;
                    let v = &o.pairs[i].1;
                    proof {
                        assert(decreases_to!(*self => (*self)->Obj_0));
                        assert(decreases_to!(*o => o.pairs));
                        assert(decreases_to!(o.pairs => o.pairs@));
                        assert(decreases_to!(o.pairs@ => o.pairs@[i as int]));
                        assert(decreases_to!(o.pairs@[i as int] => o.pairs@[i as int].1));
                    }
                    if i > 0 {
                        push_char(&mut spelling, ',');
                    }
                    push_key(&mut spelling, k);
                    push_char(&mut spelling, ':');
                    let inner = v.min_spell();
                    spelling.append(inner.as_str());
                    proof {
                        let tk = ps.take(i + 1);
                        assert(tk.drop_last() =~= ps.take(i as int));
                        assert(tk.last() == ps[i as int]);
                        assert(ps[i as int] == (k@, v@));
                        if i == 0 {
                            assert(ps.take(0) =~= Seq::<(Seq<char>, Tree)>::empty());
                        }
                        assert(spelling@ =~= seq!['{'] + min_pairs(tk));
                    }
                    i = i + 1;
                }
                push_char(&mut spelling, '}');
                proof {
                    assert(ps.take(o.pairs@.len() as int) =~= ps);
                    assert(spelling@ =~= min_spelling(self@));
                }
                spelling
            },
            Value::List(xs) => {
                let ghost ts = items_tree(xs@);
                let mut spelling = String::new();
                push_char(&mut spelling, '[');
                let mut i: usize = 0;
                while i < xs.len()
                    invariant
                        i <= xs@.len(),
                        *self == Value::List(*xs),
                        ts == items_tree(xs@),
                        spelling@ == seq!['['] + min_items(ts.take(i as int)),
                    decreases xs@.len() - i,
                {
                    let v = &xs[i];
                    proof {
                        assert(decreases_to!(*self => (*self)->List_0));
                        assert(decreases_to!(*xs => xs@));
                        assert(decreases_to!(xs@ => xs@[i as int]));
                    }
                    if i > 0 {
                        push_char(&mut spelling, ',');
                    }
                    let inner = v.min_spell();
                    spelling.append(inner.as_str());
                    proof {
                        let tk = ts.take(i + 1);
                        assert(tk.drop_last() =~= ts.take(i as int));
                        assert(tk.last() == ts[i as int]);
                        if i == 0 {
                            assert(ts.take(0) =~= Seq::<Tree>::empty());
                        }
                        assert(spelling@ =~= seq!['['] + min_items(tk));
                    }
                    i = i + 1;
                }
                push_char(&mut spelling, ']');
                proof {
                    assert(ts.take(xs@.len() as int) =~= ts);
                    assert(spelling@ =~= min_spelling(self@));
                }
                spelling
            },
        }
    }
}

/// Appends `lines`, with a line break between each two: how the pretty spelling writes the
/// lines that a string literal was wrapped into.
pub fn push_lines(buf: &mut String, lines: &Vec<String>)
    ensures
        final(buf)@ == old(buf)@ + join_lines(lines@.map_values(|l: String| l@)),
{
    let ghost start = buf@;
    let ghost ls = lines@.map_values(|l: String| l@);
    let mut i: usize = 0;
    while i < lines.len()
        invariant
            i <= lines@.len(),
            ls == lines@.map_values(|l: String| l@),
            buf@ == start + join_lines(ls.take(i as int)),
        decreases lines@.len() - i,
    {
        if i > 0 {
            push_char(buf, '\n');
        }
        buf.append(lines[i].as_str());
        proof {
            let tk = ls.take(i + 1);
            assert(tk.drop_last() =~= ls.take(i as int));
            assert(tk.last() == lines@[i as int]@);
            if i == 0 {
                assert(tk[0] == lines@[0]@);
            }
            assert(buf@ =~= start + join_lines(tk));
        }
        i = i + 1;
    }
    proof {
        assert(ls.take(lines@.len() as int) =~= ls);
    }
}

/// Whether the list `xs` is written on one line.
fn fits_one_line(xs: &Vec<Value>) -> (r: bool)
    ensures
        r == one_line(items_tree(xs@)),
{
    let ghost ts = items_tree(xs@);
    if xs.len() > 5 {
        return false;
    }
    let mut k: usize = 0;
    while k < xs.len()
        invariant
            k <= xs@.len() <= 5,
            ts == items_tree(xs@),
            forall|j: int| 0 <= j < k ==> !(#[trigger] ts[j] is Obj || ts[j] is List),
        decreases xs@.len() - k,
    {
        let nested = match &xs[k] {
            Value::Obj(_) => true,
            Value::List(_) => true,
            _ => false,
        };
        if nested {
            proof {
                assert(ts[k as int] == tree_of(xs@[k as int]));
            }
            return false;
        }
        proof {
            assert(ts[k as int] == tree_of(xs@[k as int]));
        }
        k = k + 1;
    }
    true
}

impl Value {
    /// The value spelled for people to read, as `config` asks.
    pub fn spell(&self, config: SpellConfig) -> (r: String)
        ensures
            r@ == pretty(self@, 0, config),
    {
        let mut buf = String::new();
        self.spell0(&mut buf, 0, &config);
        proof {
            assert(buf@ =~= pretty(self@, 0, config));
        }
        buf
    }

    /// Appends the spelling of this value at nesting column `current_indent` to `buf`.
    pub fn spell0(&self, buf: &mut String, current_indent: usize, config: &SpellConfig)
        ensures
            final(buf)@ == old(buf)@ + pretty(self@, current_indent, *config),
        decreases self,
    {
        let ghost start = buf@;
        match self {
            Value::Null => buf.append("None"),
            Value::Str { text, raw } => {
                if *raw || config.max_width == 0 {
                    if *raw {
                        push_char(buf, 'r');
                    }
                    push_quoted(buf, text.as_str());
                    proof {
                        assert(buf@ =~= start + literal(text@, *raw));
                    }
                } else {
                    let lit = quote(text.as_str());
                    let squashed_lit = squash_whitespace(lit.as_str());
                    let indent = gen_indent(
                        sat_add_exec(current_indent, config.indent_amount),
                        config,
                    );
                    let lines = wrap_lines(squashed_lit.as_str(), config.max_width, indent.as_str());
                    push_lines(buf, &lines);
                }
            },
            Value::Num(t) => buf.append(t.as_str()),
            Value::Bool(b) => if *b {
                buf.append("true")
            } else {
                buf.append("false")
            },
            Value::Obj(obj) => {
                let ghost ps = pairs_tree(obj.pairs@);
                push_char(buf, '{');
                push_char(buf, '\n');
                let new_indent = sat_add_exec(current_indent, config.indent_amount);
                let n = obj.pairs.len();
                let mut i: usize = 0;
                while i < n
                    invariant
                        i <= n == obj.pairs@.len(),
                        *self == Value::Obj(*obj),
                        ps == pairs_tree(obj.pairs@),
                        new_indent == sat_add(current_indent, config.indent_amount),
                        buf@ == start + seq!['{', '\n'] + pretty_pairs_upto(
                            ps,
                            i as int,
                            current_indent,
                            *config,
                        ),
                    decreases n - i,
                {
                    let k = &obj.pairs[i].0;
                    let v = &obj.pairs[i].1;
                    proof {
                        assert(decreases_to!(*self => (*self)->Obj_0));
                        assert(decreases_to!(*obj => obj.pairs));
                        assert(decreases_to!(obj.pairs => obj.pairs@));
                        assert(decreases_to!(obj.pairs@ => obj.pairs@[i as int]));
                        assert(decreases_to!(obj.pairs@[i as int] => obj.pairs@[i as int].1));
                    }
                    apply_indent(buf, new_indent, config);
                    push_key(buf, k);
                    push_char(buf, ':');
                    push_char(buf, ' ');
                    v.spell0(buf, new_indent, config);
                    if !config.trailing_commas && i == n - 1 {
                        push_char(buf, '\n');
                    } else {
                        push_char(buf, ',');
                        push_char(buf, '\n');
                    }
                    proof {
                        assert(ps[i as int] == (k@, v@));
                        assert(buf@ =~= start + seq!['{', '\n'] + pretty_pairs_upto(
                            ps,
                            i + 1,
                            current_indent,
                            *config,
                        ));
                    }
                    i = i + 1;
                }
                apply_indent(buf, current_indent, config);
                push_char(buf, '}');
                proof {
                    assert(buf@ =~= start + pretty(self@, current_indent, *config));
                }
            },
            Value::List(xs) => {
                let ghost ts = items_tree(xs@);
                if xs.len() == 0 {
                    push_char(buf, '[');
                    push_char(buf, ']');
                    proof {
                        assert(buf@ =~= start + pretty(self@, current_indent, *config));
                    }
                    return ;
                }
                let oneline = fits_one_line(xs);
                let n = xs.len();
                let new_indent = sat_add_exec(current_indent, config.indent_amount);
                push_char(buf, '[');
                if !oneline {
                    push_char(buf, '\n');
                }
                let ghost opened = buf@;
                let mut i: usize = 0;
                while i < n
                    invariant
                        0 < n == xs@.len(),
                        i <= n,
                        *self == Value::List(*xs),
                        ts == items_tree(xs@),
                        oneline == one_line(ts),
                        new_indent == sat_add(current_indent, config.indent_amount),
                        buf@ == opened + if oneline {
                            inline_items_upto(ts, i as int, *config)
                        } else {
                            pretty_items_upto(ts, i as int, current_indent, *config)
                        },
                    decreases n - i,
                {
                    let x = &xs[i];
                    proof {
                        assert(decreases_to!(*self => (*self)->List_0));
                        assert(decreases_to!(*xs => xs@));
                        assert(decreases_to!(xs@ => xs@[i as int]));
                        assert(ts[i as int] == x@);
                    }
                    if oneline {
                        if i > 0 {
                            push_char(buf, ',');
                            push_char(buf, ' ');
                        }
                        x.spell0(buf, 0, config);
                        proof {
                            assert(buf@ =~= opened + inline_items_upto(ts, i + 1, *config));
                        }
                    } else {
                        apply_indent(buf, new_indent, config);
                        x.spell0(buf, new_indent, config);
                        if config.trailing_commas || i != n - 1 {
                            push_char(buf, ',');
                        }
                        push_char(buf, '\n');
                        proof {
                            assert(buf@ =~= opened + pretty_items_upto(
                                ts,
                                i + 1,
                                current_indent,
                                *config,
                            ));
                        }
                    }
                    i = i + 1;
                }
                if !oneline {
                    apply_indent(buf, current_indent, config);
                }
                push_char(buf, ']');
                proof {
                    assert(buf@ =~= start + pretty(self@, current_indent, *config));
                }
            },
        }
    }
}

impl Default for SpellConfig {
    /// Four spaces per level, no trailing commas, strings wrapped at 100 columns.
    fn default() -> (r: SpellConfig)
        ensures
            r == (SpellConfig {
                indent_amount: 4,
                indent_char: ' ',
                trailing_commas: false,
                max_width: 100,
            }),
    {
        SpellConfig { indent_amount: 4, indent_char: ' ', trailing_commas: false, max_width: 100 }
    }
}

} // verus!
