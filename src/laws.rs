use vstd::prelude::*;

use crate::json::{json_of, json_tree, Json};
use crate::parser::{false_word, null_word, parse_text, true_word, word_ci};
use crate::spell::{
    indent_str, inline_items, key_spelling, min_spelling, needs_quoting, one_line,
    pretty, pretty_items, quoted, sat_add,
};
use crate::token::{
    is_sym_char, is_sym_start, lex, lex_from, loc_at, start_loc, sym_end, Loc, Tok,
};
use crate::value::{SpellConfig, Tree};

verus! {

proof fn lemma_sym_end_all(s: Seq<char>, j: int)
    requires
        0 <= j <= s.len(),
        forall|i: int| j <= i < s.len() ==> is_sym_char(#[trigger] s[i]),
    ensures
        sym_end(s, j) == s.len(),
    decreases s.len() - j,
{
    if j < s.len() {
        lemma_sym_end_all(s, j + 1);
    }
}

/// Text made of letters alone reads as one symbol token.
proof fn lemma_lex_letters(s: Seq<char>)
    requires
        s.len() > 0,
        forall|i: int| 0 <= i < s.len() ==> is_sym_start(#[trigger] s[i]),
    ensures
        lex(s) == Ok::<Seq<(Tok, Loc)>, crate::token::LexError>(seq![(Tok::Sym(s), start_loc())]),
{
    lemma_sym_end_all(s, 1);
    assert(s.subrange(0, s.len() as int) =~= s);
    assert(lex_from(s, s.len() as int) == Ok::<Seq<(Tok, Loc)>, crate::token::LexError>(seq![]));
    assert(seq![(Tok::Sym(s), loc_at(s, 0))] + seq![] =~= seq![(Tok::Sym(s), start_loc())]);
}

/// A word spelled in any letter case is made of letters.
proof fn lemma_word_letters(s: Seq<char>, w: Seq<char>)
    requires
        word_ci(s, w),
        forall|i: int| 0 <= i < w.len() ==> 'a' <= #[trigger] w[i] <= 'z',
    ensures
        forall|i: int| 0 <= i < s.len() ==> is_sym_start(#[trigger] s[i]),
{
    assert forall|i: int| 0 <= i < s.len() implies is_sym_start(#[trigger] s[i]) by {
        let c = s[i];
        let d = w[i];
        assert(c == d || c == crate::parser::ascii_upper(d));
    }
}

/// The words for null, true and false read the same in any letter case: `None`, `NULL` and
/// `nUlL` all read as null, `TRUE` and `True` as true, `False` and `FALSE` as false.
pub proof fn law_literal_words_ignore_case(s: Seq<char>)
    requires
        null_word(s) || true_word(s) || false_word(s),
    ensures
        parse_text(s) == Ok::<Tree, crate::parser::ErrView>(
            if null_word(s) {
                Tree::Null
            } else if true_word(s) {
                Tree::Bool(true)
            } else {
                Tree::Bool(false)
            },
        ),
{
    if word_ci(s, seq!['n', 'o', 'n', 'e']) {
        lemma_word_letters(s, seq!['n', 'o', 'n', 'e']);
    } else if word_ci(s, seq!['n', 'u', 'l', 'l']) {
        lemma_word_letters(s, seq!['n', 'u', 'l', 'l']);
    } else if true_word(s) {
        lemma_word_letters(s, seq!['t', 'r', 'u', 'e']);
    } else {
        lemma_word_letters(s, seq!['f', 'a', 'l', 's', 'e']);
    }
    lemma_lex_letters(s);
}

/// A raw string is written as its literal with the `r` marker, whatever the configuration and
/// the nesting: it is never squashed nor wrapped.
pub proof fn law_raw_strings_kept(s: Seq<char>, ind: usize, cfg: SpellConfig)
    ensures
        pretty(Tree::Str(s, true), ind, cfg) == seq!['r'] + quoted(s),
        min_spelling(Tree::Str(s, true)) == seq!['r'] + quoted(s),
{
}

/// Both spellings write a key in the same way: quoted where it does not read back as one
/// symbol or number token that is the whole key (it reads as several tokens, or as none, or
/// cannot be read), bare where it reads as one symbol token that is the key.
pub proof fn law_key_quoting(k: Seq<char>, v: Tree, ind: usize, cfg: SpellConfig)
    ensures
        min_spelling(Tree::Obj(seq![(k, v)])) == seq!['{'] + key_spelling(k) + seq![':']
            + min_spelling(v) + seq!['}'],
        pretty(Tree::Obj(seq![(k, v)]), ind, cfg) == seq!['{', '\n'] + indent_str(
            sat_add(ind, cfg.indent_amount) as nat,
            cfg.indent_char,
        ) + key_spelling(k) + seq![':', ' '] + pretty(v, sat_add(ind, cfg.indent_amount), cfg)
            + (if cfg.trailing_commas {
            seq![',', '\n']
        } else {
            seq!['\n']
        }) + indent_str(ind as nat, cfg.indent_char) + seq!['}'],
        (lex(k) matches Ok(ts) && ts.len() > 1) ==> key_spelling(k) == quoted(k),
        lex(k) is Err ==> key_spelling(k) == quoted(k),
        (lex(k) matches Ok(ts) && ts.len() == 1 && ts[0].0 == Tok::Sym(k)) ==> key_spelling(k)
            == k,
{
    let ps = seq![(k, v)];
    assert(ps.drop_last() =~= Seq::<(Seq<char>, Tree)>::empty());
    assert(crate::spell::pretty_pairs_upto(ps, 0, ind, cfg) =~= Seq::<char>::empty());
    assert(crate::spell::pretty_pairs(ps, ind, cfg) =~= indent_str(
        sat_add(ind, cfg.indent_amount) as nat,
        cfg.indent_char,
    ) + key_spelling(k) + seq![':', ' '] + pretty(v, sat_add(ind, cfg.indent_amount), cfg) + (
    if cfg.trailing_commas {
        seq![',', '\n']
    } else {
        seq!['\n']
    }));
    assert(min_spelling(Tree::Obj(ps)) =~= seq!['{'] + key_spelling(k) + seq![':'] + min_spelling(
        v,
    ) + seq!['}']);
    assert(pretty(Tree::Obj(ps), ind, cfg) =~= seq!['{', '\n'] + indent_str(
        sat_add(ind, cfg.indent_amount) as nat,
        cfg.indent_char,
    ) + key_spelling(k) + seq![':', ' '] + pretty(v, sat_add(ind, cfg.indent_amount), cfg) + (
    if cfg.trailing_commas {
        seq![',', '\n']
    } else {
        seq!['\n']
    }) + indent_str(ind as nat, cfg.indent_char) + seq!['}']);
}

/// A non-empty list of at most five entries, none of them an object or a list, is written on
/// one line, its entries separated by `, `; any other non-empty list (six entries or more, or
/// one that holds an object or a list) is written one entry per line.
pub proof fn law_list_layout(xs: Seq<Tree>, ind: usize, cfg: SpellConfig)
    requires
        xs.len() > 0,
    ensures
        one_line(xs) <==> (xs.len() <= 5 && forall|i: int|
            0 <= i < xs.len() ==> !(#[trigger] xs[i] is Obj || xs[i] is List)),
        one_line(xs) ==> pretty(Tree::List(xs), ind, cfg) == seq!['['] + inline_items(xs, cfg)
            + seq![']'],
        !one_line(xs) ==> pretty(Tree::List(xs), ind, cfg) == seq!['[', '\n'] + pretty_items(
            xs,
            ind,
            cfg,
        ) + indent_str(ind as nat, cfg.indent_char) + seq![']'],
{
}

/// A string that goes to JSON and comes back keeps its text and is no longer raw: the raw
/// marker has no JSON counterpart.
pub proof fn law_json_drops_raw(s: Seq<char>, raw: bool, t: Tree)
    requires
        json_of(Tree::Str(s, raw)) matches Ok(j) && json_tree(j, t),
    ensures
        json_of(Tree::Str(s, raw)) == Ok::<Json, Seq<char>>(Json::Str(s)),
        t == Tree::Str(s, false),
{
}

/// The token that a key is written as: a string token where it is quoted, else the one token
/// that the bare key reads as.
pub open spec fn key_tok(k: Seq<char>) -> Tok {
    if needs_quoting(k) {
        Tok::Str(k)
    } else {
        lex(k)->Ok_0[0].0
    }
}

/// The tokens that spell `t`. Containers separate their entries with commas; `trailing` puts
/// one more after the last entry of every object and of every list not written on one line.
pub open spec fn token_form(t: Tree, trailing: bool) -> Seq<Tok>
    decreases t, 0nat,
{
    match t {
        Tree::Null => seq![Tok::Sym(seq!['N', 'o', 'n', 'e'])],
        Tree::Bool(b) => seq![
            Tok::Sym(
                if b {
                    seq!['t', 'r', 'u', 'e']
                } else {
                    seq!['f', 'a', 'l', 's', 'e']
                },
            ),
        ],
        Tree::Num(x) => if x.len() > 0 && x[0] == '-' {
            seq![Tok::Minus, Tok::Num(x.drop_first())]
        } else {
            seq![Tok::Num(x)]
        },
        Tree::Str(s, raw) => if raw {
            seq![Tok::Sym(seq!['r']), Tok::Str(s)]
        } else {
            seq![Tok::Str(s)]
        },
        Tree::List(xs) => seq![Tok::LBrack] + items_form(
            xs,
            0,
            trailing,
            trailing && !one_line(xs),
        ) + seq![Tok::RBrack],
        Tree::Obj(ps) => seq![Tok::LBrace] + pairs_form(ps, 0, trailing) + seq![Tok::RBrace],
    }
}

/// The tokens of the entries `xs[k..]`; `last_comma` puts a comma after the last one.
pub open spec fn items_form(xs: Seq<Tree>, k: int, trailing: bool, last_comma: bool) -> Seq<Tok>
    decreases xs, xs.len() - k,
{
    if k < 0 || k >= xs.len() {
        Seq::empty()
    } else {
        token_form(xs[k], trailing) + (if k + 1 < xs.len() || last_comma {
            seq![Tok::Comma]
        } else {
            Seq::empty()
        }) + items_form(xs, k + 1, trailing, last_comma)
    }
}

/// The tokens of the pairs `ps[k..]`.
pub open spec fn pairs_form(ps: Seq<(Seq<char>, Tree)>, k: int, trailing: bool) -> Seq<Tok>
    decreases ps, ps.len() - k,
{
    if k < 0 || k >= ps.len() {
        Seq::empty()
    } else {
        seq![key_tok(ps[k].0), Tok::Colon] + token_form(ps[k].1, trailing) + (if k + 1 < ps.len()
            || trailing {
            seq![Tok::Comma]
        } else {
            Seq::empty()
        }) + pairs_form(ps, k + 1, trailing)
    }
}

/// The tokens at positions `i..` of `ts` start with the kinds `f`.
pub open spec fn form_at(ts: Seq<(Tok, Loc)>, i: int, f: Seq<Tok>) -> bool {
    0 <= i && i + f.len() <= ts.len() && forall|j: int| 0 <= j < f.len() ==> ts[i + j].0 == #[trigger] f[j]
}

pub open spec fn kinds(ts: Seq<(Tok, Loc)>) -> Seq<Tok> {
    ts.map_values(|t: (Tok, Loc)| t.0)
}

proof fn lemma_form_split(ts: Seq<(Tok, Loc)>, i: int, a: Seq<Tok>, b: Seq<Tok>)
    requires
        form_at(ts, i, a + b),
    ensures
        form_at(ts, i, a),
        form_at(ts, i + a.len(), b),
{
    assert forall|j: int| 0 <= j < a.len() implies ts[i + j].0 == #[trigger] a[j] by {
        assert((a + b)[j] == a[j]);
    }
    assert forall|j: int| 0 <= j < b.len() implies ts[i + a.len() + j].0 == #[trigger] b[j] by {
        assert((a + b)[a.len() + j] == b[j]);
    }
}

/// No value's tokens start with a closing bracket or brace.
proof fn lemma_form_start(t: Tree, trailing: bool)
    ensures
        token_form(t, trailing).len() > 0,
        !(token_form(t, trailing)[0] is RBrack),
        !(token_form(t, trailing)[0] is RBrace),
        !crate::parser::starts_no_value(token_form(t, trailing)[0]),
{
}

proof fn lemma_key_tok(k: Seq<char>)
    ensures
        crate::parser::key_text(key_tok(k)) == Some(k),
{
}

/// The tokens of a value read back as that value.
proof fn lemma_value_form(t: Tree, trailing: bool, ts: Seq<(Tok, Loc)>, i: int)
    requires
        crate::value::tree_wf(t),
        form_at(ts, i, token_form(t, trailing)),
    ensures
        crate::parser::value_at(ts, i) == Ok::<Option<(Tree, int)>, crate::parser::ErrView>(
            Some((t, i + token_form(t, trailing).len()))),
    decreases t, 0nat,
{
    let f = token_form(t, trailing);
    assert(ts[i].0 == f[0]);
    match t {
        Tree::Null => {
            assert(crate::parser::null_word(seq!['N', 'o', 'n', 'e']));
        },
        Tree::Bool(b) => {
            let w = if b {
                seq!['t', 'r', 'u', 'e']
            } else {
                seq!['f', 'a', 'l', 's', 'e']
            };
            assert(!word_ci(w, seq!['n', 'o', 'n', 'e'])) by {
                if w.len() == 4 {
                    assert(!crate::parser::same_letter(w[0], 'n'));
                }
            }
            assert(!word_ci(w, seq!['n', 'u', 'l', 'l'])) by {
                if w.len() == 4 {
                    assert(!crate::parser::same_letter(w[0], 'n'));
                }
            }
            if b {
                assert(true_word(w));
            } else {
                assert(!true_word(w));
                assert(false_word(w));
            }
        },
        Tree::Num(x) => {
            if x.len() > 0 && x[0] == '-' {
                assert(ts[i + 1].0 == f[1]);
                assert(seq!['-'] + x.drop_first() =~= x);
            }
        },
        Tree::Str(s, raw) => {
            if raw {
                assert(ts[i + 1].0 == f[1]);
                let r = seq!['r'];
                assert(!word_ci(r, seq!['n', 'o', 'n', 'e']));
                assert(!word_ci(r, seq!['n', 'u', 'l', 'l']));
                assert(!word_ci(r, seq!['t', 'r', 'u', 'e']));
                assert(!word_ci(r, seq!['f', 'a', 'l', 's', 'e']));
            }
        },
        Tree::List(xs) => {
            let last = trailing && !one_line(xs);
            let body = items_form(xs, 0, trailing, last);
            assert(f == seq![Tok::LBrack] + body + seq![Tok::RBrack]);
            lemma_form_split(ts, i, seq![Tok::LBrack] + body, seq![Tok::RBrack]);
            lemma_form_split(ts, i, seq![Tok::LBrack], body);
            assert(xs.take(0) =~= Seq::<Tree>::empty());
            lemma_items_form(xs, 0, trailing, last, ts, i + 1, ts[i].1);
            assert(xs.take(xs.len() as int) =~= xs);
            assert(ts[i + 1 + body.len()].0 == f[1 + body.len() as int]);
        },
        Tree::Obj(ps) => {
            let body = pairs_form(ps, 0, trailing);
            assert(f == seq![Tok::LBrace] + body + seq![Tok::RBrace]);
            lemma_form_split(ts, i, seq![Tok::LBrace] + body, seq![Tok::RBrace]);
            lemma_form_split(ts, i, seq![Tok::LBrace], body);
            assert(ps.take(0) =~= Seq::<(Seq<char>, Tree)>::empty());
            lemma_pairs_form(ps, 0, trailing, ts, i + 1, ts[i].1);
            assert(ps.take(ps.len() as int) =~= ps);
            assert(ts[i + 1 + body.len()].0 == f[1 + body.len() as int]);
        },
    }
}

/// The tokens of the entries `xs[k..]`, followed by `]`, finish the list whose first `k`
/// entries were read.
proof fn lemma_items_form(
    xs: Seq<Tree>,
    k: int,
    trailing: bool,
    last_comma: bool,
    ts: Seq<(Tok, Loc)>,
    i: int,
    open: Loc,
)
    requires
        0 <= k <= xs.len(),
        forall|j: int| 0 <= j < xs.len() ==> crate::value::tree_wf(#[trigger] xs[j]),
        form_at(ts, i, items_form(xs, k, trailing, last_comma) + seq![Tok::RBrack]),
    ensures
        crate::parser::list_from(ts, i, open, xs.take(k)) == Ok::<
            Option<(Tree, int)>,
            crate::parser::ErrView,
        >(Some((Tree::List(xs), i + items_form(xs, k, trailing, last_comma).len() + 1))),
    decreases xs, xs.len() - k,
{
    let body = items_form(xs, k, trailing, last_comma);
    lemma_form_split(ts, i, body, seq![Tok::RBrack]);
    if k == xs.len() {
        assert(ts[i + 0].0 == seq![Tok::RBrack][0]);
        assert(xs.take(k) =~= xs);
    } else {
        let f = token_form(xs[k], trailing);
        let c: Seq<Tok> = if k + 1 < xs.len() || last_comma {
            seq![Tok::Comma]
        } else {
            Seq::empty()
        };
        let rest = items_form(xs, k + 1, trailing, last_comma);
        assert(body == f + c + rest);
        assert(body + seq![Tok::RBrack] =~= f + (c + (rest + seq![Tok::RBrack])));
        lemma_form_split(ts, i, f, c + (rest + seq![Tok::RBrack]));
        lemma_form_split(ts, i + f.len(), c, rest + seq![Tok::RBrack]);
        lemma_form_start(xs[k], trailing);
        assert(ts[i].0 == f[0]);
        lemma_value_form(xs[k], trailing, ts, i);
        let j = i + f.len();
        if c.len() == 1 {
            assert(ts[j + 0].0 == c[0]);
        } else {
            let nxt = rest + seq![Tok::RBrack];
            if k + 1 < xs.len() {
                lemma_form_start(xs[k + 1], trailing);
                assert(nxt[0] == token_form(xs[k + 1], trailing)[0]);
            }
            assert(ts[j + 0].0 == nxt[0]);
        }
        assert(xs.take(k).push(xs[k]) =~= xs.take(k + 1));
        lemma_items_form(xs, k + 1, trailing, last_comma, ts, j + c.len(), open);
    }
}

/// The tokens of the pairs `ps[k..]`, followed by `}`, finish the object whose first `k`
/// pairs were read.
proof fn lemma_pairs_form(
    ps: Seq<(Seq<char>, Tree)>,
    k: int,
    trailing: bool,
    ts: Seq<(Tok, Loc)>,
    i: int,
    open: Loc,
)
    requires
        0 <= k <= ps.len(),
        crate::value::keys_unique(ps),
        forall|j: int| 0 <= j < ps.len() ==> crate::value::tree_wf(#[trigger] ps[j].1),
        form_at(ts, i, pairs_form(ps, k, trailing) + seq![Tok::RBrace]),
    ensures
        crate::parser::obj_from(ts, i, open, ps.take(k)) == Ok::<
            Option<(Tree, int)>,
            crate::parser::ErrView,
        >(Some((Tree::Obj(ps), i + pairs_form(ps, k, trailing).len() + 1))),
    decreases ps, ps.len() - k,
{
    let body = pairs_form(ps, k, trailing);
    lemma_form_split(ts, i, body, seq![Tok::RBrace]);
    if k == ps.len() {
        assert(ts[i + 0].0 == seq![Tok::RBrace][0]);
        assert(ps.take(k) =~= ps);
    } else {
        let head = seq![key_tok(ps[k].0), Tok::Colon];
        let f = token_form(ps[k].1, trailing);
        let c: Seq<Tok> = if k + 1 < ps.len() || trailing {
            seq![Tok::Comma]
        } else {
            Seq::empty()
        };
        let rest = pairs_form(ps, k + 1, trailing);
        assert(body == head + f + c + rest);
        assert(body + seq![Tok::RBrace] =~= head + (f + (c + (rest + seq![Tok::RBrace]))));
        lemma_form_split(ts, i, head, f + (c + (rest + seq![Tok::RBrace])));
        lemma_form_split(ts, i + 2, f, c + (rest + seq![Tok::RBrace]));
        lemma_form_split(ts, i + 2 + f.len(), c, rest + seq![Tok::RBrace]);
        assert(ts[i + 0].0 == head[0]);
        assert(ts[i + 1].0 == head[1]);
        lemma_key_tok(ps[k].0);
        lemma_form_start(ps[k].1, trailing);
        assert(ts[i + 2 + 0].0 == f[0]);
        lemma_value_form(ps[k].1, trailing, ts, i + 2);
        let j = i + 2 + f.len();
        if c.len() == 1 {
            assert(ts[j + 0].0 == c[0]);
        } else {
            let nxt = rest + seq![Tok::RBrace];
            if k + 1 < ps.len() {
                assert(nxt[0] == key_tok(ps[k + 1].0));
            }
            assert(ts[j + 0].0 == nxt[0]);
            assert(!(nxt[0] is Comma));
        }
        assert(!(ts[i].0 is RBrace));
        assert(crate::parser::pair_at(ts, i) == Ok::<
            Option<((Seq<char>, Tree), int)>,
            crate::parser::ErrView,
        >(Some(((ps[k].0, ps[k].1), j))));
        assert(crate::parser::skip_comma(ts, j) == j + c.len());
        // the key is new among those read, so it goes last
        assert forall|m: int| 0 <= m < ps.take(k).len() implies #[trigger] ps.take(k)[m].0
            != ps[k].0 by {
            assert(ps.take(k)[m] == ps[m]);
        }
        lemma_key_index_absent(ps.take(k), ps[k].0);
        assert(crate::value::insert_pair(ps.take(k), ps[k].0, ps[k].1) =~= ps.take(k + 1));
        lemma_pairs_form(ps, k + 1, trailing, ts, j + c.len(), open);
    }
}

proof fn lemma_key_index_absent(ps: Seq<(Seq<char>, Tree)>, k: Seq<char>)
    requires
        forall|i: int| 0 <= i < ps.len() ==> #[trigger] ps[i].0 != k,
    ensures
        crate::value::key_index(ps, k) == -1,
    decreases ps.len(),
{
    if ps.len() > 0 {
        let pre = ps.drop_last();
        assert forall|i: int| 0 <= i < pre.len() implies #[trigger] pre[i].0 != k by {
            assert(pre[i] == ps[i]);
        }
        assert(ps.last() == ps[ps.len() - 1]);
        lemma_key_index_absent(pre, k);
    }
}

/// Tokens of the kinds that spell a well-formed value read back as that value, with or
/// without the trailing commas.
pub proof fn law_token_form_reads_back(t: Tree, trailing: bool, ts: Seq<(Tok, Loc)>)
    requires
        crate::value::tree_wf(t),
        kinds(ts) == token_form(t, trailing),
    ensures
        crate::parser::parse_toks(ts) == Ok::<Tree, crate::parser::ErrView>(t),
{
    let f = token_form(t, trailing);
    assert(ts.len() == f.len());
    assert forall|j: int| 0 <= j < f.len() implies ts[0 + j].0 == #[trigger] f[j] by {
        assert(kinds(ts)[j] == ts[j].0);
    }
    lemma_value_form(t, trailing, ts, 0);
}

/// Parsing the pretty spelling gives back the value that was spelled, `parse(spell(v, cfg)) ==
/// v`, wherever the tokenizer reads that spelling as the tokens that it was written from (a
/// string that the pretty spelling wraps or squashes does not read back as itself, nor does
/// indentation made of a character that is not whitespace).
pub proof fn law_pretty_spell_reads_back(t: Tree, cfg: SpellConfig)
    requires
        crate::value::tree_wf(t),
    ensures
        (lex(pretty(t, 0, cfg)) matches Ok(ts) && kinds(ts) == token_form(t, cfg.trailing_commas))
            ==> parse_text(pretty(t, 0, cfg)) == Ok::<Tree, crate::parser::ErrView>(t),
{
    if let Ok(ts) = lex(pretty(t, 0, cfg)) {
        if kinds(ts) == token_form(t, cfg.trailing_commas) {
            law_token_form_reads_back(t, cfg.trailing_commas, ts);
        }
    }
}

/// The kinds of the tokens that lexing gives, or `None` where it fails.
pub open spec fn lex_kinds(r: Result<Seq<(Tok, Loc)>, crate::token::LexError>) -> Option<Seq<Tok>> {
    match r {
        Ok(ts) => Some(kinds(ts)),
        Err(_) => None,
    }
}

pub open spec fn prefix_kinds(f: Seq<Tok>, rest: Option<Seq<Tok>>) -> Option<Seq<Tok>> {
    match rest {
        Some(k) => Some(f + k),
        None => None,
    }
}

/// Text that a number token is made of: a digit, then characters that go on with a number.
pub open spec fn number_text(n: Seq<char>) -> bool {
    n.len() > 0 && crate::token::is_digit(n[0]) && forall|j: int|
        1 <= j < n.len() ==> crate::token::num_goes_on(n, j)
}

/// Every numeric literal in `t` is number text, or `-` and number text.
pub open spec fn numbers_lexable(t: Tree) -> bool
    decreases t,
{
    match t {
        Tree::Num(x) => number_text(x) || (x.len() > 0 && x[0] == '-' && number_text(
            x.drop_first(),
        )),
        Tree::List(xs) => forall|i: int| 0 <= i < xs.len() ==> numbers_lexable(#[trigger] xs[i]),
        Tree::Obj(ps) => forall|i: int| 0 <= i < ps.len() ==> numbers_lexable(#[trigger] ps[i].1),
        _ => true,
    }
}

/// A place where a token that runs on has to stop: the end, whitespace, or a comma, colon or
/// closer.
pub open spec fn stops_at(s: Seq<char>, b: int) -> bool {
    b == s.len() || (0 <= b < s.len() && (s[b] == ',' || s[b] == ']' || s[b] == '}' || s[b]
        == ':' || crate::token::is_ws(s[b])))
}

/// `s[a..]` starts with `w`.
pub open spec fn text_at(s: Seq<char>, a: int, w: Seq<char>) -> bool {
    0 <= a && a + w.len() <= s.len() && forall|j: int| 0 <= j < w.len() ==> s[a + j] == #[trigger] w[j]
}

proof fn lemma_text_split(s: Seq<char>, a: int, u: Seq<char>, w: Seq<char>)
    requires
        text_at(s, a, u + w),
    ensures
        text_at(s, a, u),
        text_at(s, a + u.len(), w),
{
    assert forall|j: int| 0 <= j < u.len() implies s[a + j] == #[trigger] u[j] by {
        assert((u + w)[j] == u[j]);
    }
    assert forall|j: int| 0 <= j < w.len() implies s[a + u.len() + j] == #[trigger] w[j] by {
        assert((u + w)[u.len() + j] == w[j]);
    }
}

proof fn lemma_sym_run(s: Seq<char>, j: int, b: int)
    requires
        0 <= j <= b <= s.len(),
        forall|k: int| j <= k < b ==> crate::token::is_sym_char(#[trigger] s[k]),
        b == s.len() || !is_sym_char(s[b]),
    ensures
        sym_end(s, j) == b,
    decreases b - j,
{
    if j < b {
        lemma_sym_run(s, j + 1, b);
    }
}

proof fn lemma_num_run(s: Seq<char>, a: int, j: int, b: int)
    requires
        0 <= a < j <= b <= s.len(),
        forall|k: int| j <= k < b ==> crate::token::num_goes_on(s, k),
        b == s.len() || !crate::token::num_goes_on(s, b),
    ensures
        crate::token::num_end(s, j) == b,
    decreases b - j,
{
    if j < b {
        lemma_num_run(s, a, j + 1, b);
    }
}

proof fn lemma_escaped_front(u: Seq<char>)
    requires
        u.len() > 0,
    ensures
        crate::spell::escaped(u) == crate::spell::escape(u[0]) + crate::spell::escaped(
            u.drop_first(),
        ),
    decreases u.len(),
{
    if u.len() == 1 {
        assert(u.drop_last() =~= Seq::<char>::empty());
        assert(u.drop_first() =~= Seq::<char>::empty());
        assert(crate::spell::escaped(u.drop_last()) =~= Seq::<char>::empty());
        assert(crate::spell::escape(u[0]) + Seq::<char>::empty() =~= crate::spell::escape(u[0]));
        assert(crate::spell::escaped(u) =~= Seq::<char>::empty() + crate::spell::escape(u.last()));
    } else {
        lemma_escaped_front(u.drop_last());
        assert(u.drop_last().drop_first() =~= u.drop_first().drop_last());
        assert(u.drop_first().last() == u.last());
        assert(crate::spell::escaped(u) =~= crate::spell::escape(u[0]) + crate::spell::escaped(
            u.drop_first(),
        ));
    }
}

/// A string literal as the spellings write it reads back as its text.
proof fn lemma_scan_escaped(s: Seq<char>, j: int, acc: Seq<char>, u: Seq<char>)
    requires
        text_at(s, j, crate::spell::escaped(u) + seq!['"']),
    ensures
        crate::token::scan_str(s, j, acc) == Some((acc + u, j + crate::spell::escaped(u).len() + 1)),
    decreases u.len(),
{
    let e = crate::spell::escaped(u);
    if u.len() == 0 {
        assert(e =~= Seq::<char>::empty());
        assert(s[j + 0] == (e + seq!['"'])[0]);
        assert(acc + u =~= acc);
    } else {
        lemma_escaped_front(u);
        let head = crate::spell::escape(u[0]);
        let tail = crate::spell::escaped(u.drop_first());
        assert(e + seq!['"'] =~= head + (tail + seq!['"']));
        lemma_text_split(s, j, head, tail + seq!['"']);
        lemma_scan_escaped(s, j + head.len(), acc.push(u[0]), u.drop_first());
        assert(acc.push(u[0]) + u.drop_first() =~= acc + u);
        if u[0] == '"' || u[0] == '\\' {
            assert(s[j + 0] == head[0]);
            assert(s[j + 1] == head[1]);
        } else {
            assert(s[j + 0] == head[0]);
        }
    }
}

/// A quoted literal at `a` lexes as one string token.
proof fn lemma_lex_quoted(s: Seq<char>, a: int, u: Seq<char>)
    requires
        text_at(s, a, crate::spell::quoted(u)),
    ensures
        lex_kinds(lex_from(s, a)) == prefix_kinds(
            seq![Tok::Str(u)],
            lex_kinds(lex_from(s, a + crate::spell::quoted(u).len())),
        ),
{
    let e = crate::spell::escaped(u);
    assert(crate::spell::quoted(u) =~= seq!['"'] + (e + seq!['"']));
    lemma_text_split(s, a, seq!['"'], e + seq!['"']);
    assert(s[a + 0] == seq!['"'][0]);
    lemma_scan_escaped(s, a + 1, Seq::empty(), u);
    assert(Seq::<char>::empty() + u =~= u);
    lemma_cons_kinds(s, a, a + crate::spell::quoted(u).len(), Tok::Str(u));
}

proof fn lemma_cons_kinds(s: Seq<char>, a: int, b: int, t: Tok)
    requires
        0 <= a < s.len(),
        lex_from(s, a) == crate::token::cons_tok((t, loc_at(s, a)), lex_from(s, b)),
    ensures
        lex_kinds(lex_from(s, a)) == prefix_kinds(seq![t], lex_kinds(lex_from(s, b))),
{
    if let Ok(ts) = lex_from(s, b) {
        assert(kinds(seq![(t, loc_at(s, a))] + ts) =~= seq![t] + kinds(ts));
    }
}

pub open spec fn word_tok_text(t: Tok) -> Option<Seq<char>> {
    match t {
        Tok::Sym(x) => Some(x),
        Tok::Num(x) => Some(x),
        _ => None,
    }
}

/// A symbol or number token read from `s[i..]` is no longer than what is left.
proof fn lemma_lex_text_len(s: Seq<char>, i: int)
    requires
        0 <= i <= s.len(),
    ensures
        lex_from(s, i) matches Ok(ts) ==> forall|m: int|
            0 <= m < ts.len() && (#[trigger] word_tok_text(ts[m].0)) is Some ==> word_tok_text(
                ts[m].0,
            )->0.len() <= s.len() - i,
    decreases s.len() - i,
{
    if i < s.len() {
        let c = s[i];
        if crate::token::is_ws(c) {
            lemma_lex_text_len(s, i + 1);
        } else if c == '/' && i + 1 < s.len() && s[i + 1] == '/' {
            let e = crate::token::line_end(s, i + 2);
            if i < e <= s.len() {
                lemma_lex_text_len(s, e);
            }
        } else if crate::token::punct_tok(c) is Some {
            lemma_lex_text_len(s, i + 1);
        } else if c == '"' {
            if let Some((t, e)) = crate::token::scan_str(s, i + 1, seq![]) {
                if i < e <= s.len() {
                    lemma_lex_text_len(s, e);
                }
            }
        } else if crate::token::is_digit(c) {
            let e = crate::token::num_end(s, i + 1);
            if i < e <= s.len() {
                lemma_lex_text_len(s, e);
            }
        } else if is_sym_start(c) {
            let e = sym_end(s, i + 1);
            if i < e <= s.len() {
                lemma_lex_text_len(s, e);
            }
        }
    }
}

proof fn lemma_sym_end_chars(s: Seq<char>, j: int)
    requires
        0 <= j <= s.len(),
    ensures
        forall|m: int| j <= m < sym_end(s, j) ==> is_sym_char(#[trigger] s[m]),
        j <= sym_end(s, j) <= s.len(),
    decreases s.len() - j,
{
    if j < s.len() && is_sym_char(s[j]) {
        lemma_sym_end_chars(s, j + 1);
    }
}

proof fn lemma_num_end_chars(s: Seq<char>, j: int)
    requires
        0 <= j <= s.len(),
    ensures
        forall|m: int| j <= m < crate::token::num_end(s, j) ==> crate::token::num_goes_on(s, m),
        j <= crate::token::num_end(s, j) <= s.len(),
    decreases s.len() - j,
{
    if j < s.len() && crate::token::num_goes_on(s, j) {
        lemma_num_end_chars(s, j + 1);
    }
}

/// A key left bare is one run of symbol characters, or number text.
proof fn lemma_bare_key(k: Seq<char>)
    requires
        !needs_quoting(k),
    ensures
        (k.len() > 0 && is_sym_start(k[0]) && forall|m: int|
            1 <= m < k.len() ==> is_sym_char(#[trigger] k[m])) || number_text(k),
        key_tok(k) == (if k.len() > 0 && is_sym_start(k[0]) {
            Tok::Sym(k)
        } else {
            Tok::Num(k)
        }),
{
    let ts = lex(k)->Ok_0;
    lemma_lex_text_len(k, 0);
    assert(ts.len() == 1);
    assert(word_tok_text(ts[0].0) == Some(k));
    let c = k[0];
    if crate::token::is_ws(c) {
        lemma_lex_text_len(k, 1);
        assert(lex_from(k, 0) == lex_from(k, 1));
    } else if c == '/' && 1 < k.len() && k[1] == '/' {
        let e = crate::token::line_end(k, 2);
        lemma_lex_text_len(k, e);
        if 0 < e <= k.len() {
            assert(word_tok_text(ts[0].0)->0.len() <= k.len() - e);
        }
    } else if crate::token::punct_tok(c) is Some {
    } else if c == '"' {
    } else if crate::token::is_digit(c) {
        let e = crate::token::num_end(k, 1);
        lemma_num_end_chars(k, 1);
        assert(k.subrange(0, e).len() == k.len());
        assert(e == k.len());
    } else if is_sym_start(c) {
        let e = sym_end(k, 1);
        lemma_sym_end_chars(k, 1);
        assert(k.subrange(0, e).len() == k.len());
        assert(e == k.len());
    }
}

proof fn lemma_prefix_assoc(f: Seq<Tok>, g: Seq<Tok>, r: Option<Seq<Tok>>)
    ensures
        prefix_kinds(f, prefix_kinds(g, r)) == prefix_kinds(f + g, r),
{
    if let Some(k) = r {
        assert(f + (g + k) =~= (f + g) + k);
    }
}

proof fn lemma_min_items_front(xs: Seq<Tree>)
    requires
        xs.len() > 0,
    ensures
        crate::spell::min_items(xs) == min_spelling(xs[0]) + (if xs.len() > 1 {
            seq![','] + crate::spell::min_items(xs.drop_first())
        } else {
            Seq::empty()
        }),
    decreases xs.len(),
{
    let d = xs.drop_last();
    let f = xs.drop_first();
    if xs.len() == 1 {
        assert(min_spelling(xs[0]) + Seq::<char>::empty() =~= min_spelling(xs[0]));
    } else if xs.len() == 2 {
        assert(d.last() == xs[0]);
        assert(crate::spell::min_items(d) == min_spelling(xs[0]));
        assert(f.last() == xs[1]);
        assert(crate::spell::min_items(f) == min_spelling(xs[1]));
        assert(crate::spell::min_items(xs) =~= min_spelling(xs[0]) + (seq![',']
            + crate::spell::min_items(f)));
    } else {
        lemma_min_items_front(d);
        assert(d.drop_first() =~= f.drop_last());
        assert(f.last() == xs.last());
        assert(d[0] == xs[0]);
        assert(crate::spell::min_items(f) == crate::spell::min_items(f.drop_last()) + seq![',']
            + min_spelling(f.last()));
        assert(crate::spell::min_items(xs) =~= min_spelling(xs[0]) + (seq![',']
            + crate::spell::min_items(f)));
    }
}

pub open spec fn min_entry(p: (Seq<char>, Tree)) -> Seq<char> {
    key_spelling(p.0) + seq![':'] + min_spelling(p.1)
}

proof fn lemma_min_pairs_front(ps: Seq<(Seq<char>, Tree)>)
    requires
        ps.len() > 0,
    ensures
        crate::spell::min_pairs(ps) == min_entry(ps[0]) + (if ps.len() > 1 {
            seq![','] + crate::spell::min_pairs(ps.drop_first())
        } else {
            Seq::empty()
        }),
    decreases ps.len(),
{
    let d = ps.drop_last();
    let f = ps.drop_first();
    if ps.len() == 1 {
        assert(min_entry(ps[0]) + Seq::<char>::empty() =~= min_entry(ps[0]));
    } else if ps.len() == 2 {
        assert(d.last() == ps[0]);
        assert(crate::spell::min_pairs(d) == min_entry(ps[0]));
        assert(f.last() == ps[1]);
        assert(crate::spell::min_pairs(f) == min_entry(ps[1]));
        assert(crate::spell::min_pairs(ps) =~= min_entry(ps[0]) + (seq![',']
            + crate::spell::min_pairs(f)));
    } else {
        lemma_min_pairs_front(d);
        assert(d.drop_first() =~= f.drop_last());
        assert(f.last() == ps.last());
        assert(d[0] == ps[0]);
        assert(crate::spell::min_pairs(f) == crate::spell::min_pairs(f.drop_last()) + seq![',']
            + min_entry(f.last()));
        assert(crate::spell::min_pairs(ps) =~= min_entry(ps[0]) + (seq![',']
            + crate::spell::min_pairs(f)));
    }
}

/// A key as both spellings write it, followed by `:`, lexes as its key token.
proof fn lemma_lex_key(key: Seq<char>, s: Seq<char>, b: int)
    requires
        text_at(s, b, key_spelling(key)),
        b + key_spelling(key).len() < s.len(),
        s[b + key_spelling(key).len()] == ':',
    ensures
        lex_kinds(lex_from(s, b)) == prefix_kinds(
            seq![key_tok(key)],
            lex_kinds(lex_from(s, b + key_spelling(key).len())),
        ),
{
    if needs_quoting(key) {
        lemma_lex_quoted(s, b, key);
    } else {
        lemma_bare_key(key);
        lemma_stop_ends_runs(s, b + key.len());
        if key.len() > 0 && is_sym_start(key[0]) {
            lemma_lex_word(s, b, key);
        } else {
            lemma_lex_number(s, b, key);
        }
    }
}

/// A punctuation character at `a` lexes as its token.
proof fn lemma_lex_punct(s: Seq<char>, a: int, c: char, t: Tok)
    requires
        0 <= a < s.len(),
        s[a] == c,
        crate::token::punct_tok(c) == Some(t),
    ensures
        lex_kinds(lex_from(s, a)) == prefix_kinds(seq![t], lex_kinds(lex_from(s, a + 1))),
{
    lemma_cons_kinds(s, a, a + 1, t);
}

/// A run of symbol characters at `a`, ended where a symbol cannot go on, lexes as one symbol.
proof fn lemma_lex_word(s: Seq<char>, a: int, w: Seq<char>)
    requires
        text_at(s, a, w),
        w.len() > 0,
        is_sym_start(w[0]),
        forall|m: int| 1 <= m < w.len() ==> is_sym_char(#[trigger] w[m]),
        a + w.len() == s.len() || !is_sym_char(s[a + w.len()]),
    ensures
        lex_kinds(lex_from(s, a)) == prefix_kinds(seq![Tok::Sym(w)], lex_kinds(lex_from(s, a + w.len()))),
{
    assert(s[a + 0] == w[0]);
    assert forall|k: int| a + 1 <= k < a + w.len() implies is_sym_char(#[trigger] s[k]) by {
        assert(s[a + (k - a)] == w[k - a]);
    }
    lemma_sym_run(s, a + 1, a + w.len());
    assert(s.subrange(a, a + w.len()) =~= w);
    lemma_cons_kinds(s, a, a + w.len(), Tok::Sym(w));
}

/// Number text at `a`, ended where a number cannot go on, lexes as one number token.
proof fn lemma_lex_number(s: Seq<char>, a: int, x: Seq<char>)
    requires
        text_at(s, a, x),
        number_text(x),
        a + x.len() == s.len() || !crate::token::num_goes_on(s, a + x.len()),
    ensures
        lex_kinds(lex_from(s, a)) == prefix_kinds(seq![Tok::Num(x)], lex_kinds(lex_from(s, a + x.len()))),
{
    assert(s[a + 0] == x[0]);
    assert forall|k: int| a + 1 <= k < a + x.len() implies crate::token::num_goes_on(s, k) by {
        assert(s[a + (k - a)] == x[k - a]);
        assert(s[a + (k - a - 1)] == x[k - a - 1]);
        assert(crate::token::num_goes_on(x, k - a));
    }
    lemma_num_run(s, a, a + 1, a + x.len());
    assert(s.subrange(a, a + x.len()) =~= x);
    lemma_cons_kinds(s, a, a + x.len(), Tok::Num(x));
}

proof fn lemma_stop_ends_runs(s: Seq<char>, b: int)
    requires
        stops_at(s, b),
    ensures
        b == s.len() || !is_sym_char(s[b]),
        b == s.len() || !crate::token::num_goes_on(s, b),
{
}

/// The minimal spelling of `t` at `a`, followed by a place where tokens stop, lexes as the
/// tokens that spell `t`.
#[verifier::rlimit(60)]
proof fn lemma_lex_value(t: Tree, s: Seq<char>, a: int)
    requires
        numbers_lexable(t),
        text_at(s, a, min_spelling(t)),
        stops_at(s, a + min_spelling(t).len()),
    ensures
        lex_kinds(lex_from(s, a)) == prefix_kinds(
            token_form(t, false),
            lex_kinds(lex_from(s, a + min_spelling(t).len())),
        ),
    decreases t, 0nat,
{
    let m = min_spelling(t);
    lemma_stop_ends_runs(s, a + m.len());
    match t {
        Tree::Null => {
            reveal_strlit("None");
            assert(m =~= seq!['N', 'o', 'n', 'e']);
            lemma_lex_word(s, a, m);
        },
        Tree::Bool(b) => {
            reveal_strlit("true");
            reveal_strlit("false");
            if b {
                assert(m =~= seq!['t', 'r', 'u', 'e']);
            } else {
                assert(m =~= seq!['f', 'a', 'l', 's', 'e']);
            }
            lemma_lex_word(s, a, m);
        },
        Tree::Num(x) => {
            if number_text(x) {
                lemma_lex_number(s, a, x);
            } else {
                let rest = x.drop_first();
                assert(x =~= seq!['-'] + rest);
                lemma_text_split(s, a, seq!['-'], rest);
                assert(s[a + 0] == seq!['-'][0]);
                lemma_lex_punct(s, a, '-', Tok::Minus);
                lemma_lex_number(s, a + 1, rest);
                lemma_prefix_assoc(seq![Tok::Minus], seq![Tok::Num(rest)], lex_kinds(lex_from(s, a + m.len())));
                assert(seq![Tok::Minus] + seq![Tok::Num(rest)] =~= token_form(t, false));
            }
        },
        Tree::Str(u, raw) => {
            if raw {
                let q = crate::spell::quoted(u);
                lemma_text_split(s, a, seq!['r'], q);
                assert(s[a + 1] == q[0]);
                lemma_lex_word(s, a, seq!['r']);
                lemma_lex_quoted(s, a + 1, u);
                lemma_prefix_assoc(seq![Tok::Sym(seq!['r'])], seq![Tok::Str(u)], lex_kinds(lex_from(s, a + m.len())));
                assert(seq![Tok::Sym(seq!['r'])] + seq![Tok::Str(u)] =~= token_form(t, false));
            } else {
                lemma_lex_quoted(s, a, u);
            }
        },
        Tree::List(xs) => {
            let body = crate::spell::min_items(xs);
            assert(m == seq!['['] + body + seq![']']);
            lemma_text_split(s, a, seq!['['] + body, seq![']']);
            lemma_text_split(s, a, seq!['['], body);
            assert(s[a + 0] == seq!['['][0]);
            assert(s[a + 1 + body.len() + 0] == seq![']'][0]);
            lemma_lex_punct(s, a, '[', Tok::LBrack);
            lemma_lex_punct(s, a + 1 + body.len(), ']', Tok::RBrack);
            let end = lex_kinds(lex_from(s, a + m.len()));
            let f = items_form(xs, 0, false, false);
            if xs.len() == 0 {
                assert(body =~= Seq::<char>::empty());
                assert(f =~= Seq::<Tok>::empty());
            } else {
                assert(xs.skip(0) =~= xs);
                lemma_lex_items(xs, 0, s, a + 1);
            }
            lemma_prefix_assoc(f, seq![Tok::RBrack], end);
            lemma_prefix_assoc(seq![Tok::LBrack], f + seq![Tok::RBrack], end);
            assert(seq![Tok::LBrack] + (f + seq![Tok::RBrack]) =~= token_form(t, false));
        },
        Tree::Obj(ps) => {
            let body = crate::spell::min_pairs(ps);
            assert(m == seq!['{'] + body + seq!['}']);
            lemma_text_split(s, a, seq!['{'] + body, seq!['}']);
            lemma_text_split(s, a, seq!['{'], body);
            assert(s[a + 0] == seq!['{'][0]);
            assert(s[a + 1 + body.len() + 0] == seq!['}'][0]);
            lemma_lex_punct(s, a, '{', Tok::LBrace);
            lemma_lex_punct(s, a + 1 + body.len(), '}', Tok::RBrace);
            let end = lex_kinds(lex_from(s, a + m.len()));
            let f = pairs_form(ps, 0, false);
            if ps.len() == 0 {
                assert(body =~= Seq::<char>::empty());
                assert(f =~= Seq::<Tok>::empty());
            } else {
                assert(ps.skip(0) =~= ps);
                lemma_lex_pairs(ps, 0, s, a + 1);
            }
            lemma_prefix_assoc(f, seq![Tok::RBrace], end);
            lemma_prefix_assoc(seq![Tok::LBrace], f + seq![Tok::RBrace], end);
            assert(seq![Tok::LBrace] + (f + seq![Tok::RBrace]) =~= token_form(t, false));
        },
    }
}

proof fn lemma_lex_items(xs: Seq<Tree>, k: int, s: Seq<char>, b: int)
    requires
        0 <= k < xs.len(),
        forall|i: int| 0 <= i < xs.len() ==> numbers_lexable(#[trigger] xs[i]),
        text_at(s, b, crate::spell::min_items(xs.skip(k))),
        stops_at(s, b + crate::spell::min_items(xs.skip(k)).len()),
    ensures
        lex_kinds(lex_from(s, b)) == prefix_kinds(
            items_form(xs, k, false, false),
            lex_kinds(lex_from(s, b + crate::spell::min_items(xs.skip(k)).len())),
        ),
    decreases xs, xs.len() - k,
{
    let u = xs.skip(k);
    lemma_min_items_front(u);
    assert(u[0] == xs[k]);
    assert(u.drop_first() =~= xs.skip(k + 1));
    let v = min_spelling(xs[k]);
    let whole = crate::spell::min_items(u);
    let end = lex_kinds(lex_from(s, b + whole.len()));
    if k + 1 < xs.len() {
        let rest = crate::spell::min_items(xs.skip(k + 1));
        assert(whole == v + (seq![','] + rest));
        lemma_text_split(s, b, v, seq![','] + rest);
        lemma_text_split(s, b + v.len(), seq![','], rest);
        assert(s[b + v.len() + 0] == seq![','][0]);
        lemma_lex_value(xs[k], s, b);
        lemma_lex_punct(s, b + v.len(), ',', Tok::Comma);
        lemma_lex_items(xs, k + 1, s, b + v.len() + 1);
        let fk = token_form(xs[k], false);
        let fr = items_form(xs, k + 1, false, false);
        lemma_prefix_assoc(seq![Tok::Comma], fr, end);
        lemma_prefix_assoc(fk, seq![Tok::Comma] + fr, end);
        assert(fk + (seq![Tok::Comma] + fr) =~= items_form(xs, k, false, false));
    } else {
        assert(whole =~= v);
        lemma_lex_value(xs[k], s, b);
        assert(items_form(xs, k + 1, false, false) =~= Seq::<Tok>::empty());
        assert(token_form(xs[k], false) + Seq::<Tok>::empty() + Seq::<Tok>::empty()
            =~= token_form(xs[k], false));
    }
}

#[verifier::rlimit(40)]
proof fn lemma_lex_pairs(ps: Seq<(Seq<char>, Tree)>, k: int, s: Seq<char>, b: int)
    requires
        0 <= k < ps.len(),
        forall|i: int| 0 <= i < ps.len() ==> numbers_lexable(#[trigger] ps[i].1),
        text_at(s, b, crate::spell::min_pairs(ps.skip(k))),
        stops_at(s, b + crate::spell::min_pairs(ps.skip(k)).len()),
    ensures
        lex_kinds(lex_from(s, b)) == prefix_kinds(
            pairs_form(ps, k, false),
            lex_kinds(lex_from(s, b + crate::spell::min_pairs(ps.skip(k)).len())),
        ),
    decreases ps, ps.len() - k,
{
    let u = ps.skip(k);
    lemma_min_pairs_front(u);
    assert(u[0] == ps[k]);
    assert(u.drop_first() =~= ps.skip(k + 1));
    let key = ps[k].0;
    let ks = key_spelling(key);
    let v = min_spelling(ps[k].1);
    let entry = min_entry(ps[k]);
    let whole = crate::spell::min_pairs(u);
    let end = lex_kinds(lex_from(s, b + whole.len()));
    let tail: Seq<char> = if k + 1 < ps.len() {
        seq![','] + crate::spell::min_pairs(ps.skip(k + 1))
    } else {
        Seq::empty()
    };
    assert(whole =~= ks + (seq![':'] + (v + tail)));
    lemma_text_split(s, b, ks, seq![':'] + (v + tail));
    lemma_text_split(s, b + ks.len(), seq![':'], v + tail);
    lemma_text_split(s, b + ks.len() + 1, v, tail);
    assert(s[b + ks.len() + 0] == seq![':'][0]);
    lemma_lex_key(key, s, b);
    lemma_lex_punct(s, b + ks.len(), ':', Tok::Colon);
    let vb = b + ks.len() + 1;
    let fk = token_form(ps[k].1, false);
    let fr = pairs_form(ps, k + 1, false);
    let head = seq![key_tok(key), Tok::Colon];
    if k + 1 < ps.len() {
        let rest = crate::spell::min_pairs(ps.skip(k + 1));
        lemma_text_split(s, vb + v.len(), seq![','], rest);
        assert(s[vb + v.len() + 0] == seq![','][0]);
        lemma_lex_value(ps[k].1, s, vb);
        lemma_lex_punct(s, vb + v.len(), ',', Tok::Comma);
        lemma_lex_pairs(ps, k + 1, s, vb + v.len() + 1);
        lemma_prefix_assoc(seq![Tok::Comma], fr, end);
        lemma_prefix_assoc(fk, seq![Tok::Comma] + fr, end);
        lemma_prefix_assoc(seq![Tok::Colon], fk + (seq![Tok::Comma] + fr), end);
        lemma_prefix_assoc(seq![key_tok(key)], seq![Tok::Colon] + (fk + (seq![Tok::Comma] + fr)), end);
        assert(seq![key_tok(key)] + (seq![Tok::Colon] + (fk + (seq![Tok::Comma] + fr)))
            =~= pairs_form(ps, k, false));
    } else {
        assert(tail =~= Seq::<char>::empty());
        lemma_lex_value(ps[k].1, s, vb);
        assert(fr =~= Seq::<Tok>::empty());
        lemma_prefix_assoc(seq![Tok::Colon], fk, end);
        lemma_prefix_assoc(seq![key_tok(key)], seq![Tok::Colon] + fk, end);
        assert(seq![key_tok(key)] + (seq![Tok::Colon] + fk) =~= pairs_form(ps, k, false));
    }
}

/// Parsing the minimal spelling of a well-formed value gives the value back, wherever each of
/// its numeric literals is number text, or `-` and number text.
pub proof fn law_min_spell_reads_back(t: Tree)
    requires
        crate::value::tree_wf(t),
        numbers_lexable(t),
    ensures
        parse_text(min_spelling(t)) == Ok::<Tree, crate::parser::ErrView>(t),
{
    let m = min_spelling(t);
    assert forall|j: int| 0 <= j < m.len() implies m[0 + j] == #[trigger] m[j] by {}
    lemma_lex_value(t, m, 0);
    let ts = lex(m)->Ok_0;
    assert(kinds(ts) =~= token_form(t, false) + Seq::<Tok>::empty());
    assert(token_form(t, false) + Seq::<Tok>::empty() =~= token_form(t, false));
    law_token_form_reads_back(t, false, ts);
}

/// A configuration whose indentation is whitespace, which reading skips.
pub open spec fn layout_reads_back(cfg: SpellConfig) -> bool {
    crate::token::is_ws(cfg.indent_char)
}

/// The nesting column at which the pretty spelling writes the entries of the list `xs` that
/// stands at column `ind`.
pub open spec fn items_column(xs: Seq<Tree>, ind: usize, cfg: SpellConfig) -> usize {
    if one_line(xs) {
        0
    } else {
        sat_add(ind, cfg.indent_amount)
    }
}

/// Every string of `t`, written at the column where the pretty spelling writes it, comes out
/// as its plain literal: squashing and wrapping leave it as it is.
pub open spec fn strings_kept(t: Tree, ind: usize, cfg: SpellConfig) -> bool
    decreases t,
{
    match t {
        Tree::Str(s, raw) => crate::spell::pretty_str(s, raw, ind, cfg) == crate::spell::literal(
            s,
            raw,
        ),
        Tree::List(xs) => forall|i: int|
            0 <= i < xs.len() ==> strings_kept(#[trigger] xs[i], items_column(xs, ind, cfg), cfg),
        Tree::Obj(ps) => forall|i: int|
            0 <= i < ps.len() ==> strings_kept(
                #[trigger] ps[i].1,
                sat_add(ind, cfg.indent_amount),
                cfg,
            ),
        _ => true,
    }
}

/// With wrapping off, every string is kept.
proof fn lemma_unwrapped_keeps_strings(t: Tree, ind: usize, cfg: SpellConfig)
    requires
        cfg.max_width == 0,
    ensures
        strings_kept(t, ind, cfg),
    decreases t,
{
    match t {
        Tree::List(xs) => {
            assert forall|i: int| 0 <= i < xs.len() implies strings_kept(
                #[trigger] xs[i],
                items_column(xs, ind, cfg),
                cfg,
            ) by {
                lemma_unwrapped_keeps_strings(xs[i], items_column(xs, ind, cfg), cfg);
            }
        },
        Tree::Obj(ps) => {
            assert forall|i: int| 0 <= i < ps.len() implies strings_kept(
                #[trigger] ps[i].1,
                sat_add(ind, cfg.indent_amount),
                cfg,
            ) by {
                lemma_unwrapped_keeps_strings(ps[i].1, sat_add(ind, cfg.indent_amount), cfg);
            }
        },
        _ => {},
    }
}

/// Whitespace between tokens is skipped.
proof fn lemma_ws_skip(s: Seq<char>, a: int, n: int)
    requires
        0 <= a,
        0 <= n,
        a + n <= s.len(),
        forall|j: int| a <= j < a + n ==> crate::token::is_ws(#[trigger] s[j]),
    ensures
        lex_from(s, a) == lex_from(s, a + n),
    decreases n,
{
    if n > 0 {
        lemma_ws_skip(s, a + 1, n - 1);
    }
}

proof fn lemma_ws_text(s: Seq<char>, a: int, w: Seq<char>)
    requires
        text_at(s, a, w),
        forall|j: int| 0 <= j < w.len() ==> crate::token::is_ws(#[trigger] w[j]),
    ensures
        lex_from(s, a) == lex_from(s, a + w.len()),
{
    assert forall|j: int| a <= j < a + w.len() implies crate::token::is_ws(#[trigger] s[j]) by {
        assert(s[a + (j - a)] == w[j - a]);
    }
    lemma_ws_skip(s, a, w.len() as int);
}

/// The token kinds of the first `n` pairs of an object.
pub open spec fn pairs_prefix(ps: Seq<(Seq<char>, Tree)>, n: int, trailing: bool) -> Seq<Tok>
    decreases n,
{
    if n <= 0 || n > ps.len() {
        Seq::empty()
    } else {
        pairs_prefix(ps, n - 1, trailing) + seq![key_tok(ps[n - 1].0), Tok::Colon] + token_form(
            ps[n - 1].1,
            trailing,
        ) + (if n < ps.len() || trailing {
            seq![Tok::Comma]
        } else {
            Seq::empty()
        })
    }
}

/// The token kinds of the first `n` entries of a list; `last_comma` as in `items_form`.
pub open spec fn items_prefix(xs: Seq<Tree>, n: int, trailing: bool, last_comma: bool) -> Seq<Tok>
    decreases n,
{
    if n <= 0 || n > xs.len() {
        Seq::empty()
    } else {
        items_prefix(xs, n - 1, trailing, last_comma) + token_form(xs[n - 1], trailing) + (if n
            < xs.len() || last_comma {
            seq![Tok::Comma]
        } else {
            Seq::empty()
        })
    }
}

proof fn lemma_pairs_prefix_form(ps: Seq<(Seq<char>, Tree)>, n: int, trailing: bool)
    requires
        0 <= n <= ps.len(),
    ensures
        pairs_form(ps, 0, trailing) == pairs_prefix(ps, n, trailing) + pairs_form(ps, n, trailing),
    decreases n,
{
    if n == 0 {
        assert(Seq::<Tok>::empty() + pairs_form(ps, 0, trailing) =~= pairs_form(ps, 0, trailing));
    } else {
        lemma_pairs_prefix_form(ps, n - 1, trailing);
        let c: Seq<Tok> = if n < ps.len() || trailing {
            seq![Tok::Comma]
        } else {
            Seq::empty()
        };
        assert(pairs_form(ps, n - 1, trailing) == seq![key_tok(ps[n - 1].0), Tok::Colon]
            + token_form(ps[n - 1].1, trailing) + c + pairs_form(ps, n, trailing));
        assert(pairs_prefix(ps, n - 1, trailing) + pairs_form(ps, n - 1, trailing)
            =~= pairs_prefix(ps, n, trailing) + pairs_form(ps, n, trailing));
    }
}

proof fn lemma_items_prefix_form(xs: Seq<Tree>, n: int, trailing: bool, last_comma: bool)
    requires
        0 <= n <= xs.len(),
    ensures
        items_form(xs, 0, trailing, last_comma) == items_prefix(xs, n, trailing, last_comma)
            + items_form(xs, n, trailing, last_comma),
    decreases n,
{
    if n == 0 {
        assert(Seq::<Tok>::empty() + items_form(xs, 0, trailing, last_comma) =~= items_form(
            xs,
            0,
            trailing,
            last_comma,
        ));
    } else {
        lemma_items_prefix_form(xs, n - 1, trailing, last_comma);
        assert(items_prefix(xs, n - 1, trailing, last_comma) + items_form(
            xs,
            n - 1,
            trailing,
            last_comma,
        ) =~= items_prefix(xs, n, trailing, last_comma) + items_form(xs, n, trailing, last_comma));
    }
}

/// The token kinds of the first `n` entries of a one-line list, without the comma after the
/// last of them.
pub open spec fn inline_prefix(xs: Seq<Tree>, n: int, trailing: bool) -> Seq<Tok>
    decreases n,
{
    if n <= 0 || n > xs.len() {
        Seq::empty()
    } else if n == 1 {
        token_form(xs[0], trailing)
    } else {
        inline_prefix(xs, n - 1, trailing) + seq![Tok::Comma] + token_form(xs[n - 1], trailing)
    }
}

proof fn lemma_inline_prefix(xs: Seq<Tree>, n: int, trailing: bool)
    requires
        1 <= n <= xs.len(),
    ensures
        items_prefix(xs, n, trailing, false) == inline_prefix(xs, n, trailing) + (if n < xs.len() {
            seq![Tok::Comma]
        } else {
            Seq::empty()
        }),
    decreases n,
{
    if n == 1 {
        assert(items_prefix(xs, 0, trailing, false) =~= Seq::<Tok>::empty());
        assert(items_prefix(xs, 1, trailing, false) =~= inline_prefix(xs, 1, trailing) + (if 1
            < xs.len() {
            seq![Tok::Comma]
        } else {
            Seq::empty()
        }));
    } else {
        lemma_inline_prefix(xs, n - 1, trailing);
        assert(items_prefix(xs, n, trailing, false) =~= inline_prefix(xs, n, trailing) + (if n
            < xs.len() {
            seq![Tok::Comma]
        } else {
            Seq::empty()
        }));
    }
}

proof fn lemma_prefix_empty(r: Option<Seq<Tok>>)
    ensures
        prefix_kinds(Seq::empty(), r) == r,
{
    if let Some(k) = r {
        assert(Seq::<Tok>::empty() + k =~= k);
    }
}

proof fn lemma_indent_is_ws(n: nat, c: char)
    requires
        crate::token::is_ws(c),
    ensures
        forall|j: int| 0 <= j < n ==> crate::token::is_ws(#[trigger] indent_str(n, c)[j]),
{
}

/// The end of an entry of a multi-line object or list, a comma or not and a line break, lexes
/// as the comma where there is one.
proof fn lemma_lex_entry_end(s: Seq<char>, a: int, i: int, n: int, cfg: SpellConfig)
    requires
        text_at(s, a, crate::spell::entry_end(i, n, cfg)),
    ensures
        lex_kinds(lex_from(s, a)) == prefix_kinds(
            if !cfg.trailing_commas && i == n - 1 {
                Seq::<Tok>::empty()
            } else {
                seq![Tok::Comma]
            },
            lex_kinds(lex_from(s, a + crate::spell::entry_end(i, n, cfg).len())),
        ),
{
    let e = crate::spell::entry_end(i, n, cfg);
    if !cfg.trailing_commas && i == n - 1 {
        lemma_ws_text(s, a, e);
        lemma_prefix_empty(lex_kinds(lex_from(s, a + e.len())));
    } else {
        lemma_text_split(s, a, seq![','], seq!['\n']);
        assert(s[a + 0] == seq![','][0]);
        lemma_lex_punct(s, a, ',', Tok::Comma);
        lemma_ws_text(s, a + 1, seq!['\n']);
    }
}

/// The pretty spelling of `t` at `a`, followed by a place where tokens stop, lexes as the
/// tokens that spell `t`.
#[verifier::rlimit(60)]
proof fn lemma_pretty_value(t: Tree, ind: usize, cfg: SpellConfig, s: Seq<char>, a: int)
    requires
        layout_reads_back(cfg),
        numbers_lexable(t),
        strings_kept(t, ind, cfg),
        text_at(s, a, pretty(t, ind, cfg)),
        stops_at(s, a + pretty(t, ind, cfg).len()),
    ensures
        lex_kinds(lex_from(s, a)) == prefix_kinds(
            token_form(t, cfg.trailing_commas),
            lex_kinds(lex_from(s, a + pretty(t, ind, cfg).len())),
        ),
    decreases t, 0nat,
{
    let tr = cfg.trailing_commas;
    let p = pretty(t, ind, cfg);
    let end = lex_kinds(lex_from(s, a + p.len()));
    lemma_indent_is_ws(ind as nat, cfg.indent_char);
    match t {
        Tree::List(xs) => {
            if xs.len() == 0 {
                assert(p =~= seq!['['] + seq![']']);
                lemma_text_split(s, a, seq!['['], seq![']']);
                assert(s[a + 0] == seq!['['][0]);
                assert(s[a + 1 + 0] == seq![']'][0]);
                lemma_lex_punct(s, a, '[', Tok::LBrack);
                lemma_lex_punct(s, a + 1, ']', Tok::RBrack);
                lemma_prefix_assoc(seq![Tok::LBrack], seq![Tok::RBrack], end);
                assert(seq![Tok::LBrack] + seq![Tok::RBrack] =~= token_form(t, tr));
            } else if one_line(xs) {
                let body = inline_items(xs, cfg);
                assert(p == seq!['['] + body + seq![']']);
                lemma_text_split(s, a, seq!['['] + body, seq![']']);
                lemma_text_split(s, a, seq!['['], body);
                assert(s[a + 0] == seq!['['][0]);
                assert(s[a + 1 + body.len() + 0] == seq![']'][0]);
                lemma_lex_punct(s, a, '[', Tok::LBrack);
                lemma_inline_upto(xs, xs.len() as int, cfg, s, a + 1);
                lemma_lex_punct(s, a + 1 + body.len(), ']', Tok::RBrack);
                lemma_inline_prefix(xs, xs.len() as int, tr);
                lemma_items_prefix_form(xs, xs.len() as int, tr, false);
                let f = inline_prefix(xs, xs.len() as int, tr);
                assert(items_form(xs, xs.len() as int, tr, false) =~= Seq::<Tok>::empty());
                assert(items_form(xs, 0, tr, false) =~= f);
                lemma_prefix_assoc(f, seq![Tok::RBrack], end);
                lemma_prefix_assoc(seq![Tok::LBrack], f + seq![Tok::RBrack], end);
                assert(seq![Tok::LBrack] + (f + seq![Tok::RBrack]) =~= token_form(t, tr));
            } else {
                let body = crate::spell::pretty_items(xs, ind, cfg);
                let close = indent_str(ind as nat, cfg.indent_char);
                assert(p == seq!['[', '\n'] + body + close + seq![']']);
                assert(p =~= seq!['['] + (seq!['\n'] + (body + (close + seq![']']))));
                lemma_text_split(s, a, seq!['['], seq!['\n'] + (body + (close + seq![']'])));
                lemma_text_split(s, a + 1, seq!['\n'], body + (close + seq![']']));
                lemma_text_split(s, a + 2, body, close + seq![']']);
                lemma_text_split(s, a + 2 + body.len(), close, seq![']']);
                assert(s[a + 0] == seq!['['][0]);
                let cb = a + 2 + body.len() + close.len();
                assert(s[cb + 0] == seq![']'][0]);
                lemma_lex_punct(s, a, '[', Tok::LBrack);
                lemma_ws_text(s, a + 1, seq!['\n']);
                lemma_items_upto(xs, xs.len() as int, ind, cfg, s, a + 2);
                lemma_ws_text(s, a + 2 + body.len(), close);
                lemma_lex_punct(s, cb, ']', Tok::RBrack);
                lemma_items_prefix_form(xs, xs.len() as int, tr, tr);
                let f = items_prefix(xs, xs.len() as int, tr, tr);
                assert(items_form(xs, xs.len() as int, tr, tr) =~= Seq::<Tok>::empty());
                assert(items_form(xs, 0, tr, tr) =~= f);
                lemma_prefix_assoc(f, seq![Tok::RBrack], end);
                lemma_prefix_assoc(seq![Tok::LBrack], f + seq![Tok::RBrack], end);
                assert(seq![Tok::LBrack] + (f + seq![Tok::RBrack]) =~= token_form(t, tr));
            }
        },
        Tree::Obj(ps) => {
            let body = crate::spell::pretty_pairs(ps, ind, cfg);
            let close = indent_str(ind as nat, cfg.indent_char);
            assert(p == seq!['{', '\n'] + body + close + seq!['}']);
            assert(p =~= seq!['{'] + (seq!['\n'] + (body + (close + seq!['}']))));
            lemma_text_split(s, a, seq!['{'], seq!['\n'] + (body + (close + seq!['}'])));
            lemma_text_split(s, a + 1, seq!['\n'], body + (close + seq!['}']));
            lemma_text_split(s, a + 2, body, close + seq!['}']);
            lemma_text_split(s, a + 2 + body.len(), close, seq!['}']);
            assert(s[a + 0] == seq!['{'][0]);
            let cb = a + 2 + body.len() + close.len();
            assert(s[cb + 0] == seq!['}'][0]);
            lemma_lex_punct(s, a, '{', Tok::LBrace);
            lemma_ws_text(s, a + 1, seq!['\n']);
            if ps.len() == 0 {
                assert(body =~= Seq::<char>::empty());
                lemma_prefix_empty(lex_kinds(lex_from(s, a + 2)));
            } else {
                lemma_pairs_upto(ps, ps.len() as int, ind, cfg, s, a + 2);
            }
            lemma_ws_text(s, a + 2 + body.len(), close);
            lemma_lex_punct(s, cb, '}', Tok::RBrace);
            lemma_pairs_prefix_form(ps, ps.len() as int, tr);
            let f = pairs_prefix(ps, ps.len() as int, tr);
            assert(pairs_form(ps, ps.len() as int, tr) =~= Seq::<Tok>::empty());
            assert(pairs_form(ps, 0, tr) =~= f);
            lemma_prefix_assoc(f, seq![Tok::RBrace], end);
            lemma_prefix_assoc(seq![Tok::LBrace], f + seq![Tok::RBrace], end);
            assert(seq![Tok::LBrace] + (f + seq![Tok::RBrace]) =~= token_form(t, tr));
        },
        _ => {
            assert(p == min_spelling(t));
            lemma_lex_value(t, s, a);
            assert(token_form(t, tr) == token_form(t, false));
        },
    }
}

/// The first `n` entries of a one-line list, followed by a place where tokens stop.
proof fn lemma_inline_upto(xs: Seq<Tree>, n: int, cfg: SpellConfig, s: Seq<char>, b: int)
    requires
        1 <= n <= xs.len(),
        layout_reads_back(cfg),
        forall|i: int| 0 <= i < xs.len() ==> numbers_lexable(#[trigger] xs[i]),
        forall|i: int| 0 <= i < xs.len() ==> strings_kept(#[trigger] xs[i], 0, cfg),
        text_at(s, b, crate::spell::inline_items_upto(xs, n, cfg)),
        stops_at(s, b + crate::spell::inline_items_upto(xs, n, cfg).len()),
    ensures
        lex_kinds(lex_from(s, b)) == prefix_kinds(
            inline_prefix(xs, n, cfg.trailing_commas),
            lex_kinds(lex_from(s, b + crate::spell::inline_items_upto(xs, n, cfg).len())),
        ),
    decreases xs, n,
{
    let tr = cfg.trailing_commas;
    let whole = crate::spell::inline_items_upto(xs, n, cfg);
    let end = lex_kinds(lex_from(s, b + whole.len()));
    if n == 1 {
        lemma_pretty_value(xs[0], 0, cfg, s, b);
    } else {
        let pre = crate::spell::inline_items_upto(xs, n - 1, cfg);
        let v = pretty(xs[n - 1], 0, cfg);
        assert(whole == pre + seq![',', ' '] + v);
        assert(whole =~= pre + (seq![','] + (seq![' '] + v)));
        lemma_text_split(s, b, pre, seq![','] + (seq![' '] + v));
        lemma_text_split(s, b + pre.len(), seq![','], seq![' '] + v);
        lemma_text_split(s, b + pre.len() + 1, seq![' '], v);
        assert(s[b + pre.len() + 0] == seq![','][0]);
        lemma_inline_upto(xs, n - 1, cfg, s, b);
        lemma_lex_punct(s, b + pre.len(), ',', Tok::Comma);
        lemma_ws_text(s, b + pre.len() + 1, seq![' ']);
        lemma_pretty_value(xs[n - 1], 0, cfg, s, b + pre.len() + 2);
        let fp = inline_prefix(xs, n - 1, tr);
        let fv = token_form(xs[n - 1], tr);
        lemma_prefix_assoc(seq![Tok::Comma], fv, end);
        lemma_prefix_assoc(fp, seq![Tok::Comma] + fv, end);
        assert(fp + (seq![Tok::Comma] + fv) =~= inline_prefix(xs, n, tr));
    }
}

/// The first `n` entry lines of a multi-line list.
proof fn lemma_items_upto(xs: Seq<Tree>, n: int, ind: usize, cfg: SpellConfig, s: Seq<char>, b: int)
    requires
        0 <= n <= xs.len(),
        layout_reads_back(cfg),
        forall|i: int| 0 <= i < xs.len() ==> numbers_lexable(#[trigger] xs[i]),
        forall|i: int|
            0 <= i < xs.len() ==> strings_kept(
                #[trigger] xs[i],
                sat_add(ind, cfg.indent_amount),
                cfg,
            ),
        text_at(s, b, crate::spell::pretty_items_upto(xs, n, ind, cfg)),
    ensures
        lex_kinds(lex_from(s, b)) == prefix_kinds(
            items_prefix(xs, n, cfg.trailing_commas, cfg.trailing_commas),
            lex_kinds(lex_from(s, b + crate::spell::pretty_items_upto(xs, n, ind, cfg).len())),
        ),
    decreases xs, n,
{
    let tr = cfg.trailing_commas;
    let whole = crate::spell::pretty_items_upto(xs, n, ind, cfg);
    let end = lex_kinds(lex_from(s, b + whole.len()));
    if n == 0 {
        assert(whole =~= Seq::<char>::empty());
        lemma_prefix_empty(end);
    } else {
        let inner = sat_add(ind, cfg.indent_amount);
        let pre = crate::spell::pretty_items_upto(xs, n - 1, ind, cfg);
        let idt = indent_str(inner as nat, cfg.indent_char);
        let v = pretty(xs[n - 1], inner, cfg);
        let e = crate::spell::entry_end(n - 1, xs.len() as int, cfg);
        assert(whole == pre + idt + v + e);
        assert(whole =~= pre + (idt + (v + e)));
        lemma_text_split(s, b, pre, idt + (v + e));
        lemma_text_split(s, b + pre.len(), idt, v + e);
        lemma_text_split(s, b + pre.len() + idt.len(), v, e);
        let vb = b + pre.len() + idt.len();
        assert(s[vb + v.len() + 0] == e[0]);
        lemma_items_upto(xs, n - 1, ind, cfg, s, b);
        lemma_indent_is_ws(inner as nat, cfg.indent_char);
        lemma_ws_text(s, b + pre.len(), idt);
        lemma_pretty_value(xs[n - 1], inner, cfg, s, vb);
        lemma_lex_entry_end(s, vb + v.len(), n - 1, xs.len() as int, cfg);
        let fp = items_prefix(xs, n - 1, tr, tr);
        let fv = token_form(xs[n - 1], tr);
        let c: Seq<Tok> = if !tr && n - 1 == xs.len() - 1 {
            Seq::empty()
        } else {
            seq![Tok::Comma]
        };
        lemma_prefix_assoc(fv, c, end);
        lemma_prefix_assoc(fp, fv + c, end);
        assert(fp + (fv + c) =~= items_prefix(xs, n, tr, tr));
    }
}

/// The first `n` pair lines of an object.
#[verifier::rlimit(40)]
proof fn lemma_pairs_upto(
    ps: Seq<(Seq<char>, Tree)>,
    n: int,
    ind: usize,
    cfg: SpellConfig,
    s: Seq<char>,
    b: int,
)
    requires
        0 <= n <= ps.len(),
        layout_reads_back(cfg),
        forall|i: int| 0 <= i < ps.len() ==> numbers_lexable(#[trigger] ps[i].1),
        forall|i: int|
            0 <= i < ps.len() ==> strings_kept(
                #[trigger] ps[i].1,
                sat_add(ind, cfg.indent_amount),
                cfg,
            ),
        text_at(s, b, crate::spell::pretty_pairs_upto(ps, n, ind, cfg)),
    ensures
        lex_kinds(lex_from(s, b)) == prefix_kinds(
            pairs_prefix(ps, n, cfg.trailing_commas),
            lex_kinds(lex_from(s, b + crate::spell::pretty_pairs_upto(ps, n, ind, cfg).len())),
        ),
    decreases ps, n,
{
    let tr = cfg.trailing_commas;
    let whole = crate::spell::pretty_pairs_upto(ps, n, ind, cfg);
    let end = lex_kinds(lex_from(s, b + whole.len()));
    if n == 0 {
        assert(whole =~= Seq::<char>::empty());
        lemma_prefix_empty(end);
    } else {
        let inner = sat_add(ind, cfg.indent_amount);
        let pre = crate::spell::pretty_pairs_upto(ps, n - 1, ind, cfg);
        let idt = indent_str(inner as nat, cfg.indent_char);
        let key = ps[n - 1].0;
        let ks = key_spelling(key);
        let v = pretty(ps[n - 1].1, inner, cfg);
        let e = crate::spell::entry_end(n - 1, ps.len() as int, cfg);
        assert(whole == pre + idt + ks + seq![':', ' '] + v + e);
        assert(whole =~= pre + (idt + (ks + (seq![':'] + (seq![' '] + (v + e))))));
        lemma_text_split(s, b, pre, idt + (ks + (seq![':'] + (seq![' '] + (v + e)))));
        let kb = b + pre.len() + idt.len();
        lemma_text_split(s, b + pre.len(), idt, ks + (seq![':'] + (seq![' '] + (v + e))));
        lemma_text_split(s, kb, ks, seq![':'] + (seq![' '] + (v + e)));
        lemma_text_split(s, kb + ks.len(), seq![':'], seq![' '] + (v + e));
        lemma_text_split(s, kb + ks.len() + 1, seq![' '], v + e);
        let vb = kb + ks.len() + 2;
        lemma_text_split(s, vb, v, e);
        assert(s[kb + ks.len() + 0] == seq![':'][0]);
        assert(s[vb + v.len() + 0] == e[0]);
        lemma_pairs_upto(ps, n - 1, ind, cfg, s, b);
        lemma_indent_is_ws(inner as nat, cfg.indent_char);
        lemma_ws_text(s, b + pre.len(), idt);
        lemma_lex_key(key, s, kb);
        lemma_lex_punct(s, kb + ks.len(), ':', Tok::Colon);
        lemma_ws_text(s, kb + ks.len() + 1, seq![' ']);
        lemma_pretty_value(ps[n - 1].1, inner, cfg, s, vb);
        lemma_lex_entry_end(s, vb + v.len(), n - 1, ps.len() as int, cfg);
        let fp = pairs_prefix(ps, n - 1, tr);
        let fv = token_form(ps[n - 1].1, tr);
        let c: Seq<Tok> = if !tr && n - 1 == ps.len() - 1 {
            Seq::empty()
        } else {
            seq![Tok::Comma]
        };
        lemma_prefix_assoc(fv, c, end);
        lemma_prefix_assoc(seq![Tok::Colon], fv + c, end);
        lemma_prefix_assoc(seq![key_tok(key)], seq![Tok::Colon] + (fv + c), end);
        lemma_prefix_assoc(fp, seq![key_tok(key)] + (seq![Tok::Colon] + (fv + c)), end);
        assert(fp + (seq![key_tok(key)] + (seq![Tok::Colon] + (fv + c))) =~= pairs_prefix(
            ps,
            n,
            tr,
        ));
    }
}

/// Parsing the pretty spelling of a well-formed value gives the value back,
/// `parse(spell(v, cfg)) == v`, where indentation is whitespace, squashing and wrapping leave
/// each string as it is, and each numeric literal is number text, or `-` and number text.
pub proof fn law_pretty_spell_reads_back_kept(t: Tree, cfg: SpellConfig)
    requires
        crate::value::tree_wf(t),
        numbers_lexable(t),
        layout_reads_back(cfg),
        strings_kept(t, 0, cfg),
    ensures
        parse_text(pretty(t, 0, cfg)) == Ok::<Tree, crate::parser::ErrView>(t),
{
    let p = pretty(t, 0, cfg);
    assert forall|j: int| 0 <= j < p.len() implies p[0 + j] == #[trigger] p[j] by {}
    lemma_pretty_value(t, 0, cfg, p, 0);
    let ts = lex(p)->Ok_0;
    assert(kinds(ts) =~= token_form(t, cfg.trailing_commas) + Seq::<Tok>::empty());
    assert(token_form(t, cfg.trailing_commas) + Seq::<Tok>::empty() =~= token_form(
        t,
        cfg.trailing_commas,
    ));
    law_token_form_reads_back(t, cfg.trailing_commas, ts);
}

/// With wrapping off (`max_width` 0) and whitespace indentation, parsing the pretty spelling of
/// a well-formed value gives the value back, wherever each numeric literal is number text, or
/// `-` and number text.
pub proof fn law_pretty_spell_reads_back_unwrapped(t: Tree, cfg: SpellConfig)
    requires
        crate::value::tree_wf(t),
        numbers_lexable(t),
        layout_reads_back(cfg),
        cfg.max_width == 0,
    ensures
        parse_text(pretty(t, 0, cfg)) == Ok::<Tree, crate::parser::ErrView>(t),
{
    lemma_unwrapped_keeps_strings(t, 0, cfg);
    law_pretty_spell_reads_back_kept(t, cfg);
}

/// Where a value starts, a symbol token that spells `none` or `null` in any letter case is read
/// as null, one that spells `true` or `false` as that boolean, and that one token is all that
/// is taken: `None`, `NULL`, `nUlL`, `TRUE` and `False` alike.
pub proof fn law_words_at_value_place(ts: Seq<(Tok, Loc)>, i: int, s: Seq<char>)
    requires
        0 <= i < ts.len(),
        ts[i].0 == Tok::Sym(s),
        null_word(s) || true_word(s) || false_word(s),
    ensures
        crate::parser::value_at(ts, i) == Ok::<Option<(Tree, int)>, crate::parser::ErrView>(
            Some(
                (
                    if null_word(s) {
                        Tree::Null
                    } else if true_word(s) {
                        Tree::Bool(true)
                    } else {
                        Tree::Bool(false)
                    },
                    i + 1,
                ),
            ),
        ),
{
}

} // verus!
