use vstd::prelude::*;

verus! {

/// A GON value: the tree that parsing builds and spelling renders.
#[derive(Debug, PartialEq, Eq)]
pub enum Value {
    /// The absence marker, spelled `None` or `null` in any letter case.
    Null,
    /// A string literal; `raw` marks a literal that was written with an `r` prefix
    /// and is never squashed or wrapped when spelled.
    Str { text: String, raw: bool },
    /// A numeric literal, kept as the text it was written with.
    Num(String),
    Bool(bool),
    Obj(Object),
    List(Vec<Value>),
}

/// The pairs of an object, in the order in which they were read.
/// Keys are unique in a well-formed object (see `tree_wf`).
#[derive(Debug, PartialEq, Eq)]
pub struct Object {
    pub pairs: Vec<(String, Value)>,
}

/// The entries of a list, in order.
#[derive(Debug, PartialEq, Eq)]
pub struct List {
    pub items: Vec<Value>,
}

/// Configures how a `Value` is spelled by `Value::spell`.
#[derive(Copy, Clone, Debug, PartialEq, Eq, Hash)]
pub struct SpellConfig {
    /// Columns added per nesting level.
    pub indent_amount: usize,
    /// The character that indentation is made of.
    pub indent_char: char,
    /// Whether the last entry of a multi-line object or list gets a comma.
    pub trailing_commas: bool,
    /// Width at which non-raw string literals are wrapped; `0` turns wrapping off.
    pub max_width: usize,
}

/// A value as a mathematical tree: what a `Value` means.
pub enum Tree {
    Null,
    Str(Seq<char>, bool),
    Num(Seq<char>),
    Bool(bool),
    Obj(Seq<(Seq<char>, Tree)>),
    List(Seq<Tree>),
}

pub open spec fn tree_of(v: Value) -> Tree
    decreases v,
{
    match v {
        Value::Null => Tree::Null,
        Value::Str { text, raw } => Tree::Str(text@, raw),
        Value::Num(t) => Tree::Num(t@),
        Value::Bool(b) => Tree::Bool(b),
        Value::Obj(o) => Tree::Obj(pairs_tree(o.pairs@)),
        Value::List(xs) => Tree::List(items_tree(xs@)),
    }
}

pub open spec fn pairs_tree(ps: Seq<(String, Value)>) -> Seq<(Seq<char>, Tree)>
    decreases ps,
{
    Seq::new(
        ps.len(),
        |i: int|
            if 0 <= i < ps.len() {
                (ps[i].0@, tree_of(ps[i].1))
            } else {
                (Seq::empty(), Tree::Null)
            },
    )
}

pub open spec fn items_tree(xs: Seq<Value>) -> Seq<Tree>
    decreases xs,
{
    Seq::new(xs.len(), |i: int| if 0 <= i < xs.len() { tree_of(xs[i]) } else { Tree::Null })
}

impl View for Value {
    type V = Tree;

    open spec fn view(&self) -> Tree {
        tree_of(*self)
    }
}

impl View for Object {
    type V = Seq<(Seq<char>, Tree)>;

    open spec fn view(&self) -> Seq<(Seq<char>, Tree)> {
        pairs_tree(self.pairs@)
    }
}

/// No two pairs share a key.
pub open spec fn keys_unique(pairs: Seq<(Seq<char>, Tree)>) -> bool {
    forall|i: int, j: int|
        0 <= i < pairs.len() && 0 <= j < pairs.len() && i != j ==> #[trigger] pairs[i].0
            != #[trigger] pairs[j].0
}

/// Every object in the tree has unique keys.
pub open spec fn tree_wf(t: Tree) -> bool
    decreases t,
{
    match t {
        Tree::Obj(ps) => keys_unique(ps) && (forall|i: int|
            0 <= i < ps.len() ==> tree_wf(#[trigger] ps[i].1)),
        Tree::List(xs) => forall|i: int| 0 <= i < xs.len() ==> tree_wf(#[trigger] xs[i]),
        _ => true,
    }
}

/// Where `k` stands among the keys of `ps`, or -1.
pub open spec fn key_index(ps: Seq<(Seq<char>, Tree)>, k: Seq<char>) -> int
    decreases ps.len(),
{
    if ps.len() == 0 {
        -1
    } else if ps.last().0 == k {
        ps.len() - 1
    } else {
        key_index(ps.drop_last(), k)
    }
}

/// `ps` with `k` bound to `v`: an existing pair keeps its place and takes the new value,
/// a new key goes last.
pub open spec fn insert_pair(ps: Seq<(Seq<char>, Tree)>, k: Seq<char>, v: Tree) -> Seq<
    (Seq<char>, Tree),
> {
    let i = key_index(ps, k);
    if i >= 0 {
        ps.update(i, (k, v))
    } else {
        ps.push((k, v))
    }
}

pub open spec fn is_digit(c: char) -> bool {
    '0' <= c <= '9'
}

/// A non-empty run of decimal digits.
pub open spec fn all_digits(s: Seq<char>) -> bool {
    s.len() > 0 && forall|i: int| 0 <= i < s.len() ==> is_digit(#[trigger] s[i])
}

/// The number that a run of decimal digits denotes.
pub open spec fn digits_value(s: Seq<char>) -> int
    decreases s.len(),
{
    if s.len() == 0 {
        0
    } else {
        digits_value(s.drop_last()) * 10 + (s.last() as int - '0' as int)
    }
}

/// The integer written by `s`: an optional `+` or `-` followed by decimal digits.
pub open spec fn int_of_text(s: Seq<char>) -> Option<int> {
    if s.len() > 0 && s[0] == '-' && all_digits(s.drop_first()) {
        Some(-digits_value(s.drop_first()))
    } else if s.len() > 0 && s[0] == '+' && all_digits(s.drop_first()) {
        Some(digits_value(s.drop_first()))
    } else if all_digits(s) {
        Some(digits_value(s))
    } else {
        None
    }
}

/// The `i128` written by `s`, where it fits.
pub open spec fn i128_of_text(s: Seq<char>) -> Option<i128> {
    match int_of_text(s) {
        Some(n) => if i128::MIN <= n <= i128::MAX {
            Some(n as i128)
        } else {
            None
        },
        None => None,
    }
}

pub open spec fn num_i128(v: Value) -> Option<i128> {
    match v {
        Value::Num(t) => i128_of_text(t@),
        _ => None,
    }
}

proof fn lemma_digits_value_nonneg(s: Seq<char>)
    requires
        forall|i: int| 0 <= i < s.len() ==> is_digit(#[trigger] s[i]),
    ensures
        digits_value(s) >= 0,
    decreases s.len(),
{
    if s.len() > 0 {
        lemma_digits_value_nonneg(s.drop_last());
    }
}

/// Reads the digits of `t` from index `start` into an `i128`, negated when `neg`;
/// `None` where `t` has no digits there, holds another character, or the number does not fit.
fn read_digits(t: &Vec<char>, start: usize, neg: bool) -> (r: Option<i128>)
    requires
        start <= t@.len(),
    ensures
        r == (if all_digits(t@.skip(start as int)) {
            let n = if neg {
                -digits_value(t@.skip(start as int))
            } else {
                digits_value(t@.skip(start as int))
            };
            if i128::MIN <= n <= i128::MAX {
                Some(n as i128)
            } else {
                None
            }
        } else {
            None
        }),
{
    if start >= t.len() {
        return None;
    }
    let mut acc: i128 = 0;
    let mut i: usize = start;
    while i < t.len()
        invariant
            start <= i <= t@.len(),
            forall|k: int| start <= k < i ==> is_digit(#[trigger] t@[k]),
            acc as int == (if neg {
                -digits_value(t@.subrange(start as int, i as int))
            } else {
                digits_value(t@.subrange(start as int, i as int))
            }),
        decreases t@.len() - i,
    {
        let c = t[i];
        if !('0' <= c && c <= '9') {
            proof {
                assert(t@.skip(start as int)[i - start] == c);
            }
            return None;
        }
        let d: i128 = (c as u32 - '0' as u32) as i128;
        proof {
            let pre = t@.subrange(start as int, i as int);
            let next = t@.subrange(start as int, i + 1);
            assert(next.drop_last() =~= pre);
            assert(next.last() == c);
            assert(digits_value(next) == digits_value(pre) * 10 + d);
            if neg {
                assert(acc * 10 - d == -digits_value(next)) by (nonlinear_arith)
                    requires
                        acc as int == -digits_value(pre),
                        digits_value(next) == digits_value(pre) * 10 + d,
                ;
            } else {
                assert(acc * 10 + d == digits_value(next)) by (nonlinear_arith)
                    requires
                        acc as int == digits_value(pre),
                        digits_value(next) == digits_value(pre) * 10 + d,
                ;
            }
        }
        let m = acc.checked_mul(10);
        let stepped = match m {
            Some(m) => if neg {
                m.checked_sub(d)
            } else {
                m.checked_add(d)
            },
            None => None,
        };
        match stepped {
            Some(s) => {
                acc = s;
            },
            None => {
                proof {
                    // the digits read so far already leave the range, and more digits only grow it
                    let pre = t@.subrange(start as int, i as int);
                    let next = t@.subrange(start as int, i + 1);
                    lemma_digits_value_nonneg(pre);
                    assert(!(i128::MIN <= (if neg {
                        -digits_value(next)
                    } else {
                        digits_value(next)
                    }) <= i128::MAX));
                    if all_digits(t@.skip(start as int)) {
                        assert(t@.skip(start as int).subrange(0, i + 1 - start) =~= t@.subrange(
                            start as int,
                            i + 1,
                        ));
                        lemma_prefix_bound(t@.skip(start as int), (i - start) as int, neg);
                    }
                }
                return None;
            },
        }
        i = i + 1;
    }
    proof {
        assert(t@.subrange(start as int, t@.len() as int) =~= t@.skip(start as int));
    }
    Some(acc)
}

/// A longer run of digits denotes at least as large a number as its prefix.
proof fn lemma_prefix_bound(s: Seq<char>, k: int, neg: bool)
    requires
        0 <= k < s.len(),
        all_digits(s),
        !(i128::MIN <= (if neg {
            -digits_value(s.subrange(0, k + 1))
        } else {
            digits_value(s.subrange(0, k + 1))
        }) <= i128::MAX),
    ensures
        !(i128::MIN <= (if neg {
            -digits_value(s)
        } else {
            digits_value(s)
        }) <= i128::MAX),
{
    lemma_prefix_mono(s, k + 1);
    assert(s.subrange(0, s.len() as int) =~= s);
}

proof fn lemma_prefix_mono(s: Seq<char>, n: int)
    requires
        0 <= n <= s.len(),
        forall|i: int| 0 <= i < s.len() ==> is_digit(#[trigger] s[i]),
    ensures
        digits_value(s.subrange(0, n)) <= digits_value(s),
        digits_value(s.subrange(0, n)) >= 0,
    decreases s.len() - n,
{
    lemma_digits_value_nonneg(s.subrange(0, n));
    if n < s.len() {
        lemma_prefix_mono(s, n + 1);
        let p = s.subrange(0, n + 1);
        assert(p.drop_last() =~= s.subrange(0, n));
        lemma_digits_value_nonneg(p.drop_last());
    } else {
        assert(s.subrange(0, n) =~= s);
    }
}


impl View for List {
    type V = Seq<Tree>;

    open spec fn view(&self) -> Seq<Tree> {
        items_tree(self.items@)
    }
}

impl List {
    /// The list of `items`.
    pub fn new(items: Vec<Value>) -> (r: List)
        ensures
            r@ == items_tree(items@),
    {
        List { items }
    }

    /// The number of entries.
    pub fn len(&self) -> (r: usize)
        ensures
            r == self@.len(),
    {
        self.items.len()
    }

    /// This list as a value.
    pub fn into_value(self) -> (r: Value)
        ensures
            r@ == Tree::List(self@),
    {
        Value::List(self.items)
    }
}

impl Object {
    /// An object with no pairs.
    pub fn new() -> (r: Object)
        ensures
            r@ == Seq::<(Seq<char>, Tree)>::empty(),
    {
        let r = Object { pairs: Vec::new() };
        proof {
            assert(r@ =~= Seq::<(Seq<char>, Tree)>::empty());
        }
        r
    }

    /// Binds `key` to `value`: an existing key keeps its place and takes the new value,
    /// a new key goes last.
    pub fn insert(&mut self, key: String, value: Value)
        ensures
            final(self)@ == insert_pair(old(self)@, key@, value@),
    {
        let ghost ps = self@;
        let mut i: usize = self.pairs.len();
        proof {
            assert(ps.take(i as int) =~= ps);
        }
        while i > 0
            invariant
                i <= self.pairs@.len(),
                ps == self@,
                ps == old(self)@,
                ps.len() == self.pairs@.len(),
                key_index(ps, key@) == key_index(ps.take(i as int), key@),
            decreases i,
        {
            proof {
                assert(ps.take(i as int).drop_last() =~= ps.take(i - 1));
                assert(ps[i - 1].0 == self.pairs@[i - 1].0@);
            }
            if self.pairs[i - 1].0 == key {
                proof {
                    assert(ps.take(i as int).last() == ps[i - 1]);
                    assert(key_index(ps, key@) == i - 1);
                }
                let ghost v = value@;
                let ghost k = key@;
                self.pairs.remove(i - 1);
                self.pairs.insert(i - 1, (key, value));
                proof {
                    assert(self@ =~= ps.update(i - 1, (k, v)));
                    assert(key_index(ps, k) == i - 1);
                    assert(insert_pair(ps, k, v) == ps.update(i - 1, (k, v)));
                }
                return ;
            }
            i = i - 1;
        }
        proof {
            assert(ps.take(0) =~= Seq::<(Seq<char>, Tree)>::empty());
        }
        let ghost v = value@;
        let ghost k = key@;
        self.pairs.push((key, value));
        proof {
            assert(self@ =~= ps.push((k, v)));
        }
    }

    /// The number of pairs.
    pub fn len(&self) -> (r: usize)
        ensures
            r == self@.len(),
    {
        self.pairs.len()
    }
}

impl Value {
    /// The value of a numeric literal as an `i128`: `None` for any other value, for text that
    /// is not an optionally signed run of decimal digits, and for a number that does not fit.
    pub fn as_i128(&self) -> (r: Option<i128>)
        ensures
            r == num_i128(*self),
    {
        match self {
            Value::Num(text) => {
                let t = crate::token::chars_of(text.as_str());
                if t.len() > 0 && (t[0] == '-' || t[0] == '+') {
                    let r = read_digits(&t, 1, t[0] == '-');
                    proof {
                        assert(t@.skip(1) =~= t@.drop_first());
                    }
                    r
                } else {
                    let r = read_digits(&t, 0, false);
                    proof {
                        assert(t@.skip(0) =~= t@);
                    }
                    r
                }
            },
            _ => None,
        }
    }
}

/// A copy of `pairs`, pair by pair.
fn clone_pairs(pairs: &Vec<(String, Value)>, Ghost(whole): Ghost<Value>) -> (r: Vec<(String, Value)>)
    requires
        whole is Obj && whole->Obj_0.pairs == *pairs,
    ensures
        pairs_tree(r@) == pairs_tree(pairs@),
    decreases whole, 0nat,
{
    let mut out: Vec<(String, Value)> = Vec::new();
    let mut i: usize = 0;
    proof {
        assert(pairs_tree(out@) =~= pairs_tree(pairs@).take(0));
    }
    while i < pairs.len()
        invariant
            i <= pairs@.len(),
            whole is Obj && whole->Obj_0.pairs == *pairs,
            out@.len() == i,
            pairs_tree(out@) == pairs_tree(pairs@).take(i as int),
        decreases pairs@.len() - i,
    {
        proof {
            assert(decreases_to!(whole => whole->Obj_0));
            assert(decreases_to!(whole->Obj_0 => whole->Obj_0.pairs));
            assert(decreases_to!(*pairs => pairs@));
            assert(decreases_to!(pairs@ => pairs@[i as int]));
            assert(decreases_to!(pairs@[i as int] => pairs@[i as int].1));
        }
        let k = pairs[i].0.clone();
        let v = pairs[i].1.copy();
        let ghost before = out@;
        out.push((k, v));
        proof {
            assert forall|j: int| 0 <= j < i + 1 implies #[trigger] pairs_tree(out@)[j]
                == pairs_tree(pairs@)[j] by {
                if j < i {
                    assert(out@[j] == before[j]);
                    assert(pairs_tree(before)[j] == pairs_tree(pairs@).take(i as int)[j]);
                }
            }
            assert(pairs_tree(out@) =~= pairs_tree(pairs@).take(i + 1));
        }
        i = i + 1;
    }
    proof {
        assert(pairs_tree(pairs@).take(pairs@.len() as int) =~= pairs_tree(pairs@));
    }
    out
}

impl Value {
    /// A deep copy of this value.
    pub fn copy(&self) -> (r: Value)
        ensures
            r@ == self@,
        decreases self, 1nat,
    {
        match self {
            Value::Null => Value::Null,
            Value::Str { text, raw } => Value::Str { text: text.clone(), raw: *raw },
            Value::Num(t) => Value::Num(t.clone()),
            Value::Bool(b) => Value::Bool(*b),
            Value::Obj(o) => {
                proof {
                    assert(decreases_to!(*self => (*self)->Obj_0));
                }
                let pairs = clone_pairs(&o.pairs, Ghost(*self));
                let r = Value::Obj(Object { pairs });
                proof {
                    assert(r@ == self@);
                }
                r
            },
            Value::List(xs) => {
                let mut out: Vec<Value> = Vec::new();
                let mut i: usize = 0;
                proof {
                    assert(items_tree(out@) =~= items_tree(xs@).take(0));
                }
                while i < xs.len()
                    invariant
                        i <= xs@.len(),
                        *self == Value::List(*xs),
                        out@.len() == i,
                        items_tree(out@) == items_tree(xs@).take(i as int),
                    decreases xs@.len() - i,
                {
                    proof {
                        assert(decreases_to!(*self => (*self)->List_0));
                        assert(decreases_to!(*xs => xs@));
                        assert(decreases_to!(xs@ => xs@[i as int]));
                    }
                    let v = xs[i].copy();
                    let ghost before = out@;
                    out.push(v);
                    proof {
                        assert forall|j: int| 0 <= j < i + 1 implies #[trigger] items_tree(out@)[j]
                            == items_tree(xs@)[j] by {
                            if j < i {
                                assert(out@[j] == before[j]);
                                assert(items_tree(before)[j] == items_tree(xs@).take(i as int)[j]);
                            }
                        }
                        assert(items_tree(out@) =~= items_tree(xs@).take(i + 1));
                    }
                    i = i + 1;
                }
                proof {
                    assert(items_tree(xs@).take(xs@.len() as int) =~= items_tree(xs@));
                }
                Value::List(out)
            },
        }
    }
}

impl Clone for Object {
    fn clone(&self) -> (r: Object)
        ensures
            r@ == self@,
    {
        Object { pairs: clone_pairs(&self.pairs, Ghost(Value::Obj(*self))) }
    }
}

impl Clone for Value {
    fn clone(&self) -> (r: Value)
        ensures
            r@ == self@,
    {
        self.copy()
    }
}

} // verus!
