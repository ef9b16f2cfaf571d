//! The reader: splits source text into tokens, treating the two parentheses
//! as one-character tokens, and folds the token stream into a tree of
//! expression nodes with a stack of open builders.

use crate::error::ParseError;
use crate::lispobject::{atom_obj, lemma_views_of, views_of, LispObject, LispType, ObjModel,
    TypeModel};
use vstd::prelude::*;

verus! {

broadcast use vstd::std_specs::vec::group_vec_axioms, vstd::seq::group_seq_axioms, lemma_views_of;

/// A whitespace character: token separator.
pub open spec fn is_space(c: char) -> bool {
    c == ' ' || c == '\n' || c == '\t' || c == '\r'
}

/// A parenthesis: always a token of its own.
pub open spec fn is_paren(c: char) -> bool {
    c == '(' || c == ')'
}

/// A character that ends a bare token.
pub open spec fn is_stop(c: char) -> bool {
    is_space(c) || is_paren(c)
}

/// The position where the bare token starting at `i` ends: the first
/// position at or after `i` holding a stop character, or the end of text.
pub open spec fn token_end_from(s: Seq<char>, i: int) -> int
    decreases s.len() - i,
{
    if i < 0 || i >= s.len() || is_stop(s[i]) {
        i
    } else {
        token_end_from(s, i + 1)
    }
}

/// `token_end_from` never moves backwards, never runs past the end, skips
/// only non-stop characters, and stops at a stop character or the end.
pub proof fn lemma_token_end_from(s: Seq<char>, i: int)
    requires
        0 <= i <= s.len(),
    ensures
        i <= token_end_from(s, i) <= s.len(),
        forall|k: int| i <= k < token_end_from(s, i) ==> !is_stop(s[k]),
        token_end_from(s, i) < s.len() ==> is_stop(s[token_end_from(s, i)]),
    decreases s.len() - i,
{
    if i < s.len() && !is_stop(s[i]) {
        lemma_token_end_from(s, i + 1);
    }
}

/// The unique position that fits `token_end_from`'s description is that
/// position.
pub proof fn lemma_token_end_from_is(s: Seq<char>, i: int, j: int)
    requires
        0 <= i <= j <= s.len(),
        forall|k: int| i <= k < j ==> !is_stop(s[k]),
        j == s.len() || is_stop(s[j]),
    ensures
        token_end_from(s, i) == j,
    decreases j - i,
{
    if i < j {
        lemma_token_end_from_is(s, i + 1, j);
    }
}

/// The tokens of the text from position `i` on: whitespace separates,
/// parentheses stand alone, any other run of characters is one token.
pub open spec fn spec_tokenize_from(s: Seq<char>, i: int) -> Seq<Seq<char>>
    decreases s.len() - i,
    when i >= 0
    via spec_tokenize_from_decreases
{
    if i < 0 || i >= s.len() {
        Seq::empty()
    } else if is_space(s[i]) {
        spec_tokenize_from(s, i + 1)
    } else if is_paren(s[i]) {
        seq![seq![s[i]]] + spec_tokenize_from(s, i + 1)
    } else {
        seq![s.subrange(i, token_end_from(s, i))] + spec_tokenize_from(s, token_end_from(s, i))
    }
}

#[via_fn]
proof fn spec_tokenize_from_decreases(s: Seq<char>, i: int) {
    if 0 <= i < s.len() && !is_stop(s[i]) {
        lemma_token_end_from(s, i);
        assert(token_end_from(s, i) > i);
    }
}

/// The tokens of the whole text.
pub open spec fn spec_tokenize(s: Seq<char>) -> Seq<Seq<char>> {
    spec_tokenize_from(s, 0)
}

/// Scanning a token past a prefix is scanning it in the suffix, shifted.
proof fn lemma_token_end_shift(a: Seq<char>, b: Seq<char>, k: int)
    requires
        0 <= k <= b.len(),
    ensures
        token_end_from(a + b, a.len() + k) == a.len() + token_end_from(b, k),
    decreases b.len() - k,
{
    if k < b.len() {
        assert((a + b)[a.len() + k] == b[k]);
        if !is_stop(b[k]) {
            lemma_token_end_shift(a, b, k + 1);
        }
    }
}

/// Tokenizing past a prefix is tokenizing the suffix, shifted.
proof fn lemma_tokenize_shift(a: Seq<char>, b: Seq<char>, k: int)
    requires
        0 <= k <= b.len(),
    ensures
        spec_tokenize_from(a + b, a.len() + k) == spec_tokenize_from(b, k),
    decreases b.len() - k,
{
    if k < b.len() {
        assert((a + b)[a.len() + k] == b[k]);
        if is_space(b[k]) {
            lemma_tokenize_shift(a, b, k + 1);
        } else if is_paren(b[k]) {
            lemma_tokenize_shift(a, b, k + 1);
        } else {
            lemma_token_end_shift(a, b, k);
            lemma_token_end_from(b, k);
            let j = token_end_from(b, k);
            assert((a + b).subrange(a.len() + k, a.len() + j) =~= b.subrange(k, j));
            lemma_tokenize_shift(a, b, j);
        }
    }
}

/// Two texts whose joint is a stop character, or where one side is empty,
/// tokenize independently.
pub open spec fn clean_joint(a: Seq<char>, b: Seq<char>) -> bool {
    ||| a.len() == 0
    ||| b.len() == 0
    ||| is_stop(b[0])
    ||| is_stop(a.last())
}

/// A token that starts inside the first text of a clean joint ends inside it.
proof fn lemma_token_end_concat(a: Seq<char>, b: Seq<char>, i: int)
    requires
        0 <= i < a.len(),
        !is_stop(a[i]),
        clean_joint(a, b),
    ensures
        token_end_from(a + b, i) == token_end_from(a, i),
        token_end_from(a, i) <= a.len(),
{
    lemma_token_end_from(a, i);
    let j = token_end_from(a, i);
    assert(forall|k: int| i <= k < j ==> (a + b)[k] == a[k]);
    if j < a.len() {
        assert((a + b)[j] == a[j]);
        lemma_token_end_from_is(a + b, i, j);
    } else {
        if b.len() == 0 {
            assert(a + b =~= a);
        } else {
            assert(!is_stop(a.last()) ==> is_stop(b[0]));
            assert((a + b)[a.len() as int] == b[0]);
            lemma_token_end_from_is(a + b, i, a.len() as int);
        }
    }
}

/// Two texts with a clean joint tokenize independently: the tokens of the
/// whole are the tokens of the parts, in order.
proof fn lemma_tokenize_concat_from(a: Seq<char>, b: Seq<char>, i: int)
    requires
        0 <= i <= a.len(),
        clean_joint(a, b),
    ensures
        spec_tokenize_from(a + b, i) == spec_tokenize_from(a, i) + spec_tokenize(b),
    decreases a.len() - i,
{
    if i == a.len() {
        lemma_tokenize_shift(a, b, 0);
        assert(spec_tokenize_from(a, i) + spec_tokenize(b) =~= spec_tokenize(b));
    } else {
        assert((a + b)[i] == a[i]);
        if is_space(a[i]) {
            lemma_tokenize_concat_from(a, b, i + 1);
        } else if is_paren(a[i]) {
            lemma_tokenize_concat_from(a, b, i + 1);
            assert(seq![seq![a[i]]] + (spec_tokenize_from(a, i + 1) + spec_tokenize(b)) =~= (seq![
                seq![a[i]],
            ] + spec_tokenize_from(a, i + 1)) + spec_tokenize(b));
        } else {
            lemma_token_end_concat(a, b, i);
            let j = token_end_from(a, i);
            lemma_token_end_from(a, i);
            assert((a + b).subrange(i, j) =~= a.subrange(i, j));
            lemma_tokenize_concat_from(a, b, j);
            assert(seq![a.subrange(i, j)] + (spec_tokenize_from(a, j) + spec_tokenize(b)) =~= (seq![
                a.subrange(i, j),
            ] + spec_tokenize_from(a, j)) + spec_tokenize(b));
        }
    }
}

/// Two texts with a clean joint tokenize independently.
pub proof fn lemma_tokenize_concat(a: Seq<char>, b: Seq<char>)
    requires
        clean_joint(a, b),
    ensures
        spec_tokenize(a + b) == spec_tokenize(a) + spec_tokenize(b),
{
    lemma_tokenize_concat_from(a, b, 0);
}

/// A possible bare token: non-empty, and free of whitespace and parentheses.
pub open spec fn token_shaped(s: Seq<char>) -> bool {
    s.len() > 0 && (forall|i: int| 0 <= i < s.len() ==> !is_stop(s[i]))
}

/// An expression the reader could have produced, so one whose rendering
/// reads back: numbers in range; symbol names free of whitespace and
/// parentheses, not shaped like another atom, and — when the node is
/// unquoted — non-empty and not starting with the quote mark; lists
/// unquoted, non-empty and readable throughout; pairs never.
pub open spec fn readable(o: ObjModel) -> bool
    decreases o,
{
    match o.val {
        TypeModel::Number(n) => i64::MIN <= n <= i64::MAX,
        TypeModel::Symbol(s) => {
            &&& (forall|i: int| 0 <= i < s.len() ==> !is_stop(s[i]))
            &&& !crate::lispobject::is_num_token(s)
            &&& s != seq!['t']
            &&& s != seq!['n', 'i', 'l']
            &&& (o.quoted || (s.len() > 0 && s[0] != '\''))
        },
        TypeModel::Bool(_) => true,
        TypeModel::List(l) => !o.quoted && l.len() > 0 && (forall|i: int|
            0 <= i < l.len() ==> readable(l[i])),
        TypeModel::Cons(_) => false,
    }
}

/// Each decimal digit character carries its value and is an ordinary token
/// character, distinct from the marks the reader treats specially.
proof fn lemma_digit_char(d: int)
    requires
        0 <= d <= 9,
    ensures
        crate::lispobject::is_digit(crate::lispobject::digit_char(d)),
        crate::lispobject::digit_val(crate::lispobject::digit_char(d)) == d,
        !is_stop(crate::lispobject::digit_char(d)),
        crate::lispobject::digit_char(d) != '\'',
        crate::lispobject::digit_char(d) != '-',
        crate::lispobject::digit_char(d) != '+',
{
}

/// The decimal rendering of a non-negative value is a non-empty digit run
/// that reads back to the value.
proof fn lemma_dec_digits(n: int)
    requires
        n >= 0,
    ensures
        crate::lispobject::dec_digits(n).len() >= 1,
        crate::lispobject::all_digits(crate::lispobject::dec_digits(n)),
        crate::lispobject::digits_val(crate::lispobject::dec_digits(n)) == n,
        forall|i: int|
            0 <= i < crate::lispobject::dec_digits(n).len() ==> crate::lispobject::is_digit(
                crate::lispobject::dec_digits(n)[i],
            ),
    decreases n,
{
    let ds = crate::lispobject::dec_digits(n);
    if n < 10 {
        lemma_digit_char(n);
        assert(ds == seq![crate::lispobject::digit_char(n)]);
        assert(ds.drop_last() =~= Seq::<char>::empty());
        assert(crate::lispobject::digits_val(ds.drop_last()) == 0);
        assert(crate::lispobject::digits_val(ds) == crate::lispobject::digit_val(ds.last()));
    } else {
        lemma_dec_digits(n / 10);
        lemma_digit_char(n % 10);
        let prefix = crate::lispobject::dec_digits(n / 10);
        assert(ds == prefix.push(crate::lispobject::digit_char(n % 10)));
        assert(ds.drop_last() =~= prefix);
        assert(crate::lispobject::digits_val(ds) == crate::lispobject::digits_val(prefix) * 10
            + crate::lispobject::digit_val(ds.last()));
        assert(crate::lispobject::digits_val(prefix) == n / 10);
        assert(crate::lispobject::digit_val(ds.last()) == n % 10);
        assert(n == (n / 10) * 10 + (n % 10));
        assert forall|i: int| 0 <= i < ds.len() implies crate::lispobject::is_digit(ds[i]) by {
            if i < ds.len() - 1 {
                assert(ds[i] == prefix[i]);
            }
        }
    }
}

/// A digit is an ordinary token character.
proof fn lemma_digit_not_stop(c: char)
    requires
        crate::lispobject::is_digit(c),
    ensures
        !is_stop(c),
        c != '\'',
        c != '-',
        c != '+',
        c != 't',
        c != 'n',
{
}

/// The decimal rendering of an in-range value is a well-shaped numeric
/// token that classifies back to the value.
proof fn lemma_render_int(n: int)
    requires
        i64::MIN <= n <= i64::MAX,
    ensures
        token_shaped(crate::lispobject::render_int(n)),
        crate::lispobject::render_int(n)[0] != '\'',
        crate::lispobject::is_num_token(crate::lispobject::render_int(n)),
        crate::lispobject::num_token_val(crate::lispobject::render_int(n)) == n,
        crate::lispobject::atom_val(crate::lispobject::render_int(n)) == TypeModel::Number(n),
{
    let s = crate::lispobject::render_int(n);
    if n < 0 {
        lemma_dec_digits(-n);
        let ds = crate::lispobject::dec_digits(-n);
        assert(s == seq!['-'] + ds);
        assert(s[0] == '-');
        assert(s.drop_first() =~= ds);
        assert forall|i: int| 0 <= i < s.len() implies !is_stop(s[i]) by {
            if i > 0 {
                assert(s[i] == ds[i - 1]);
                lemma_digit_not_stop(ds[i - 1]);
            }
        }
        assert(crate::lispobject::num_token_val(s) == n);
    } else {
        lemma_dec_digits(n);
        assert forall|i: int| 0 <= i < s.len() implies !is_stop(s[i]) by {
            lemma_digit_not_stop(s[i]);
        }
        lemma_digit_not_stop(s[0]);
        assert(crate::lispobject::num_token_val(s) == crate::lispobject::digits_val(s));
    }
}

/// Rendering an atom gives one well-shaped token, and reading that token
/// back gives the atom again.
proof fn lemma_atom_round(o: ObjModel)
    requires
        readable(o),
        !(o.val is List),
    ensures
        token_shaped(crate::lispobject::render_obj(o)),
        atom_obj(crate::lispobject::render_obj(o)) == o,
{
    let tok = crate::lispobject::render_obj(o);
    let body = crate::lispobject::render_val(o.val);
    match o.val {
        TypeModel::Number(n) => {
            lemma_render_int(n);
            if o.quoted {
                assert(tok == seq!['\''] + body);
                assert(tok[0] == '\'');
                assert(tok.drop_first() =~= body);
                assert forall|i: int| 0 <= i < tok.len() implies !is_stop(tok[i]) by {
                    if i > 0 {
                        assert(tok[i] == body[i - 1]);
                    }
                }
            }
        },
        TypeModel::Symbol(s) => {
            assert(body == s);
            if o.quoted {
                assert(tok == seq!['\''] + s);
                assert(tok[0] == '\'');
                assert(tok.drop_first() =~= s);
                assert forall|i: int| 0 <= i < tok.len() implies !is_stop(tok[i]) by {
                    if i > 0 {
                        assert(tok[i] == s[i - 1]);
                    }
                }
            } else {
                assert(tok == s);
            }
        },
        TypeModel::Bool(b) => {
            if b {
                assert(body == seq!['t']);
                assert(!crate::lispobject::is_digit('t'));
                assert(!crate::lispobject::all_digits(seq!['t']));
                assert(!crate::lispobject::is_num_token(seq!['t']));
            } else {
                assert(body == seq!['n', 'i', 'l']);
                assert(!crate::lispobject::is_digit('n'));
                assert(!crate::lispobject::all_digits(seq!['n', 'i', 'l']));
                assert(!crate::lispobject::is_num_token(seq!['n', 'i', 'l']));
                assert(seq!['n', 'i', 'l'] != seq!['t']);
            }
            if o.quoted {
                assert(tok == seq!['\''] + body);
                assert(tok[0] == '\'');
                assert(tok.drop_first() =~= body);
                assert forall|i: int| 0 <= i < tok.len() implies !is_stop(tok[i]) by {
                    if i > 0 {
                        assert(tok[i] == body[i - 1]);
                    }
                }
            } else {
                assert(tok == body);
                assert(tok[0] != '\'');
            }
        },
        _ => {},
    }
}

/// The character sequences of a sequence of owned strings.
pub open spec fn str_views(s: Seq<String>) -> Seq<Seq<char>>
    decreases s,
{
    if s.len() == 0 {
        Seq::empty()
    } else {
        str_views(s.drop_last()).push(s.last()@)
    }
}

/// `str_views` maps a sequence elementwise: same length, the view at each index.
pub proof fn lemma_str_views(s: Seq<String>)
    ensures
        str_views(s).len() == s.len(),
        forall|i: int| 0 <= i < s.len() ==> str_views(s)[i] == s[i]@,
    decreases s,
{
    if s.len() > 0 {
        lemma_str_views(s.drop_last());
        assert forall|i: int| 0 <= i < s.len() implies str_views(s)[i] == s[i]@ by {
            if i < s.len() - 1 {
                assert(s.drop_last()[i] == s[i]);
            }
        }
    }
}

/// Whether `c` is a whitespace character.
fn space_char(c: char) -> (r: bool)
    ensures
        r == is_space(c),
{
    c == ' ' || c == '\n' || c == '\t' || c == '\r'
}

/// Whether `c` ends a bare token.
fn stop_char(c: char) -> (r: bool)
    ensures
        r == is_stop(c),
{
    space_char(c) || c == '(' || c == ')'
}

/// Splits source text into tokens: whitespace separates, each parenthesis
/// is a token of its own, any other run of characters is one token.
#[verifier::loop_isolation(false)]
pub fn tokenize(code: &str) -> (r: Vec<String>)
    ensures
        str_views(r@) == spec_tokenize(code@),
{
    let n = code.unicode_len();
    let mut toks: Vec<String> = Vec::new();
    let mut i: usize = 0;
    proof {
        lemma_str_views(toks@);
        assert(str_views(toks@) + spec_tokenize_from(code@, 0) =~= spec_tokenize_from(code@, 0));
    }
    while i < n
        invariant
            i <= n,
            spec_tokenize(code@) == str_views(toks@) + spec_tokenize_from(code@, i as int),
        decreases n - i,
    {
        let c = code.get_char(i);
        if space_char(c) {
            i = i + 1;
        } else if c == '(' || c == ')' {
            let ghost toks_pre = toks@;
            let piece = code.substring_char(i, i + 1).to_owned();
            proof {
                assert(piece@ =~= seq![code@[i as int]]);
            }
            toks.push(piece);
            i = i + 1;
            proof {
                assert(toks@.drop_last() =~= toks_pre);
                assert(str_views(toks@) == str_views(toks_pre).push(seq![code@[i - 1]]));
                assert(str_views(toks_pre).push(seq![code@[i - 1]]) + spec_tokenize_from(
                    code@,
                    i as int,
                ) =~= str_views(toks_pre) + (seq![seq![code@[i - 1]]] + spec_tokenize_from(
                    code@,
                    i as int,
                )));
            }
        } else {
            let mut j: usize = i + 1;
            while j < n
                invariant
                    i < j <= n,
                    forall|k: int| i <= k < j ==> !is_stop(code@[k]),
                decreases n - j,
            {
                let cj = code.get_char(j);
                if stop_char(cj) {
                    break;
                }
                j = j + 1;
            }
            proof {
                lemma_token_end_from_is(code@, i as int, j as int);
            }
            let ghost toks_pre = toks@;
            let piece = code.substring_char(i, j).to_owned();
            toks.push(piece);
            proof {
                assert(toks@.drop_last() =~= toks_pre);
                assert(str_views(toks@) == str_views(toks_pre).push(
                    code@.subrange(i as int, j as int),
                ));
                assert(str_views(toks_pre).push(code@.subrange(i as int, j as int))
                    + spec_tokenize_from(code@, j as int) =~= str_views(toks_pre) + (seq![
                    code@.subrange(i as int, j as int),
                ] + spec_tokenize_from(code@, j as int)));
            }
            i = j;
        }
    }
    proof {
        assert(str_views(toks@) + spec_tokenize_from(code@, n as int) =~= str_views(toks@));
    }
    toks
}

/// Ghost mirror of [`WorkingLispObject`]: a builder's state.
pub struct BuilderModel {
    pub done: bool,
    pub objs: Seq<ObjModel>,
}

/// The expression a completed builder stands for: an empty builder is
/// `nil`, a non-empty one is an unquoted list of what it accumulated.
pub open spec fn builder_to_obj(b: BuilderModel) -> ObjModel {
    if b.objs.len() == 0 {
        ObjModel { quoted: false, val: TypeModel::Bool(false) }
    } else {
        ObjModel { quoted: false, val: TypeModel::List(b.objs) }
    }
}

/// One step of the reader on one token. `(` opens a builder. `)` closes
/// the top builder and merges it, as a completed expression, into the
/// builder below; with none below, or with a builder below that is itself
/// already closed, the closed builder is pushed back whole. Any other token
/// is read as an atom and appended to the top builder. `None` marks an
/// unbalanced text: a `)` with no open builder, or an atom with no open
/// builder to hold it.
pub open spec fn read_step(stack: Seq<BuilderModel>, tok: Seq<char>) -> Option<Seq<BuilderModel>> {
    if tok == seq!['('] {
        Some(stack.push(BuilderModel { done: false, objs: Seq::empty() }))
    } else if tok == seq![')'] {
        if stack.len() == 0 {
            None
        } else {
            let elem = BuilderModel { done: true, objs: stack.last().objs };
            let rest = stack.drop_last();
            if rest.len() == 0 || rest.last().done {
                Some(rest.push(elem))
            } else {
                Some(
                    rest.update(
                        rest.len() - 1,
                        BuilderModel {
                            done: rest.last().done,
                            objs: rest.last().objs.push(builder_to_obj(elem)),
                        },
                    ),
                )
            }
        }
    } else {
        if stack.len() == 0 {
            None
        } else {
            Some(
                stack.update(
                    stack.len() - 1,
                    BuilderModel {
                        done: stack.last().done,
                        objs: stack.last().objs.push(atom_obj(tok)),
                    },
                ),
            )
        }
    }
}

/// The reader's stack after folding the tokens from position `i` on, or
/// `None` once a step finds the text unbalanced.
pub open spec fn read_run(toks: Seq<Seq<char>>, i: int, stack: Seq<BuilderModel>) -> Option<
    Seq<BuilderModel>,
>
    decreases toks.len() - i,
{
    if i < 0 || i >= toks.len() {
        Some(stack)
    } else {
        match read_step(stack, toks[i]) {
            None => None,
            Some(st) => read_run(toks, i + 1, st),
        }
    }
}

/// Every builder on the stack has been closed by a `)`.
pub open spec fn all_done(stack: Seq<BuilderModel>) -> bool {
    forall|i: int| 0 <= i < stack.len() ==> stack[i].done
}

/// The top-level expressions the remaining builders stand for, in order.
pub open spec fn builders_to_objs(stack: Seq<BuilderModel>) -> Seq<ObjModel>
    decreases stack,
{
    if stack.len() == 0 {
        Seq::empty()
    } else {
        builders_to_objs(stack.drop_last()).push(builder_to_obj(stack.last()))
    }
}

/// `builders_to_objs` maps a stack elementwise.
pub proof fn lemma_builders_to_objs(stack: Seq<BuilderModel>)
    ensures
        builders_to_objs(stack).len() == stack.len(),
        forall|i: int|
            0 <= i < stack.len() ==> builders_to_objs(stack)[i] == builder_to_obj(stack[i]),
    decreases stack,
{
    if stack.len() > 0 {
        lemma_builders_to_objs(stack.drop_last());
        assert forall|i: int|
            0 <= i < stack.len() implies builders_to_objs(stack)[i] == builder_to_obj(
            stack[i],
        ) by {
            if i < stack.len() - 1 {
                assert(stack.drop_last()[i] == stack[i]);
            }
        }
    }
}

/// What reading a whole text yields: the top-level expressions, one for
/// each completed top-level form, or a parse error when the parentheses do
/// not balance.
pub open spec fn read_spec(text: Seq<char>) -> Result<Seq<ObjModel>, ParseError> {
    match read_run(spec_tokenize(text), 0, Seq::empty()) {
        None => Err(ParseError::Unbalanced),
        Some(stack) => if all_done(stack) {
            Ok(builders_to_objs(stack))
        } else {
            Err(ParseError::Unbalanced)
        },
    }
}

/// A builder under construction: the expressions gathered so far, and
/// whether its closing parenthesis has been seen.
#[derive(Debug)]
struct WorkingLispObject {
    finished: bool,
    objects: Vec<LispObject>,
}

impl View for WorkingLispObject {
    type V = BuilderModel;

    closed spec fn view(&self) -> BuilderModel {
        BuilderModel { done: self.finished, objs: views_of(self.objects@) }
    }
}

/// The builder models of a stack of builders.
spec fn builder_views(s: Seq<WorkingLispObject>) -> Seq<BuilderModel>
    decreases s,
{
    if s.len() == 0 {
        Seq::empty()
    } else {
        builder_views(s.drop_last()).push(s.last()@)
    }
}

/// `builder_views` maps a sequence elementwise.
proof fn lemma_builder_views(s: Seq<WorkingLispObject>)
    ensures
        builder_views(s).len() == s.len(),
        forall|i: int| 0 <= i < s.len() ==> builder_views(s)[i] == s[i]@,
    decreases s,
{
    if s.len() > 0 {
        lemma_builder_views(s.drop_last());
        assert forall|i: int| 0 <= i < s.len() implies builder_views(s)[i] == s[i]@ by {
            if i < s.len() - 1 {
                assert(s.drop_last()[i] == s[i]);
            }
        }
    }
}

impl WorkingLispObject {
    /// A fresh, open builder with nothing gathered.
    fn new() -> (r: Self)
        ensures
            r@ == (BuilderModel { done: false, objs: Seq::empty() }),
    {
        Self { finished: false, objects: Vec::new() }
    }

    /// Marks the builder closed.
    fn set_done(&mut self)
        ensures
            final(self)@ == (BuilderModel { done: true, ..old(self)@ }),
    {
        self.finished = true;
    }

    /// Appends one gathered expression.
    fn push(&mut self, obj: LispObject)
        ensures
            final(self)@ == (BuilderModel {
                done: old(self)@.done,
                objs: old(self)@.objs.push(obj@),
            }),
    {
        let ghost pre = self.objects@;
        self.objects.push(obj);
        proof {
            assert(views_of(self.objects@) =~= views_of(pre).push(obj@));
        }
    }

    /// Merges a completed builder into this one as one expression; refused,
    /// and handed back, when this builder is already closed.
    fn merge(&mut self, obj: Self) -> (r: Result<(), Self>)
        ensures
            !old(self)@.done ==> r is Ok && final(self)@ == (BuilderModel {
                done: old(self)@.done,
                objs: old(self)@.objs.push(builder_to_obj(obj@)),
            }),
            old(self)@.done ==> final(self)@ == old(self)@ && (r matches Err(handed) && handed@
                == obj@),
    {
        if !self.finished {
            let converted = obj.to_object();
            self.push(converted);
            return Ok(());
        }
        Err(obj)
    }

    /// A copy of the builder with the same model.
    fn clone_builder(&self) -> (r: Self)
        ensures
            r@ == self@,
    {
        let mut objects: Vec<LispObject> = Vec::new();
        let mut i: usize = 0;
        while i < self.objects.len()
            invariant
                i <= self.objects@.len(),
                objects@.len() == i,
                forall|j: int| 0 <= j < i ==> objects@[j]@ == self.objects@[j]@,
            decreases self.objects@.len() - i,
        {
            let c = self.objects[i].clone();
            objects.push(c);
            i = i + 1;
        }
        proof {
            lemma_views_of(objects@);
            lemma_views_of(self.objects@);
            assert(views_of(objects@) =~= views_of(self.objects@));
        }
        Self { finished: self.finished, objects }
    }

    /// The expression a completed builder stands for.
    fn to_object(self) -> (r: LispObject)
        ensures
            r@ == builder_to_obj(self@),
    {
        if self.objects.len() == 0 {
            LispObject::nil()
        } else {
            LispObject::new_with(LispType::List(self.objects), false)
        }
    }
}

/// Reads source text into its top-level expressions, one for each
/// completed top-level form; unbalanced parentheses are a parse error.
#[verifier::loop_isolation(false)]
pub fn ast(code: &str) -> (r: Result<Vec<LispObject>, ParseError>)
    ensures
        match (r, read_spec(code@)) {
            (Ok(objs), Ok(models)) => views_of(objs@) == models,
            (Err(e1), Err(e2)) => e1 == e2,
            _ => false,
        },
{
    let tokens: Vec<String> = tokenize(code);
    let ghost toks = spec_tokenize(code@);

    let mut stack: Vec<WorkingLispObject> = Vec::new();
    proof {
        lemma_builder_views(stack@);
        lemma_str_views(tokens@);
    }
    let mut ti: usize = 0;
    while ti < tokens.len()
        invariant
            ti <= tokens@.len(),
            read_run(toks, 0, Seq::empty()) == read_run(toks, ti as int, builder_views(stack@)),
        decreases tokens@.len() - ti,
    {
        let token = &tokens[ti];
        let ghost stack_pre = builder_views(stack@);
        proof {
            lemma_builder_views(stack@);
            lemma_str_views(tokens@);
            assert(toks[ti as int] == tokens@[ti as int]@);
        }
        if crate::lispobject::str_eq(token.as_str(), "(") {
            proof {
                reveal_strlit("(");
                assert("("@ =~= seq!['(']);
            }
            let ghost pre_vec = stack@;
            stack.push(WorkingLispObject::new());
            proof {
                lemma_builder_views(pre_vec);
                lemma_builder_views(stack@);
                assert(builder_views(stack@) =~= stack_pre.push(
                    BuilderModel { done: false, objs: Seq::empty() },
                ));
            }
        } else if crate::lispobject::str_eq(token.as_str(), ")") {
            proof {
                reveal_strlit("(");
                reveal_strlit(")");
                assert("("@ =~= seq!['(']);
                assert(")"@ =~= seq![')']);
            }
            let ghost vec_before_pop = stack@;
            let top = match stack.pop() {
                Some(t) => t,
                None => {
                    return Err(ParseError::Unbalanced);
                },
            };
            let mut elem = top;
            elem.set_done();
            let ghost popped = builder_views(stack@);
            proof {
                lemma_builder_views(vec_before_pop);
                lemma_builder_views(stack@);
                assert(stack@ =~= vec_before_pop.drop_last());
                assert(popped =~= stack_pre.drop_last());
                assert(elem@ == (BuilderModel { done: true, objs: stack_pre.last().objs }));
            }
            if stack.len() == 0 {
                let ghost pre_vec = stack@;
                stack.push(elem);
                proof {
                    lemma_builder_views(pre_vec);
                    lemma_builder_views(stack@);
                    assert(builder_views(stack@) =~= popped.push(
                        BuilderModel { done: true, objs: stack_pre.last().objs },
                    ));
                }
            } else {
                let idx = stack.len() - 1;
                let ghost pre_frames = stack@;
                let merger = &mut stack[idx];
                let merge_status = merger.merge(elem);
                proof {
                    lemma_builder_views(pre_frames);
                    lemma_builder_views(stack@);
                }
                match merge_status {
                    Ok(_) => {
                        proof {
                            assert(builder_views(stack@) =~= popped.update(
                                idx as int,
                                BuilderModel {
                                    done: popped[idx as int].done,
                                    objs: popped[idx as int].objs.push(
                                        builder_to_obj(
                                            BuilderModel {
                                                done: true,
                                                objs: stack_pre.last().objs,
                                            },
                                        ),
                                    ),
                                },
                            ));
                        }
                    },
                    Err(handed) => {
                        let ghost pre_push = stack@;
                        stack.push(handed);
                        proof {
                            lemma_builder_views(pre_push);
                            lemma_builder_views(stack@);
                            assert(builder_views(pre_push) =~= popped);
                            assert(builder_views(stack@) =~= popped.push(
                                BuilderModel { done: true, objs: stack_pre.last().objs },
                            ));
                        }
                    },
                }
            }
        } else {
            proof {
                reveal_strlit("(");
                reveal_strlit(")");
                assert("("@ =~= seq!['(']);
                assert(")"@ =~= seq![')']);
            }
            if stack.len() == 0 {
                return Err(ParseError::Unbalanced);
            }
            let atom = LispObject::new(token.as_str());
            let idx = stack.len() - 1;
            let ghost pre_frames = stack@;
            let holder = &mut stack[idx];
            holder.push(atom);
            proof {
                lemma_builder_views(pre_frames);
                lemma_builder_views(stack@);
                assert(builder_views(stack@) =~= stack_pre.update(
                    idx as int,
                    BuilderModel {
                        done: stack_pre[idx as int].done,
                        objs: stack_pre[idx as int].objs.push(atom_obj(token@)),
                    },
                ));
            }
        }
        ti = ti + 1;
    }

    proof {
        lemma_builder_views(stack@);
        lemma_str_views(tokens@);
        assert(toks.len() == tokens@.len());
        assert(read_run(toks, tokens@.len() as int, builder_views(stack@)) == Some(
            builder_views(stack@),
        ));
    }
    let mut k: usize = 0;
    while k < stack.len()
        invariant
            k <= stack@.len(),
            forall|j: int| 0 <= j < k ==> builder_views(stack@)[j].done,
            read_run(toks, 0, Seq::empty()) == Some(builder_views(stack@)),
        decreases stack@.len() - k,
    {
        proof {
            lemma_builder_views(stack@);
        }
        if !stack[k].finished {
            proof {
                assert(!builder_views(stack@)[k as int].done);
                assert(!all_done(builder_views(stack@)));
            }
            return Err(ParseError::Unbalanced);
        }
        k = k + 1;
    }

    let mut out: Vec<LispObject> = Vec::new();
    let ghost final_stack = builder_views(stack@);
    let mut p: usize = 0;
    proof {
        lemma_builder_views(stack@);
        lemma_builders_to_objs(final_stack);
    }
    while p < stack.len()
        invariant
            p <= stack@.len(),
            builder_views(stack@) == final_stack,
            out@.len() == p,
            forall|j: int| 0 <= j < p ==> out@[j]@ == builders_to_objs(final_stack)[j],
        decreases stack@.len() - p,
    {
        proof {
            lemma_builder_views(stack@);
            lemma_builders_to_objs(final_stack);
        }
        let b = stack[p].clone_builder();
        let o = b.to_object();
        out.push(o);
        p = p + 1;
    }
    proof {
        lemma_views_of(out@);
        lemma_builders_to_objs(final_stack);
        assert(views_of(out@) =~= builders_to_objs(final_stack));
    }
    Ok(out)
}


/// The token stream a readable expression renders to: atoms are one token,
/// lists are their elements' streams between one `(` and one `)`.
pub open spec fn toks_of(o: ObjModel) -> Seq<Seq<char>>
    decreases o, 1int,
{
    match o.val {
        TypeModel::List(l) => seq![seq!['(']] + toks_of_items(l) + seq![seq![')']],
        _ => seq![crate::lispobject::render_obj(o)],
    }
}

/// The token streams of list elements, in order.
pub open spec fn toks_of_items(l: Seq<ObjModel>) -> Seq<Seq<char>>
    decreases l, 0int,
{
    if l.len() == 0 {
        Seq::empty()
    } else {
        toks_of_items(l.drop_last()) + toks_of(l.last())
    }
}

/// A rendered readable expression neither starts nor ends with a stop
/// character gap problem: its first character is a quote, a token character
/// or `(`, its last a token character or `)`; in every case the text is
/// non-empty. Tokenizing it yields exactly its token stream.
proof fn lemma_render_tokens(o: ObjModel)
    ensures
        readable(o) ==> {
            &&& crate::lispobject::render_obj(o).len() > 0
            &&& spec_tokenize(crate::lispobject::render_obj(o)) == toks_of(o)
        },
    decreases o, 1int,
{
    if readable(o) {
        let txt = crate::lispobject::render_obj(o);
        match o.val {
            TypeModel::List(l) => {
                let inner = crate::lispobject::render_items(l);
                assert(txt == seq!['('] + (inner + seq![')']));
                lemma_render_items_tokens(l);
                let b = inner + seq![')'];
                assert(spec_tokenize(txt) == seq![seq!['(']] + spec_tokenize_from(
                    seq!['('] + b,
                    1,
                )) by {
                    assert((seq!['('] + b)[0] == '(');
                    assert(is_paren('('));
                }
                assert(spec_tokenize_from(seq!['('] + b, 1) == spec_tokenize(b)) by {
                    lemma_tokenize_shift(seq!['('], b, 0);
                }
                assert(spec_tokenize(b) == spec_tokenize(inner) + spec_tokenize(seq![')'])) by {
                    assert(is_stop(')'));
                    assert(clean_joint(inner, seq![')']));
                    lemma_tokenize_concat(inner, seq![')']);
                }
                assert(spec_tokenize(seq![')']) =~= seq![seq![')']]) by {
                    assert(is_paren(seq![')'][0]));
                    assert(spec_tokenize_from(seq![')'], 1) =~= Seq::<Seq<char>>::empty());
                }
                assert(spec_tokenize(txt) =~= toks_of(o)) by {
                    assert(spec_tokenize(inner) == toks_of_items(l));
                }
            },
            _ => {
                lemma_atom_round(o);
                assert(token_shaped(txt));
                assert(!is_stop(txt[0]));
                lemma_token_end_from_is(txt, 0, txt.len() as int);
                assert(txt.subrange(0, txt.len() as int) =~= txt);
                assert(spec_tokenize_from(txt, txt.len() as int).len() == 0);
                assert(spec_tokenize(txt) =~= seq![txt]);
            },
        }
    }
}

/// Rendering readable list elements with single spaces between them
/// tokenizes to their concatenated token streams.
proof fn lemma_render_items_tokens(l: Seq<ObjModel>)
    ensures
        (forall|i: int| 0 <= i < l.len() ==> readable(l[i])) ==> spec_tokenize(
            crate::lispobject::render_items(l),
        ) == toks_of_items(l),
    decreases l, 0int,
{
    if forall|i: int| 0 <= i < l.len() ==> readable(l[i]) {
        let txt = crate::lispobject::render_items(l);
        if l.len() == 0 {
            assert(spec_tokenize(txt) =~= toks_of_items(l));
        } else if l.len() == 1 {
            lemma_render_tokens(l[0]);
            assert(l.drop_last().len() == 0);
            assert(toks_of_items(l.drop_last()) =~= Seq::<Seq<char>>::empty());
            assert(l.last() == l[0]);
            assert(toks_of_items(l) =~= toks_of(l[0]));
        } else {
            let front = l.drop_last();
            assert(forall|i: int| 0 <= i < front.len() ==> front[i] == l[i]);
            lemma_render_items_tokens(front);
            lemma_render_tokens(l.last());
            let a = crate::lispobject::render_items(front);
            let c = crate::lispobject::render_obj(l.last());
            assert(txt == a + seq![' '] + c);
            assert(txt =~= a + (seq![' '] + c));
            assert(clean_joint(a, seq![' '] + c)) by {
                assert((seq![' '] + c)[0] == ' ');
            }
            lemma_tokenize_concat(a, seq![' '] + c);
            assert(spec_tokenize(seq![' '] + c) == spec_tokenize_from(seq![' '] + c, 1)) by {
                assert((seq![' '] + c)[0] == ' ');
            }
            assert(spec_tokenize_from(seq![' '] + c, 1) == spec_tokenize(c)) by {
                lemma_tokenize_shift(seq![' '], c, 0);
            }
            assert(spec_tokenize(txt) == spec_tokenize(a) + spec_tokenize(c));
        }
    }
}

/// Folding a longer token stream from position `len(t1) + k` on, over any
/// stack, is folding the second part from `k` on.
proof fn lemma_read_run_shift(t1: Seq<Seq<char>>, t2: Seq<Seq<char>>, k: int, st: Seq<BuilderModel>)
    requires
        0 <= k <= t2.len(),
    ensures
        read_run(t1 + t2, t1.len() + k, st) == read_run(t2, k, st),
    decreases t2.len() - k,
{
    if k < t2.len() {
        assert((t1 + t2)[t1.len() + k] == t2[k]);
        match read_step(st, t2[k]) {
            None => {},
            Some(st2) => {
                lemma_read_run_shift(t1, t2, k + 1, st2);
            },
        }
    }
}

/// Folding a concatenated token stream is folding the first part, then the
/// second.
proof fn lemma_read_run_concat(t1: Seq<Seq<char>>, t2: Seq<Seq<char>>, i: int, st: Seq<BuilderModel>)
    requires
        0 <= i <= t1.len(),
    ensures
        read_run(t1 + t2, i, st) == match read_run(t1, i, st) {
            None => None,
            Some(st1) => read_run(t2, 0, st1),
        },
    decreases t1.len() - i,
{
    if i == t1.len() {
        lemma_read_run_shift(t1, t2, 0, st);
    } else {
        assert((t1 + t2)[i] == t1[i]);
        match read_step(st, t1[i]) {
            None => {},
            Some(st2) => {
                lemma_read_run_concat(t1, t2, i + 1, st2);
            },
        }
    }
}

/// A stack whose top builder is open absorbs one readable expression's
/// token stream: the expression lands at the end of the top builder's
/// gathered objects and nothing else moves.
#[verifier::rlimit(30)]
proof fn lemma_read_toks_of(o: ObjModel, st: Seq<BuilderModel>)
    requires
        readable(o),
        st.len() > 0,
        !st.last().done,
    ensures
        read_run(toks_of(o), 0, st) == Some(
            st.update(
                st.len() - 1,
                BuilderModel { done: st.last().done, objs: st.last().objs.push(o) },
            ),
        ),
    decreases o, 1int,
{
    match o.val {
        TypeModel::List(l) => {
            let opener: Seq<Seq<char>> = seq![seq!['(']];
            let closer: Seq<Seq<char>> = seq![seq![')']];
            let mid = toks_of_items(l);
            assert(toks_of(o) == opener + mid + closer);
            assert(toks_of(o) =~= opener + (mid + closer));

            let st2 = st.push(BuilderModel { done: false, objs: Seq::empty() });
            assert(read_step(st, seq!['(']) == Some(st2));
            assert(read_run(opener, 0, st) == read_run(opener, 1, st2));
            assert(read_run(opener, 1, st2) == Some(st2));

            lemma_read_toks_of_items(l, st2);
            let st3 = st2.update(
                st2.len() - 1,
                BuilderModel { done: false, objs: Seq::empty() + l },
            );
            assert(read_run(mid, 0, st2) == Some(st3));

            let elem = BuilderModel { done: true, objs: st3.last().objs };
            let rest = st3.drop_last();
            assert(rest =~= st);
            assert(!rest.last().done);
            let merged = rest.update(
                rest.len() - 1,
                BuilderModel {
                    done: rest.last().done,
                    objs: rest.last().objs.push(builder_to_obj(elem)),
                },
            );
            assert(read_step(st3, seq![')']) == Some(merged));
            assert(closer[0] == seq![')']);
            assert(read_run(closer, 1, merged) == Some(merged));
            assert(builder_to_obj(elem) == o) by {
                assert(elem.objs =~= l);
                assert(l.len() > 0);
                assert(o == (ObjModel { quoted: false, val: TypeModel::List(l) }));
            }
            assert(read_run(closer, 0, st3) == Some(merged));

            lemma_read_run_concat(opener, mid + closer, 0, st);
            lemma_read_run_concat(mid, closer, 0, st2);
            assert(read_run(toks_of(o), 0, st) == Some(merged));
            assert(merged =~= st.update(
                st.len() - 1,
                BuilderModel { done: st.last().done, objs: st.last().objs.push(o) },
            ));
            assert(read_run(toks_of(o), 0, st) == Some(
                st.update(
                    st.len() - 1,
                    BuilderModel { done: st.last().done, objs: st.last().objs.push(o) },
                ),
            ));
        },
        _ => {
            lemma_atom_round(o);
            let tok = crate::lispobject::render_obj(o);
            assert(toks_of(o) == seq![tok]);
            assert(tok != seq!['(']) by {
                assert(!is_stop(tok[0]));
            }
            assert(tok != seq![')']) by {
                assert(!is_stop(tok[0]));
            }
            let upd = st.update(
                st.len() - 1,
                BuilderModel {
                    done: st.last().done,
                    objs: st.last().objs.push(atom_obj(tok)),
                },
            );
            assert(read_step(st, tok) == Some(upd));
            assert(toks_of(o)[0] == tok);
            assert(read_run(toks_of(o), 1, upd) == Some(upd));
            assert(read_run(toks_of(o), 0, st) == Some(upd));
        },
    }
}

/// A stack whose top builder is open absorbs the token streams of readable
/// list elements in order.
proof fn lemma_read_toks_of_items(l: Seq<ObjModel>, st: Seq<BuilderModel>)
    requires
        forall|i: int| 0 <= i < l.len() ==> readable(l[i]),
        st.len() > 0,
        !st.last().done,
    ensures
        read_run(toks_of_items(l), 0, st) == Some(
            st.update(
                st.len() - 1,
                BuilderModel { done: st.last().done, objs: st.last().objs + l },
            ),
        ),
    decreases l, 0int,
{
    if l.len() == 0 {
        assert(st.last().objs + l =~= st.last().objs);
        assert(st.update(
            st.len() - 1,
            BuilderModel { done: st.last().done, objs: st.last().objs },
        ) =~= st);
    } else {
        let front = l.drop_last();
        assert(forall|i: int| 0 <= i < front.len() ==> front[i] == l[i]);
        lemma_read_toks_of_items(front, st);
        let st2 = st.update(
            st.len() - 1,
            BuilderModel { done: st.last().done, objs: st.last().objs + front },
        );
        lemma_read_toks_of(l.last(), st2);
        lemma_read_run_concat(toks_of_items(front), toks_of(l.last()), 0, st);
        assert(st2.update(
            st2.len() - 1,
            BuilderModel { done: st2.last().done, objs: st2.last().objs.push(l.last()) },
        ) =~= st.update(
            st.len() - 1,
            BuilderModel { done: st.last().done, objs: st.last().objs + l },
        )) by {
            assert((st.last().objs + front).push(l.last()) =~= st.last().objs + l);
        }
    }
}


/// The closed builders that a run of top-level list forms leaves behind.
pub open spec fn done_builders(objs: Seq<ObjModel>) -> Seq<BuilderModel>
    decreases objs,
{
    if objs.len() == 0 {
        Seq::empty()
    } else {
        done_builders(objs.drop_last()).push(
            BuilderModel { done: true, objs: objs.last().val->List_0 },
        )
    }
}

/// `done_builders` maps a sequence elementwise.
proof fn lemma_done_builders(objs: Seq<ObjModel>)
    ensures
        done_builders(objs).len() == objs.len(),
        forall|i: int|
            0 <= i < objs.len() ==> done_builders(objs)[i] == (BuilderModel {
                done: true,
                objs: objs[i].val->List_0,
            }),
    decreases objs,
{
    if objs.len() > 0 {
        lemma_done_builders(objs.drop_last());
        assert forall|i: int|
            0 <= i < objs.len() implies done_builders(objs)[i] == (BuilderModel {
            done: true,
            objs: objs[i].val->List_0,
        }) by {
            if i < objs.len() - 1 {
                assert(objs.drop_last()[i] == objs[i]);
            }
        }
    }
}

/// A stack of closed builders absorbs one readable top-level list form as
/// one more closed builder.
proof fn lemma_read_top_form(o: ObjModel, st: Seq<BuilderModel>)
    requires
        readable(o),
        o.val is List,
        all_done(st),
    ensures
        read_run(toks_of(o), 0, st) == Some(
            st.push(BuilderModel { done: true, objs: o.val->List_0 }),
        ),
{
    let l = o.val->List_0;
    let opener: Seq<Seq<char>> = seq![seq!['(']];
    let closer: Seq<Seq<char>> = seq![seq![')']];
    let mid = toks_of_items(l);
    assert(toks_of(o) == opener + mid + closer);
    assert(toks_of(o) =~= opener + (mid + closer));

    let st2 = st.push(BuilderModel { done: false, objs: Seq::empty() });
    assert(read_step(st, seq!['(']) == Some(st2));
    assert(read_run(opener, 1, st2) == Some(st2));
    assert(read_run(opener, 0, st) == Some(st2));

    lemma_read_toks_of_items(l, st2);
    let st3 = st2.update(st2.len() - 1, BuilderModel { done: false, objs: Seq::empty() + l });
    assert(read_run(mid, 0, st2) == Some(st3));

    let elem = BuilderModel { done: true, objs: st3.last().objs };
    let rest = st3.drop_last();
    assert(rest =~= st);
    let merged = rest.push(elem);
    assert(read_step(st3, seq![')']) == Some(merged)) by {
        if rest.len() > 0 {
            assert(rest.last().done);
        }
    }
    assert(closer[0] == seq![')']);
    assert(read_run(closer, 1, merged) == Some(merged));
    assert(read_run(closer, 0, st3) == Some(merged));

    lemma_read_run_concat(opener, mid + closer, 0, st);
    lemma_read_run_concat(mid, closer, 0, st2);
    assert(read_run(toks_of(o), 0, st) == Some(merged));
    assert(elem.objs =~= l);
    assert(merged =~= st.push(BuilderModel { done: true, objs: l }));
}

/// A run of readable top-level list forms reads to exactly their closed
/// builders.
proof fn lemma_read_top_forms(objs: Seq<ObjModel>, st: Seq<BuilderModel>)
    requires
        forall|i: int| 0 <= i < objs.len() ==> readable(objs[i]) && objs[i].val is List,
        all_done(st),
    ensures
        read_run(toks_of_items(objs), 0, st) == Some(st + done_builders(objs)),
        all_done(st + done_builders(objs)),
    decreases objs,
{
    if objs.len() == 0 {
        assert(st + done_builders(objs) =~= st);
    } else {
        let front = objs.drop_last();
        assert(forall|i: int| 0 <= i < front.len() ==> front[i] == objs[i]);
        lemma_read_top_forms(front, st);
        let st2 = st + done_builders(front);
        lemma_read_top_form(objs.last(), st2);
        lemma_read_run_concat(toks_of_items(front), toks_of(objs.last()), 0, st);
        lemma_done_builders(front);
        lemma_done_builders(objs);
        assert(st2.push(BuilderModel { done: true, objs: objs.last().val->List_0 }) =~= st
            + done_builders(objs));
        assert forall|k: int|
            0 <= k < (st + done_builders(objs)).len() implies (st + done_builders(objs))[k].done by {
            if k >= st.len() {
                assert((st + done_builders(objs))[k] == done_builders(objs)[k - st.len()]);
            }
        }
    }
}

/// Law, one half of the round trip: a run of readable top-level list forms,
/// rendered with single spaces between them, reads back to exactly those
/// forms.
pub proof fn lemma_render_then_read(objs: Seq<ObjModel>)
    requires
        forall|i: int| 0 <= i < objs.len() ==> readable(objs[i]) && objs[i].val is List,
    ensures
        read_spec(crate::lispobject::render_items(objs)) == Ok::<Seq<ObjModel>, ParseError>(objs),
{
    lemma_render_items_tokens(objs);
    lemma_read_top_forms(objs, Seq::empty());
    let builders = done_builders(objs);
    assert(Seq::empty() + builders =~= builders);
    assert(read_run(toks_of_items(objs), 0, Seq::empty()) == Some(builders));
    lemma_done_builders(objs);
    lemma_builders_to_objs(builders);
    assert(builders_to_objs(builders) =~= objs) by {
        assert forall|i: int| 0 <= i < objs.len() implies builders_to_objs(builders)[i]
            == objs[i] by {
            assert(builder_to_obj(builders[i]) == objs[i]) by {
                assert(readable(objs[i]));
                assert(objs[i].val->List_0.len() > 0);
                assert(!objs[i].quoted);
            }
        }
    }
}


/// A token the tokenizer can produce: one of the two parentheses, or a
/// non-empty run of ordinary characters.
pub open spec fn wf_token(t: Seq<char>) -> bool {
    t == seq!['('] || t == seq![')'] || token_shaped(t)
}

/// Every token the tokenizer produces is well-formed.
proof fn lemma_tokenize_wf(s: Seq<char>, i: int)
    requires
        0 <= i,
    ensures
        forall|k: int|
            0 <= k < spec_tokenize_from(s, i).len() ==> #[trigger] wf_token(
                spec_tokenize_from(s, i)[k],
            ),
    decreases s.len() - i,
{
    if i < s.len() {
        if is_space(s[i]) {
            lemma_tokenize_wf(s, i + 1);
            let toks = spec_tokenize_from(s, i);
            assert(toks == spec_tokenize_from(s, i + 1));
            assert forall|k: int| 0 <= k < toks.len() implies #[trigger] wf_token(toks[k]) by {
                assert(wf_token(spec_tokenize_from(s, i + 1)[k]));
            }
        } else if is_paren(s[i]) {
            lemma_tokenize_wf(s, i + 1);
            let toks = spec_tokenize_from(s, i);
            assert forall|k: int| 0 <= k < toks.len() implies #[trigger] wf_token(toks[k]) by {
                if k == 0 {
                    assert(toks[0] == seq![s[i]]);
                    assert(s[i] == '(' || s[i] == ')');
                    assert(seq![s[i]] =~= seq!['('] || seq![s[i]] =~= seq![')']);
                } else {
                    assert(toks[k] == spec_tokenize_from(s, i + 1)[k - 1]);
                    assert(wf_token(spec_tokenize_from(s, i + 1)[k - 1]));
                }
            }
        } else {
            let j = token_end_from(s, i);
            lemma_token_end_from(s, i);
            lemma_tokenize_wf(s, j);
            let toks = spec_tokenize_from(s, i);
            assert forall|k: int| 0 <= k < toks.len() implies #[trigger] wf_token(toks[k]) by {
                if k == 0 {
                    assert(toks[0] == s.subrange(i, j));
                    assert(forall|m: int|
                        0 <= m < j - i ==> s.subrange(i, j)[m] == s[i + m]);
                    assert(token_shaped(s.subrange(i, j)));
                } else {
                    assert(toks[k] == spec_tokenize_from(s, j)[k - 1]);
                    assert(wf_token(spec_tokenize_from(s, j)[k - 1]));
                }
            }
        }
    }
}

/// Reading any well-shaped bare token gives a readable atom.
proof fn lemma_atom_obj_readable(tok: Seq<char>)
    requires
        token_shaped(tok),
    ensures
        readable(atom_obj(tok)),
{
    let o = atom_obj(tok);
    if tok[0] == '\'' {
        let body = tok.drop_first();
        assert(forall|i: int| 0 <= i < body.len() ==> body[i] == tok[i + 1]);
        assert(forall|i: int| 0 <= i < body.len() ==> !is_stop(body[i]));
    } else {
        assert(forall|i: int| 0 <= i < tok.len() ==> !is_stop(tok[i]));
    }
}

/// Every expression gathered in any builder on the stack is readable.
pub open spec fn stack_readable(st: Seq<BuilderModel>) -> bool {
    forall|b: int, j: int|
        0 <= b < st.len() && 0 <= j < st[b].objs.len() ==> readable(#[trigger] st[b].objs[j])
}

/// One reader step keeps every gathered expression readable.
proof fn lemma_read_step_readable(st: Seq<BuilderModel>, tok: Seq<char>)
    requires
        wf_token(tok),
        stack_readable(st),
    ensures
        read_step(st, tok) matches Some(st2) ==> stack_readable(st2),
    decreases st.len(),
{
    if tok == seq!['('] {
        let st2 = st.push(BuilderModel { done: false, objs: Seq::empty() });
        assert forall|b: int, j: int|
            0 <= b < st2.len() && 0 <= j < st2[b].objs.len() implies readable(
            #[trigger] st2[b].objs[j],
        ) by {
            if b < st.len() {
                assert(st2[b] == st[b]);
            }
        }
    } else if tok == seq![')'] {
        if st.len() > 0 {
            let elem = BuilderModel { done: true, objs: st.last().objs };
            let rest = st.drop_last();
            assert(forall|b: int| 0 <= b < rest.len() ==> rest[b] == st[b]);
            if rest.len() == 0 || rest.last().done {
                let st2 = rest.push(elem);
                assert forall|b: int, j: int|
                    0 <= b < st2.len() && 0 <= j < st2[b].objs.len() implies readable(
                    #[trigger] st2[b].objs[j],
                ) by {
                    if b < rest.len() {
                        assert(st2[b] == st[b]);
                    } else {
                        assert(st2[b].objs == st[st.len() - 1].objs);
                    }
                }
            } else {
                let merged_obj = builder_to_obj(elem);
                assert(readable(merged_obj)) by {
                    if elem.objs.len() > 0 {
                        assert(forall|j: int|
                            0 <= j < elem.objs.len() ==> readable(
                                #[trigger] st[st.len() - 1].objs[j],
                            ));
                    }
                }
                let st2 = rest.update(
                    rest.len() - 1,
                    BuilderModel {
                        done: rest.last().done,
                        objs: rest.last().objs.push(merged_obj),
                    },
                );
                assert forall|b: int, j: int|
                    0 <= b < st2.len() && 0 <= j < st2[b].objs.len() implies readable(
                    #[trigger] st2[b].objs[j],
                ) by {
                    if b < rest.len() - 1 {
                        assert(st2[b] == st[b]);
                    } else {
                        assert(st2[b].objs == st[b].objs.push(merged_obj));
                        if j < st[b].objs.len() {
                            assert(st2[b].objs[j] == st[b].objs[j]);
                        }
                    }
                }
            }
        }
    } else {
        assert(token_shaped(tok));
        lemma_atom_obj_readable(tok);
        if st.len() > 0 {
            let st2 = st.update(
                st.len() - 1,
                BuilderModel {
                    done: st.last().done,
                    objs: st.last().objs.push(atom_obj(tok)),
                },
            );
            assert forall|b: int, j: int|
                0 <= b < st2.len() && 0 <= j < st2[b].objs.len() implies readable(
                #[trigger] st2[b].objs[j],
            ) by {
                if b < st.len() - 1 {
                    assert(st2[b] == st[b]);
                } else {
                    assert(st2[b].objs == st[b].objs.push(atom_obj(tok)));
                    if j < st[b].objs.len() {
                        assert(st2[b].objs[j] == st[b].objs[j]);
                    }
                }
            }
        }
    }
}

/// A whole reader run keeps every gathered expression readable.
proof fn lemma_read_run_readable(toks: Seq<Seq<char>>, i: int, st: Seq<BuilderModel>)
    requires
        0 <= i,
        forall|k: int| 0 <= k < toks.len() ==> #[trigger] wf_token(toks[k]),
        stack_readable(st),
    ensures
        read_run(toks, i, st) matches Some(st2) ==> stack_readable(st2),
    decreases toks.len() - i,
{
    if i < toks.len() {
        lemma_read_step_readable(st, toks[i]);
        match read_step(st, toks[i]) {
            None => {},
            Some(st2) => {
                lemma_read_run_readable(toks, i + 1, st2);
            },
        }
    }
}

/// Law, the other half of the round trip: whatever a successful read
/// yields is a run of readable, unquoted top-level expressions, each a
/// list or the bare `nil` that an empty pair of parentheses stands for.
pub proof fn lemma_read_output_readable(text: Seq<char>)
    ensures
        read_spec(text) matches Ok(objs) ==> forall|i: int|
            0 <= i < objs.len() ==> readable(#[trigger] objs[i]) && !objs[i].quoted && (objs[i].val
                is List || objs[i].val == TypeModel::Bool(false)),
{
    let toks = spec_tokenize(text);
    lemma_tokenize_wf(text, 0);
    lemma_read_run_readable(toks, 0, Seq::empty());
    match read_run(toks, 0, Seq::empty()) {
        None => {},
        Some(stack) => {
            if all_done(stack) {
                let objs = builders_to_objs(stack);
                lemma_builders_to_objs(stack);
                assert forall|i: int|
                    0 <= i < objs.len() implies readable(#[trigger] objs[i]) && !objs[i].quoted
                    && (objs[i].val is List || objs[i].val == TypeModel::Bool(false)) by {
                    assert(objs[i] == builder_to_obj(stack[i]));
                    assert(forall|j: int|
                        0 <= j < stack[i].objs.len() ==> readable(#[trigger] stack[i].objs[j]));
                }
            }
        },
    }
}

/// Law: the reader round trip. A successful read whose top-level forms are
/// all lists, re-rendered with single spaces between the forms and read
/// again, yields the same forms.
pub proof fn lemma_read_render_read(text: Seq<char>)
    ensures
        (read_spec(text) matches Ok(objs) && (forall|i: int|
            0 <= i < objs.len() ==> #[trigger] objs[i].val is List)) ==> read_spec(
            crate::lispobject::render_items(read_spec(text)->Ok_0),
        ) == read_spec(text),
{
    if read_spec(text) is Ok {
        let objs = read_spec(text)->Ok_0;
        if forall|i: int| 0 <= i < objs.len() ==> #[trigger] objs[i].val is List {
            lemma_read_output_readable(text);
            lemma_render_then_read(objs);
        }
    }
}

} // verus!
