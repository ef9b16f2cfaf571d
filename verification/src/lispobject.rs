//! The expression model: a tagged value plus a `quoted` flag.

use vstd::prelude::*;

verus! {

broadcast use vstd::std_specs::vec::group_vec_axioms, vstd::seq::group_seq_axioms;

/// Ghost mirror of [`LispType`]: the mathematical tree that contracts speak of.
/// Numbers are unbounded integers, symbol names are character sequences.
pub enum TypeModel {
    Number(int),
    Symbol(Seq<char>),
    List(Seq<ObjModel>),
    Cons(Box<(ObjModel, ObjModel)>),
    Bool(bool),
}

/// Ghost mirror of [`LispObject`]: a [`TypeModel`] together with the quoted flag.
pub struct ObjModel {
    pub quoted: bool,
    pub val: TypeModel,
}

/// A value of the language: one of the five tags, plus nesting.
#[derive(Debug, PartialEq)]
pub enum LispType {
    Number(i64),
    Symbol(String),
    List(Vec<LispObject>),
    Cons(Box<(LispObject, LispObject)>),
    Bool(bool),
}

/// An expression node: a [`LispType`] and a `quoted` flag. A quoted node is
/// returned verbatim by the evaluator.
#[derive(Debug, PartialEq)]
pub struct LispObject {
    pub ltype: LispType,
    pub quoted: bool,
}

/// The models of the elements of a sequence of expression nodes.
pub open spec fn views_of(s: Seq<LispObject>) -> Seq<ObjModel>
    decreases s,
{
    if s.len() == 0 {
        Seq::empty()
    } else {
        views_of(s.drop_last()).push(s.last()@)
    }
}

/// `views_of` maps a sequence elementwise: same length, the model at each index.
pub broadcast proof fn lemma_views_of(s: Seq<LispObject>)
    ensures
        #![trigger views_of(s)]
        views_of(s).len() == s.len(),
        forall|i: int| 0 <= i < s.len() ==> views_of(s)[i] == s[i]@,
    decreases s,
{
    if s.len() > 0 {
        lemma_views_of(s.drop_last());
        assert(views_of(s) == views_of(s.drop_last()).push(s.last()@));
        assert(views_of(s).len() == s.len());
        assert forall|i: int| 0 <= i < s.len() implies views_of(s)[i] == s[i]@ by {
            if i < s.len() - 1 {
                assert(views_of(s)[i] == views_of(s.drop_last())[i]);
                assert(s.drop_last()[i] == s[i]);
            } else {
                assert(views_of(s)[i] == s.last()@);
            }
        }
    }
}

impl View for LispType {
    type V = TypeModel;

    open spec fn view(&self) -> TypeModel
        decreases self,
    {
        match self {
            LispType::Number(n) => TypeModel::Number(*n as int),
            LispType::Symbol(s) => TypeModel::Symbol(s@),
            LispType::List(l) => TypeModel::List(views_of(l@)),
            LispType::Cons(p) => TypeModel::Cons(Box::new((p.0@, p.1@))),
            LispType::Bool(b) => TypeModel::Bool(*b),
        }
    }
}

impl View for LispObject {
    type V = ObjModel;

    open spec fn view(&self) -> ObjModel
        decreases self,
    {
        ObjModel { quoted: self.quoted, val: self.ltype@ }
    }
}

impl Clone for LispType {
    /// A clone is a deep copy: the copy has the same model.
    #[verifier::loop_isolation(false)]
    fn clone(&self) -> (r: Self)
        ensures
            r@ == self@,
        decreases self,
    {
        match self {
            LispType::Number(n) => LispType::Number(*n),
            LispType::Symbol(s) => LispType::Symbol(s.clone()),
            LispType::List(l) => {
                let mut copies: Vec<LispObject> = Vec::new();
                let mut i: usize = 0;
                while i < l.len()
                    invariant
                        i <= l@.len(),
                        copies@.len() == i,
                        forall|j: int| 0 <= j < i ==> copies@[j]@ == l@[j]@,
                    decreases l@.len() - i,
                {
                    proof {
                        assert(decreases_to!(*self => *l));
                        assert(decreases_to!(*l => l@));
                        assert(decreases_to!(l@ => l@[i as int]));
                    }
                    let c = l[i].clone();
                    copies.push(c);
                    i = i + 1;
                }
                proof {
                    lemma_views_of(copies@);
                    lemma_views_of(l@);
                    assert(views_of(copies@) =~= views_of(l@));
                }
                LispType::List(copies)
            },
            LispType::Cons(p) => LispType::Cons(Box::new((p.0.clone(), p.1.clone()))),
            LispType::Bool(b) => LispType::Bool(*b),
        }
    }
}

impl Clone for LispObject {
    /// A clone is a deep copy: the copy has the same model.
    fn clone(&self) -> (r: Self)
        ensures
            r@ == self@,
        decreases self,
    {
        LispObject { ltype: self.ltype.clone(), quoted: self.quoted }
    }
}

impl LispObject {
    /// True when the node carries the quoted mark.
    pub fn is_quoted(&self) -> (r: bool)
        ensures
            r == self@.quoted,
    {
        self.quoted
    }

    /// A deep copy of the node's tag and payload.
    pub fn get_type(&self) -> (r: LispType)
        ensures
            r@ == self@.val,
    {
        self.ltype.clone()
    }

    /// Marks the node as quoted, in place.
    pub fn set_quoted(&mut self)
        ensures
            final(self)@ == (ObjModel { quoted: true, ..old(self)@ }),
    {
        self.quoted = true;
    }

    /// Marks the node as quoted and hands it back.
    pub fn move_quoted(self) -> (r: Self)
        ensures
            r@ == (ObjModel { quoted: true, ..self@ }),
    {
        LispObject { ltype: self.ltype, quoted: true }
    }

    /// Wraps a tag in a node with the given quoted mark.
    pub fn new_with(ltype: LispType, quoted: bool) -> (r: Self)
        ensures
            r@ == (ObjModel { quoted, val: ltype@ }),
    {
        LispObject { ltype, quoted }
    }

    /// The `nil` literal: the false boolean, which also stands for "no value".
    pub fn nil() -> (r: Self)
        ensures
            r@ == (ObjModel { quoted: false, val: TypeModel::Bool(false) }),
    {
        LispObject { ltype: LispType::Bool(false), quoted: false }
    }

    /// An unquoted symbol node with the given name.
    pub fn symbol(name: &str) -> (r: Self)
        ensures
            r@ == (ObjModel { quoted: false, val: TypeModel::Symbol(name@) }),
    {
        LispObject { ltype: LispType::Symbol(name.to_owned()), quoted: false }
    }

    /// An unquoted number node with the given value.
    pub fn number(num: i64) -> (r: Self)
        ensures
            r@ == (ObjModel { quoted: false, val: TypeModel::Number(num as int) }),
    {
        LispObject { ltype: LispType::Number(num), quoted: false }
    }

    /// An unquoted list node holding deep copies of the given elements.
    pub fn list(list: &[LispObject]) -> (r: Self)
        ensures
            r@.quoted == false,
            r@.val == TypeModel::List(views_of(list@)),
    {
        let mut elems: Vec<LispObject> = Vec::new();
        let mut i: usize = 0;
        while i < list.len()
            invariant
                i <= list@.len(),
                elems@.len() == i,
                forall|j: int| 0 <= j < i ==> elems@[j]@ == list@[j]@,
            decreases list@.len() - i,
        {
            let c = list[i].clone();
            elems.push(c);
            i = i + 1;
        }
        proof {
            lemma_views_of(elems@);
            lemma_views_of(list@);
            assert(views_of(elems@) =~= views_of(list@));
        }
        LispObject { ltype: LispType::List(elems), quoted: false }
    }

    /// An unquoted pair node: a single key/value association.
    pub fn cons(key: LispObject, val: LispObject) -> (r: Self)
        ensures
            r@.quoted == false,
            r@.val == TypeModel::Cons(Box::new((key@, val@))),
    {
        LispObject { ltype: LispType::new_cons((key, val)), quoted: false }
    }

    /// An unquoted boolean node.
    pub fn bool(b: bool) -> (r: Self)
        ensures
            r@ == (ObjModel { quoted: false, val: TypeModel::Bool(b) }),
    {
        LispObject { ltype: LispType::Bool(b), quoted: false }
    }
}

impl LispType {
    /// A pair tag from its two halves.
    pub fn new_cons(pair: (LispObject, LispObject)) -> (r: Self)
        ensures
            r@ == TypeModel::Cons(Box::new((pair.0@, pair.1@))),
    {
        LispType::Cons(Box::new(pair))
    }
}

/// A decimal digit.
pub open spec fn is_digit(c: char) -> bool {
    '0' <= c && c <= '9'
}

/// The value of a decimal digit.
pub open spec fn digit_val(c: char) -> int {
    c as int - '0' as int
}

/// Every character of `s` is a decimal digit.
pub open spec fn all_digits(s: Seq<char>) -> bool {
    forall|i: int| 0 <= i < s.len() ==> is_digit(s[i])
}

/// The value of a sequence of decimal digits, most significant first.
pub open spec fn digits_val(s: Seq<char>) -> int
    decreases s.len(),
{
    if s.len() == 0 {
        0
    } else {
        digits_val(s.drop_last()) * 10 + digit_val(s.last())
    }
}

/// The signed value of a numeric token: an optional sign, then digits.
pub open spec fn num_token_val(s: Seq<char>) -> int {
    if s.len() > 0 && s[0] == '-' {
        -digits_val(s.drop_first())
    } else if s.len() > 0 && s[0] == '+' {
        digits_val(s.drop_first())
    } else {
        digits_val(s)
    }
}

/// A numeric literal: an optional sign, at least one digit, nothing else,
/// and a value that the number representation can hold.
pub open spec fn is_num_token(s: Seq<char>) -> bool {
    let body = if s.len() > 0 && (s[0] == '-' || s[0] == '+') {
        s.drop_first()
    } else {
        s
    };
    &&& body.len() > 0
    &&& all_digits(body)
    &&& i64::MIN <= num_token_val(s) <= i64::MAX
}

/// The tag a bare token stands for: a numeric literal is a `Number`, `t` and
/// `nil` are the two booleans, anything else is a `Symbol`.
pub open spec fn atom_val(tok: Seq<char>) -> TypeModel {
    if is_num_token(tok) {
        TypeModel::Number(num_token_val(tok))
    } else if tok == seq!['t'] {
        TypeModel::Bool(true)
    } else if tok == seq!['n', 'i', 'l'] {
        TypeModel::Bool(false)
    } else {
        TypeModel::Symbol(tok)
    }
}

/// The node a token stands for: a leading `'` marks the node quoted and is
/// not part of the atom itself.
pub open spec fn atom_obj(tok: Seq<char>) -> ObjModel {
    if tok.len() > 0 && tok[0] == '\'' {
        ObjModel { quoted: true, val: atom_val(tok.drop_first()) }
    } else {
        ObjModel { quoted: false, val: atom_val(tok) }
    }
}

/// A digit sequence is never negative, and extending it on the right never
/// shrinks its value.
pub proof fn lemma_digits_val_bounds(s: Seq<char>, j: int)
    requires
        all_digits(s),
        0 <= j <= s.len(),
    ensures
        digits_val(s) >= 0,
        digits_val(s.take(j)) <= digits_val(s),
    decreases s.len(),
{
    if s.len() == 0 {
    } else {
        assert(all_digits(s.drop_last())) by {
            assert(forall|i: int|
                0 <= i < s.len() - 1 ==> s.drop_last()[i] == s[i]);
        }
        if j == s.len() {
            lemma_digits_val_bounds(s.drop_last(), s.len() - 1);
            assert(s.take(j) =~= s);
        } else {
            lemma_digits_val_bounds(s.drop_last(), j);
            assert(s.drop_last().take(j) =~= s.take(j));
        }
        assert(is_digit(s.last()));
    }
}

/// The canonical decimal rendering of a non-negative value.
pub open spec fn dec_digits(n: int) -> Seq<char>
    decreases n,
{
    if n < 10 {
        seq![digit_char(n)]
    } else {
        dec_digits(n / 10).push(digit_char(n % 10))
    }
}

/// The digit character for a value between 0 and 9.
pub open spec fn digit_char(d: int) -> char {
    if d == 0 {
        '0'
    } else if d == 1 {
        '1'
    } else if d == 2 {
        '2'
    } else if d == 3 {
        '3'
    } else if d == 4 {
        '4'
    } else if d == 5 {
        '5'
    } else if d == 6 {
        '6'
    } else if d == 7 {
        '7'
    } else if d == 8 {
        '8'
    } else {
        '9'
    }
}

/// The canonical rendering of a signed value: a `-` before the digits of its
/// magnitude when negative.
pub open spec fn render_int(n: int) -> Seq<char> {
    if n < 0 {
        seq!['-'] + dec_digits(-n)
    } else {
        dec_digits(n)
    }
}

/// The text of an expression node: a `'` before the text of its tag when the
/// node is quoted.
pub open spec fn render_obj(o: ObjModel) -> Seq<char>
    decreases o,
{
    if o.quoted {
        seq!['\''] + render_val(o.val)
    } else {
        render_val(o.val)
    }
}

/// The text of a tag: numbers in decimal, symbols verbatim, the booleans as
/// their literal tokens, lists and pairs parenthesized with single spaces
/// between the parts. An empty list, which the reader never produces,
/// renders as a bare closing parenthesis.
pub open spec fn render_val(v: TypeModel) -> Seq<char>
    decreases v,
{
    match v {
        TypeModel::Number(n) => render_int(n),
        TypeModel::Symbol(s) => s,
        TypeModel::Bool(b) => if b {
            seq!['t']
        } else {
            seq!['n', 'i', 'l']
        },
        TypeModel::List(l) => if l.len() == 0 {
            seq![')']
        } else {
            seq!['('] + render_items(l) + seq![')']
        },
        TypeModel::Cons(p) => seq!['('] + render_obj(p.0) + seq![' '] + render_obj(p.1)
            + seq![')'],
    }
}

/// The texts of list elements, joined by single spaces.
pub open spec fn render_items(l: Seq<ObjModel>) -> Seq<char>
    decreases l,
{
    if l.len() == 0 {
        Seq::empty()
    } else if l.len() == 1 {
        render_obj(l[0])
    } else {
        render_items(l.drop_last()) + seq![' '] + render_obj(l.last())
    }
}

/// Character-for-character equality of two string slices.
pub fn str_eq(a: &str, b: &str) -> (r: bool)
    ensures
        r == (a@ == b@),
{
    let n = a.unicode_len();
    if n != b.unicode_len() {
        return false;
    }
    let mut i: usize = 0;
    while i < n
        invariant
            i <= n,
            n == a@.len(),
            n == b@.len(),
            forall|j: int| 0 <= j < i ==> a@[j] == b@[j],
        decreases n - i,
    {
        if a.get_char(i) != b.get_char(i) {
            return false;
        }
        i = i + 1;
    }
    proof {
        assert(a@ =~= b@);
    }
    true
}

/// Reads a numeric literal; `None` when the token is not one, or its value
/// does not fit the number representation.
#[verifier::loop_isolation(false)]
fn parse_int_token(s: &str) -> (r: Option<i64>)
    ensures
        r is Some <==> is_num_token(s@),
        r matches Some(n) ==> n as int == num_token_val(s@),
{
    let len = s.unicode_len();
    if len == 0 {
        return None;
    }
    let first = s.get_char(0);
    let neg = first == '-';
    let start: usize = if neg || first == '+' {
        1
    } else {
        0
    };
    if start == len {
        return None;
    }
    let ghost body = if start == 1 {
        s@.drop_first()
    } else {
        s@
    };
    let mut i: usize = start;
    let mut acc: i128 = 0;
    while i < len
        invariant
            start <= i <= len,
            len == s@.len(),
            start == 0 || start == 1,
            start == 1 ==> body == s@.drop_first(),
            start == 0 ==> body == s@,
            body.len() == len - start,
            forall|j: int| 0 <= j < body.len() ==> body[j] == s@[j + start],
            all_digits(body.take(i - start)),
            acc == digits_val(body.take(i - start)),
            0 <= acc <= 0x8000000000000000i128,
        decreases len - i,
    {
        let c = s.get_char(i);
        if c < '0' || c > '9' {
            proof {
                assert(!is_digit(body[i - start]));
                assert(!all_digits(body));
            }
            return None;
        }
        let d: u32 = (c as u32) - ('0' as u32);
        acc = acc * 10 + (d as i128);
        i = i + 1;
        proof {
            assert(body.take(i - start).drop_last() =~= body.take(i - start - 1));
            assert(body.take(i - start).last() == body[i - start - 1]);
        }
        if acc > 0x8000000000000000i128 {
            proof {
                if is_num_token(s@) {
                    lemma_digits_val_bounds(body, i - start);
                    assert(digits_val(body) >= acc);
                    assert(num_token_val(s@) > i64::MAX || num_token_val(s@)
                        < i64::MIN);
                }
            }
            return None;
        }
    }
    proof {
        assert(body.take(len - start) =~= body);
    }
    if neg {
        Some((-acc) as i64)
    } else {
        if acc > 0x7fffffffffffffffi128 {
            proof {
                assert(num_token_val(s@) == acc);
            }
            None
        } else {
            Some(acc as i64)
        }
    }
}

/// The digit text for a value between 0 and 9.
fn digit_str(d: u64) -> (r: &'static str)
    requires
        d <= 9,
    ensures
        r@ == seq![digit_char(d as int)],
{
    proof {
        reveal_strlit("0");
        reveal_strlit("1");
        reveal_strlit("2");
        reveal_strlit("3");
        reveal_strlit("4");
        reveal_strlit("5");
        reveal_strlit("6");
        reveal_strlit("7");
        reveal_strlit("8");
        reveal_strlit("9");
    }
    let r: &'static str = if d == 0 {
        "0"
    } else if d == 1 {
        "1"
    } else if d == 2 {
        "2"
    } else if d == 3 {
        "3"
    } else if d == 4 {
        "4"
    } else if d == 5 {
        "5"
    } else if d == 6 {
        "6"
    } else if d == 7 {
        "7"
    } else if d == 8 {
        "8"
    } else {
        "9"
    };
    proof {
        assert(r@ =~= seq![digit_char(d as int)]);
    }
    r
}

/// The decimal text of a non-negative value.
pub(crate) fn digits_string(m: u64) -> (r: String)
    ensures
        r@ == dec_digits(m as int),
    decreases m,
{
    if m < 10 {
        digit_str(m).to_owned()
    } else {
        let mut out = digits_string(m / 10);
        out.append(digit_str(m % 10));
        proof {
            assert(out@ =~= dec_digits(m as int));
        }
        out
    }
}

/// The decimal text of a signed value.
fn int_to_string(n: i64) -> (r: String)
    ensures
        r@ == render_int(n as int),
{
    if n < 0 {
        let m: u64 = (-(n as i128)) as u64;
        let mut out = String::from_str("-");
        out.append(digits_string(m).as_str());
        proof {
            reveal_strlit("-");
            assert(out@ =~= render_int(n as int));
        }
        out
    } else {
        digits_string(n as u64)
    }
}

impl LispType {
    /// Classifies a bare token: a numeric literal is a `Number`, `t` and
    /// `nil` are the two booleans, anything else is a `Symbol`.
    pub fn new(token: &str) -> (r: Self)
        ensures
            r@ == atom_val(token@),
    {
        if let Some(num) = parse_int_token(token) {
            LispType::Number(num)
        } else if str_eq(token, "t") {
            proof {
                reveal_strlit("t");
                assert("t"@ =~= seq!['t']);
            }
            LispType::Bool(true)
        } else if str_eq(token, "nil") {
            proof {
                reveal_strlit("nil");
                assert("nil"@ =~= seq!['n', 'i', 'l']);
            }
            LispType::Bool(false)
        } else {
            proof {
                reveal_strlit("t");
                reveal_strlit("nil");
                assert("t"@ =~= seq!['t']);
                assert("nil"@ =~= seq!['n', 'i', 'l']);
                assert(token@ != seq!['t'] && token@ != seq!['n', 'i', 'l']);
            }
            LispType::Symbol(token.to_owned())
        }
    }

    /// The text of the tag.
    #[verifier::loop_isolation(false)]
    pub fn to_string(&self) -> (r: String)
        ensures
            r@ == render_val(self@),
        decreases self,
    {
        match self {
            LispType::Number(n) => int_to_string(*n),
            LispType::Symbol(s) => s.clone(),
            LispType::Bool(b) => {
                proof {
                    reveal_strlit("t");
                    reveal_strlit("nil");
                }
                let lit: &str = if *b {
                    "t"
                } else {
                    "nil"
                };
                let r = lit.to_owned();
                proof {
                    assert(r@ =~= render_val(self@));
                }
                r
            },
            LispType::List(l) => {
                proof {
                    reveal_strlit("(");
                    reveal_strlit(")");
                    reveal_strlit(" ");
                }
                if l.len() == 0 {
                    let r = ")".to_owned();
                    proof {
                        assert(r@ =~= render_val(self@));
                    }
                    return r;
                }
                let mut out = String::from_str("(");
                let mut i: usize = 0;
                while i < l.len()
                    invariant
                        0 <= i <= l@.len(),
                        out@ == seq!['('] + render_items(views_of(l@).take(i as int)),
                    decreases l@.len() - i,
                {
                    proof {
                        assert(decreases_to!(*self => *l));
                        assert(decreases_to!(*l => l@));
                        assert(decreases_to!(l@ => l@[i as int]));
                    }
                    if i > 0 {
                        out.append(" ");
                    }
                    let piece = l[i].to_string();
                    out.append(piece.as_str());
                    i = i + 1;
                    proof {
                        lemma_views_of(l@);
                        let vs = views_of(l@);
                        assert(vs.take(i as int).drop_last() =~= vs.take(i - 1));
                        assert(vs.take(i as int).last() == vs[i - 1]);
                        if i > 1 {
                            assert(out@ =~= seq!['('] + render_items(vs.take(i as int)));
                        } else {
                            assert(vs.take(1).len() == 1);
                            assert(out@ =~= seq!['('] + render_items(vs.take(1)));
                        }
                    }
                }
                out.append(")");
                proof {
                    lemma_views_of(l@);
                    assert(views_of(l@).take(l@.len() as int) =~= views_of(l@));
                    assert(out@ =~= render_val(self@));
                }
                out
            },
            LispType::Cons(p) => {
                proof {
                    reveal_strlit("(");
                    reveal_strlit(")");
                    reveal_strlit(" ");
                }
                let mut out = String::from_str("(");
                let left = p.0.to_string();
                out.append(left.as_str());
                out.append(" ");
                let right = p.1.to_string();
                out.append(right.as_str());
                out.append(")");
                proof {
                    assert(out@ =~= render_val(self@));
                }
                out
            },
        }
    }
}

impl LispObject {
    /// Reads one token into a node: a leading `'` marks the node quoted and
    /// the rest of the token is classified as an atom.
    pub fn new(token: &str) -> (r: Self)
        ensures
            r@ == atom_obj(token@),
    {
        let len = token.unicode_len();
        let quoted = len > 0 && token.get_char(0) == '\'';
        let body: &str = if quoted {
            token.substring_char(1, len)
        } else {
            token
        };
        proof {
            if quoted {
                assert(body@ =~= token@.drop_first());
            }
        }
        LispObject { ltype: LispType::new(body), quoted }
    }

    /// Reads a whole token slice into a list node with the given quoted mark.
    pub fn new_list(tokens: &[String], quoted: bool) -> (r: LispObject)
        ensures
            r@.quoted == quoted,
            r@.val matches TypeModel::List(l) && l.len() == tokens@.len() && forall|i: int|
                0 <= i < tokens@.len() ==> l[i] == atom_obj(tokens@[i]@),
    {
        let mut res: Vec<LispObject> = Vec::new();
        let mut i: usize = 0;
        while i < tokens.len()
            invariant
                i <= tokens@.len(),
                res@.len() == i,
                forall|j: int| 0 <= j < i ==> res@[j]@ == atom_obj(tokens@[j]@),
            decreases tokens@.len() - i,
        {
            let o = LispObject::new(tokens[i].as_str());
            res.push(o);
            i = i + 1;
        }
        proof {
            lemma_views_of(res@);
        }
        LispObject { ltype: LispType::List(res), quoted }
    }

    /// The text of the node: a `'` before the text of its tag when quoted.
    pub fn to_string(&self) -> (r: String)
        ensures
            r@ == render_obj(self@),
        decreases self,
    {
        if self.quoted {
            proof {
                reveal_strlit("\'");
            }
            let mut out = String::from_str("\'");
            let body = self.ltype.to_string();
            out.append(body.as_str());
            proof {
                assert(out@ =~= render_obj(self@));
            }
            out
        } else {
            self.ltype.to_string()
        }
    }
}

} // verus!
