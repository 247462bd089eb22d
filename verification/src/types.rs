//! The runtime value model: a closed tagged union shared by the reader,
//! evaluator, and printer, together with its mathematical view.
//!
//! Text inside values (symbol names, string contents, numerals) is kept as
//! `Vec<char>`, whose view is a `Seq<char>`; the printer and the line-editing
//! front end convert to `String` at the boundary.

use vstd::prelude::*;

verus! {

/// The kind of a runtime value, used in typed errors.
#[derive(Clone, Copy, PartialEq, Eq, Structural, Debug)]
pub enum Kind {
    Bool,
    Function,
    Integer,
    List,
    Hashmap,
    Nil,
    Real,
    Str,
    Keyword,
    Symbol,
    Vector,
}

/// The native functions registered into the root environment.
#[derive(Clone, Copy, PartialEq, Eq, Structural, Debug)]
pub enum Native {
    Add,
    Sub,
    Mul,
    Div,
    EqVal,
    Gt,
    Ge,
    Lt,
    Le,
    MakeList,
    IsList,
    IsEmpty,
    Count,
    Not,
    StrFn,
    PrStr,
    Prn,
    Println,
}

/// A user-defined function: parameter names, an optional variadic tail
/// parameter introduced by `&`, an unevaluated body, and the index of the
/// defining environment in the environment arena.
#[derive(Debug)]
pub struct Closure {
    pub params: Vec<Vec<char>>,
    pub variadic: Option<Vec<char>>,
    pub body: Box<Token>,
    pub env: usize,
}

/// A function value: either a native operation or a closure.
#[derive(Debug)]
pub enum Func {
    Native(Native),
    Closure(Closure),
}

/// The single runtime type: a closed tagged union over every value the
/// language can produce.  The `Real` variant keeps the decimal numeral
/// exactly as it was read.  A map keeps its entries in insertion order;
/// every key is a `Str` or `Keyword` value and keys are unique.
#[derive(Debug)]
pub enum Token {
    Nil,
    Bool(bool),
    Integer(i64),
    Real(Vec<char>),
    Str(Vec<char>),
    Keyword(Vec<char>),
    Symbol(Vec<char>),
    List(Vec<Token>),
    Vector(Vec<Token>),
    Hashmap(Vec<(Token, Token)>),
    Func(Func),
}

/// The mathematical view of a [`Token`]: the same tree over `Seq` and `int`.
#[verifier::ext_equal]
pub enum Val {
    Nil,
    Bool(bool),
    Integer(i64),
    Real(Seq<char>),
    Str(Seq<char>),
    Keyword(Seq<char>),
    Symbol(Seq<char>),
    List(Seq<Val>),
    Vector(Seq<Val>),
    Hashmap(Seq<(Val, Val)>),
    Native(Native),
    Closure { params: Seq<Seq<char>>, variadic: Option<Seq<char>>, body: Box<Val>, env: int },
}

/// The view of a value tree.
pub open spec fn tv(t: Token) -> Val
    decreases t, 1int,
{
    match t {
        Token::Nil => Val::Nil,
        Token::Bool(b) => Val::Bool(b),
        Token::Integer(n) => Val::Integer(n),
        Token::Real(s) => Val::Real(s@),
        Token::Str(s) => Val::Str(s@),
        Token::Keyword(s) => Val::Keyword(s@),
        Token::Symbol(s) => Val::Symbol(s@),
        Token::List(es) => Val::List(tvs(es@)),
        Token::Vector(es) => Val::Vector(tvs(es@)),
        Token::Hashmap(es) => Val::Hashmap(tv_pairs(es@)),
        Token::Func(f) => match f {
            Func::Native(op) => Val::Native(op),
            Func::Closure(c) => Val::Closure {
                params: names_view(c.params@),
                variadic: match c.variadic {
                    Option::None => Option::None,
                    Option::Some(s) => Option::Some(s@),
                },
                body: Box::new(tv(*c.body)),
                env: c.env as int,
            },
        },
    }
}

/// The view of a sequence of value trees, elementwise.
pub open spec fn tvs(es: Seq<Token>) -> Seq<Val>
    decreases es, 0int,
{
    if es.len() == 0 {
        Seq::empty()
    } else {
        seq![tv(es[0])] + tvs(es.drop_first())
    }
}

/// The view of a sequence of map entries, elementwise.
pub open spec fn tv_pairs(es: Seq<(Token, Token)>) -> Seq<(Val, Val)>
    decreases es, 0int,
{
    if es.len() == 0 {
        Seq::empty()
    } else {
        seq![(tv(es[0].0), tv(es[0].1))] + tv_pairs(es.drop_first())
    }
}

/// `tvs` maps its argument elementwise.
pub broadcast proof fn lemma_tvs(es: Seq<Token>)
    ensures
        (#[trigger] tvs(es)).len() == es.len(),
        forall|i: int| 0 <= i < es.len() ==> tvs(es)[i] == tv(es[i]),
    decreases es,
{
    if es.len() > 0 {
        lemma_tvs(es.drop_first());
    }
}

/// `tv_pairs` maps its argument elementwise.
pub broadcast proof fn lemma_tv_pairs(es: Seq<(Token, Token)>)
    ensures
        (#[trigger] tv_pairs(es)).len() == es.len(),
        forall|i: int| 0 <= i < es.len() ==> tv_pairs(es)[i] == (tv(es[i].0), tv(es[i].1)),
    decreases es,
{
    if es.len() > 0 {
        lemma_tv_pairs(es.drop_first());
    }
}

impl View for Token {
    type V = Val;

    open spec fn view(&self) -> Val {
        tv(*self)
    }
}

/// The view of a sequence of names.
pub open spec fn names_view(ns: Seq<Vec<char>>) -> Seq<Seq<char>> {
    Seq::new(ns.len(), |i: int| ns[i]@)
}

impl Token {
    /// The kind of this value, as named in typed errors.
    pub fn token_type(&self) -> (k: Kind)
        ensures
            k == kind_of(self@),
    {
        match self {
            Token::Nil => Kind::Nil,
            Token::Bool(_) => Kind::Bool,
            Token::Integer(_) => Kind::Integer,
            Token::Real(_) => Kind::Real,
            Token::Str(_) => Kind::Str,
            Token::Keyword(_) => Kind::Keyword,
            Token::Symbol(_) => Kind::Symbol,
            Token::List(_) => Kind::List,
            Token::Vector(_) => Kind::Vector,
            Token::Hashmap(_) => Kind::Hashmap,
            Token::Func(_) => Kind::Function,
        }
    }

    /// The kind of an optional value; `None` stands for a missing argument.
    pub fn try_token_type(token: &Option<Token>) -> (k: Option<Kind>)
        ensures
            k == match *token {
                Option::Some(t) => Option::Some(kind_of(t@)),
                Option::None => Option::<Kind>::None,
            },
    {
        match token {
            Option::Some(t) => Option::Some(t.token_type()),
            Option::None => Option::None,
        }
    }
}

/// The kind of a value at the specification level.
pub open spec fn kind_of(v: Val) -> Kind {
    match v {
        Val::Nil => Kind::Nil,
        Val::Bool(_) => Kind::Bool,
        Val::Integer(_) => Kind::Integer,
        Val::Real(_) => Kind::Real,
        Val::Str(_) => Kind::Str,
        Val::Keyword(_) => Kind::Keyword,
        Val::Symbol(_) => Kind::Symbol,
        Val::List(_) => Kind::List,
        Val::Vector(_) => Kind::Vector,
        Val::Hashmap(_) => Kind::Hashmap,
        Val::Native(_) => Kind::Function,
        Val::Closure { .. } => Kind::Function,
    }
}

/// Errors raised by native functions and by function application.
#[derive(Debug)]
pub enum FnError {
    /// Wrong number of arguments: expected, actual.
    Argument(usize, usize),
    /// The head of a call form did not evaluate to a function.
    CallableError,
    /// A symbol in call position has no binding; carries the name.
    KeyError(Vec<char>),
    /// An operation was applied to operands it does not accept:
    /// the operation and the two operand kinds.
    Type(Native, Kind, Kind),
    /// Attempted to divide by zero.
    ZeroDivision,
}

/// Errors raised by the reader and the evaluator.
#[derive(Debug)]
pub enum MalError {
    /// `def!` was not given a symbol to bind; carries what it was given.
    BadDef(Option<Token>),
    /// A binder in a `let*` binding list was not a symbol.
    BadTokenString(Token),
    /// A closing bracket appeared with no matching opener; carries it.
    Brace(char),
    /// The input held no tokens at all.
    Empty,
    /// Input ended before the expected text; carries what was expected.
    Eof(Vec<char>),
    /// An error from a native function or from function application.
    FnError(FnError),
    /// A map key was not a string or keyword; carries the offending value.
    MapKey(Token),
    /// A map literal or binding list had an odd number of elements.
    MistmatchKeyValue,
    /// A token was requested but none remained.
    Peek,
    /// A numeral token did not fit the integer value range; carries it.
    ParseNumError(Vec<char>),
    /// A symbol had no binding in any enclosing scope; carries the name.
    UnknownSymbol(Vec<char>),
    /// Evaluation exceeded the explicit nesting-depth budget, the one
    /// resource bound of the recursive evaluator.
    Depth,
}

/// The mathematical view of a [`FnError`].
pub enum FnErrorV {
    Argument(int, int),
    CallableError,
    KeyError(Seq<char>),
    Type(Native, Kind, Kind),
    ZeroDivision,
}

/// The mathematical view of a [`MalError`].
pub enum ErrV {
    BadDef(Option<Val>),
    BadTokenString(Val),
    Brace(char),
    Empty,
    Eof(Seq<char>),
    FnError(FnErrorV),
    MapKey(Val),
    MistmatchKeyValue,
    Peek,
    ParseNumError(Seq<char>),
    UnknownSymbol(Seq<char>),
    Depth,
}

impl View for FnError {
    type V = FnErrorV;

    open spec fn view(&self) -> FnErrorV {
        match *self {
            FnError::Argument(e, a) => FnErrorV::Argument(e as int, a as int),
            FnError::CallableError => FnErrorV::CallableError,
            FnError::KeyError(n) => FnErrorV::KeyError(n@),
            FnError::Type(op, k1, k2) => FnErrorV::Type(op, k1, k2),
            FnError::ZeroDivision => FnErrorV::ZeroDivision,
        }
    }
}

impl View for MalError {
    type V = ErrV;

    open spec fn view(&self) -> ErrV {
        match *self {
            MalError::BadDef(ot) => ErrV::BadDef(match ot {
                Option::Some(t) => Option::Some(tv(t)),
                Option::None => Option::None,
            }),
            MalError::BadTokenString(t) => ErrV::BadTokenString(tv(t)),
            MalError::Brace(c) => ErrV::Brace(c),
            MalError::Empty => ErrV::Empty,
            MalError::Eof(s) => ErrV::Eof(s@),
            MalError::FnError(f) => ErrV::FnError(f@),
            MalError::MapKey(t) => ErrV::MapKey(tv(t)),
            MalError::MistmatchKeyValue => ErrV::MistmatchKeyValue,
            MalError::Peek => ErrV::Peek,
            MalError::ParseNumError(s) => ErrV::ParseNumError(s@),
            MalError::UnknownSymbol(s) => ErrV::UnknownSymbol(s@),
            MalError::Depth => ErrV::Depth,
        }
    }
}

/// The result type threaded through the reader and the evaluator.
pub type MalRes<T> = Result<T, MalError>;

/// The view of a reader or evaluator result.
pub open spec fn res_view(r: Result<Token, MalError>) -> Result<Val, ErrV> {
    match r {
        Result::Ok(t) => Result::Ok(tv(t)),
        Result::Err(e) => Result::Err(e@),
    }
}


/// Clones a character vector; the copy has the same view.
pub fn clone_chars(v: &Vec<char>) -> (r: Vec<char>)
    ensures
        r@ == v@,
{
    let r = v.clone();
    proof {
        assert forall|i: int| 0 <= i < v@.len() implies r@[i] == v@[i] by {
            assert(cloned::<char>(v@[i], r@[i]));
        }
        assert(r@ =~= v@);
    }
    r
}

/// Clones a vector of names; the copy has the same view.
pub fn clone_names(ns: &Vec<Vec<char>>) -> (r: Vec<Vec<char>>)
    ensures
        names_view(r@) == names_view(ns@),
        r@.len() == ns@.len(),
{
    let mut out: Vec<Vec<char>> = Vec::new();
    let mut i: usize = 0;
    while i < ns.len()
        invariant
            i <= ns@.len(),
            out@.len() == i,
            forall|j: int| 0 <= j < i ==> out@[j]@ == ns@[j]@,
        decreases ns@.len() - i,
    {
        out.push(clone_chars(&ns[i]));
        i = i + 1;
    }
    proof {
        assert(names_view(out@) =~= names_view(ns@));
    }
    out
}

impl Token {
    /// A structural copy of this value; the copy has the same view.
    pub fn duplicate(&self) -> (r: Token)
        ensures
            r@ == self@,
        decreases self, 1int,
    {
        match self {
            Token::Nil => Token::Nil,
            Token::Bool(b) => Token::Bool(*b),
            Token::Integer(n) => Token::Integer(*n),
            Token::Real(s) => Token::Real(clone_chars(s)),
            Token::Str(s) => Token::Str(clone_chars(s)),
            Token::Keyword(s) => Token::Keyword(clone_chars(s)),
            Token::Symbol(s) => Token::Symbol(clone_chars(s)),
            Token::List(es) => Token::List(duplicate_vec(es)),
            Token::Vector(es) => Token::Vector(duplicate_vec(es)),
            Token::Hashmap(es) => Token::Hashmap(duplicate_pairs(es)),
            Token::Func(f) => Token::Func(match f {
                Func::Native(op) => Func::Native(*op),
                Func::Closure(c) => {
                    let body = c.body.duplicate();
                    Func::Closure(Closure {
                        params: clone_names(&c.params),
                        variadic: match &c.variadic {
                            Option::None => Option::None,
                            Option::Some(s) => Option::Some(clone_chars(s)),
                        },
                        body: Box::new(body),
                        env: c.env,
                    })
                },
            }),
        }
    }
}

/// A structural copy of a vector of values, elementwise.
pub fn duplicate_vec(es: &Vec<Token>) -> (r: Vec<Token>)
    ensures
        tvs(r@) == tvs(es@),
        r@.len() == es@.len(),
    decreases es, 0int,
{
    let mut out: Vec<Token> = Vec::new();
    let mut i: usize = 0;
    while i < es.len()
        invariant
            i <= es@.len(),
            out@.len() == i,
            forall|j: int| 0 <= j < i ==> tv(out@[j]) == tv(es@[j]),
        decreases es@.len() - i,
    {
        let d = es[i].duplicate();
        out.push(d);
        i = i + 1;
    }
    proof {
        lemma_tvs(out@);
        lemma_tvs(es@);
        assert(tvs(out@) =~= tvs(es@));
    }
    out
}

/// A structural copy of a vector of map entries, elementwise.
pub fn duplicate_pairs(es: &Vec<(Token, Token)>) -> (r: Vec<(Token, Token)>)
    ensures
        tv_pairs(r@) == tv_pairs(es@),
        r@.len() == es@.len(),
    decreases es, 0int,
{
    let mut out: Vec<(Token, Token)> = Vec::new();
    let mut i: usize = 0;
    while i < es.len()
        invariant
            i <= es@.len(),
            out@.len() == i,
            forall|j: int| 0 <= j < i ==> tv(out@[j].0) == tv(es@[j].0) && tv(out@[j].1) == tv(es@[j].1),
        decreases es@.len() - i,
    {
        let k = es[i].0.duplicate();
        let v = es[i].1.duplicate();
        out.push((k, v));
        i = i + 1;
    }
    proof {
        lemma_tv_pairs(out@);
        lemma_tv_pairs(es@);
        assert(tv_pairs(out@) =~= tv_pairs(es@));
    }
    out
}

} // verus!
