//! The evaluator: the special-form dispatcher and generic apply.
//!
//! `eval_s` is the semantics of the language, written over the mathematical
//! views: what a form evaluates to, how the environment arena changes, and
//! what is printed, given an explicit nesting-depth budget — the one
//! resource bound of the recursive evaluator (there is no tail-call
//! elimination).  The executable `eval` is proved to follow it exactly.
//! Every failure is a typed value; a failed `def!` binds nothing.

use vstd::prelude::*;

use crate::env::chars_eq;
use crate::env::debug_eval_name;
use crate::env::entries_put;
use crate::env::lookup_in;
use crate::env::Env;
use crate::env::NodeV;
use crate::funcs::apply_native;
use crate::funcs::native_apply;
use crate::funcs::truthy;
use crate::printer::pr_chars;
use crate::printer::print_v;
use crate::types::clone_chars;
use crate::types::lemma_tvs;
use crate::types::names_view;
use crate::types::res_view;
use crate::types::tv;
use crate::types::tvs;
use crate::types::tv_pairs;
use crate::types::Closure;
use crate::types::ErrV;
use crate::types::FnError;
use crate::types::FnErrorV;
use crate::types::Func;
use crate::types::MalError;
use crate::types::MalRes;
use crate::types::Token;
use crate::types::Val;

verus! {

/// What evaluating one form yields: the new arena, the printed lines so
/// far, and the result or typed error.
#[verifier::ext_equal]
pub struct EvalOut {
    pub env: Seq<NodeV>,
    pub out: Seq<Seq<char>>,
    pub res: Result<Val, ErrV>,
}

/// What evaluating a sequence of forms left to right yields.
#[verifier::ext_equal]
pub struct SeqOut {
    pub env: Seq<NodeV>,
    pub out: Seq<Seq<char>>,
    pub res: Result<Seq<Val>, ErrV>,
}

/// What evaluating the values of map entries yields.
#[verifier::ext_equal]
pub struct PairsOut {
    pub env: Seq<NodeV>,
    pub out: Seq<Seq<char>>,
    pub res: Result<Seq<(Val, Val)>, ErrV>,
}

/// What walking a `let*` binding list yields: the new arena and printed
/// lines, and the first error if one arose.
#[verifier::ext_equal]
pub struct BindOut {
    pub env: Seq<NodeV>,
    pub out: Seq<Seq<char>>,
    pub err: Option<ErrV>,
}

/// The name `def!`.
pub open spec fn def_sym() -> Seq<char> {
    seq!['d', 'e', 'f', '!']
}

/// The name `let*`.
pub open spec fn let_sym() -> Seq<char> {
    seq!['l', 'e', 't', '*']
}

/// The name `do`.
pub open spec fn do_sym() -> Seq<char> {
    seq!['d', 'o']
}

/// The name `if`.
pub open spec fn if_sym() -> Seq<char> {
    seq!['i', 'f']
}

/// The name `fn*`.
pub open spec fn fn_sym() -> Seq<char> {
    seq!['f', 'n', '*']
}

/// The variadic marker `&`.
pub open spec fn amp_sym() -> Seq<char> {
    seq!['&']
}

/// The expected-text named by a `let*` whose body is missing.
pub open spec fn form_text() -> Seq<char> {
    seq!['f', 'o', 'r', 'm']
}

/// The line traced for a form when `DEBUG-EVAL` is bound to true.
pub open spec fn dbg_line(ast: Val) -> Seq<char> {
    seq!['E', 'V', 'A', 'L', ':', ' '] + print_v(ast, true)
}

/// Splits a parameter list into fixed names and an optional variadic name
/// introduced by `&`, which must be followed by exactly one symbol.
pub open spec fn parse_params(ps: Seq<Val>) -> Result<
    (Seq<Seq<char>>, Option<Seq<char>>),
    ErrV,
>
    decreases ps.len(),
{
    if ps.len() == 0 {
        Result::Ok((Seq::empty(), Option::None))
    } else if !(ps[0] is Symbol) {
        Result::Err(ErrV::BadTokenString(ps[0]))
    } else {
        let name = ps[0]->Symbol_0;
        if name == amp_sym() {
            if ps.len() == 2 && ps[1] is Symbol {
                Result::Ok((Seq::empty(), Option::Some(ps[1]->Symbol_0)))
            } else {
                Result::Err(ErrV::BadDef(Option::None))
            }
        } else {
            match parse_params(ps.drop_first()) {
                Result::Ok((rest, va)) => Result::Ok((seq![name] + rest, va)),
                Result::Err(e) => Result::Err(e),
            }
        }
    }
}

/// Binds fixed parameters to arguments, left to right.
pub open spec fn bind_params(
    entries: Seq<(Seq<char>, Val)>,
    params: Seq<Seq<char>>,
    args: Seq<Val>,
) -> Seq<(Seq<char>, Val)>
    recommends
        args.len() >= params.len(),
    decreases params.len(),
{
    if params.len() == 0 {
        entries
    } else {
        bind_params(entries_put(entries, params[0], args[0]), params.drop_first(), args.drop_first())
    }
}

/// Rebinds scope `at` of the arena, when it exists.
pub open spec fn put_at(envs: Seq<NodeV>, at: int, key: Seq<char>, v: Val) -> Seq<NodeV> {
    if 0 <= at < envs.len() {
        envs.update(
            at,
            NodeV { entries: entries_put(envs[at].entries, key, v), parent: envs[at].parent },
        )
    } else {
        envs
    }
}

/// Evaluates one form against scope `at` of the arena.
///
/// Self-evaluating forms return at once; a symbol resolves through the
/// scope chain; a list is a special form or a call; `fuel` bounds the
/// nesting depth of evaluation.
pub open spec fn eval_s(
    envs: Seq<NodeV>,
    at: int,
    out: Seq<Seq<char>>,
    ast: Val,
    fuel: nat,
) -> EvalOut
    decreases fuel, 3int, 0int,
{
    if fuel == 0 {
        EvalOut { env: envs, out, res: Result::Err(ErrV::Depth) }
    } else {
        let out = if lookup_in(envs, at, debug_eval_name()) == Option::Some(Val::Bool(true)) {
            out.push(dbg_line(ast))
        } else {
            out
        };
        match ast {
            Val::Symbol(name) => match lookup_in(envs, at, name) {
                Option::Some(v) => EvalOut { env: envs, out, res: Result::Ok(v) },
                Option::None => EvalOut {
                    env: envs,
                    out,
                    res: Result::Err(ErrV::UnknownSymbol(name)),
                },
            },
            Val::Vector(items) => {
                let so = eval_seq_vals(envs, at, out, items, fuel);
                EvalOut {
                    env: so.env,
                    out: so.out,
                    res: match so.res {
                        Result::Ok(vs) => Result::Ok(Val::Vector(vs)),
                        Result::Err(e) => Result::Err(e),
                    },
                }
            },
            Val::Hashmap(ps) => {
                let po = eval_map_vals(envs, at, out, ps, fuel);
                EvalOut {
                    env: po.env,
                    out: po.out,
                    res: match po.res {
                        Result::Ok(qs) => Result::Ok(Val::Hashmap(qs)),
                        Result::Err(e) => Result::Err(e),
                    },
                }
            },
            Val::List(items) => {
                if items.len() == 0 {
                    EvalOut { env: envs, out, res: Result::Ok(ast) }
                } else if items[0] == Val::Symbol(def_sym()) {
                    eval_def(envs, at, out, items, fuel)
                } else if items[0] == Val::Symbol(let_sym()) {
                    eval_let(envs, at, out, items, fuel)
                } else if items[0] == Val::Symbol(do_sym()) {
                    eval_do(envs, at, out, items.drop_first(), fuel)
                } else if items[0] == Val::Symbol(if_sym()) {
                    eval_if(envs, at, out, items, fuel)
                } else if items[0] == Val::Symbol(fn_sym()) {
                    EvalOut { env: envs, out, res: eval_fn(at, items) }
                } else {
                    let ho = eval_s(envs, at, out, items[0], (fuel - 1) as nat);
                    match ho.res {
                        Result::Ok(f) => {
                            let ao = eval_seq_vals(ho.env, at, ho.out, items.drop_first(), fuel);
                            match ao.res {
                                Result::Ok(vs) => apply_s(ao.env, ao.out, f, vs, fuel),
                                Result::Err(e) => EvalOut {
                                    env: ao.env,
                                    out: ao.out,
                                    res: Result::Err(e),
                                },
                            }
                        },
                        Result::Err(e) => EvalOut {
                            env: ho.env,
                            out: ho.out,
                            res: Result::Err(e),
                        },
                    }
                }
            },
            _ => EvalOut { env: envs, out, res: Result::Ok(ast) },
        }
    }
}

/// `def!`: the name must be a symbol; the value expression is evaluated in
/// the current scope and bound there; a failed evaluation binds nothing.
pub open spec fn eval_def(
    envs: Seq<NodeV>,
    at: int,
    out: Seq<Seq<char>>,
    items: Seq<Val>,
    fuel: nat,
) -> EvalOut
    decreases fuel, 2int, 0int,
{
    if fuel == 0 {
        EvalOut { env: envs, out, res: Result::Err(ErrV::Depth) }
    } else if items.len() != 3 {
        EvalOut { env: envs, out, res: Result::Err(ErrV::BadDef(Option::None)) }
    } else if !(items[1] is Symbol) {
        EvalOut { env: envs, out, res: Result::Err(ErrV::BadDef(Option::Some(items[1]))) }
    } else {
        let eo = eval_s(envs, at, out, items[2], (fuel - 1) as nat);
        match eo.res {
            Result::Ok(v) => EvalOut {
                env: put_at(eo.env, at, items[1]->Symbol_0, v),
                out: eo.out,
                res: Result::Ok(v),
            },
            Result::Err(e) => eo,
        }
    }
}

/// `let*`: a fresh child scope receives the bindings in order, each value
/// expression seeing the bindings before it; the body is then evaluated in
/// the child scope.
pub open spec fn eval_let(
    envs: Seq<NodeV>,
    at: int,
    out: Seq<Seq<char>>,
    items: Seq<Val>,
    fuel: nat,
) -> EvalOut
    decreases fuel, 2int, 0int,
{
    if fuel == 0 {
        EvalOut { env: envs, out, res: Result::Err(ErrV::Depth) }
    } else if items.len() < 2 {
        EvalOut { env: envs, out, res: Result::Err(ErrV::BadDef(Option::None)) }
    } else if !(items[1] is List || items[1] is Vector) {
        EvalOut { env: envs, out, res: Result::Err(ErrV::BadDef(Option::Some(items[1]))) }
    } else {
        let binds = if items[1] is List {
            items[1]->List_0
        } else {
            items[1]->Vector_0
        };
        if binds.len() % 2 == 1 {
            EvalOut { env: envs, out, res: Result::Err(ErrV::MistmatchKeyValue) }
        } else {
            let child = envs.len() as int;
            let envs2 = envs.push(NodeV { entries: Seq::empty(), parent: Option::Some(at) });
            let bo = eval_binds(envs2, child, out, binds, fuel);
            match bo.err {
                Option::Some(e) => EvalOut { env: bo.env, out: bo.out, res: Result::Err(e) },
                Option::None => if items.len() < 3 {
                    EvalOut {
                        env: bo.env,
                        out: bo.out,
                        res: Result::Err(ErrV::Eof(form_text())),
                    }
                } else {
                    eval_s(bo.env, child, bo.out, items[2], (fuel - 1) as nat)
                },
            }
        }
    }
}

/// Walks a `let*` binding list: each value expression is evaluated in the
/// child scope, then bound there under the preceding symbol.
pub open spec fn eval_binds(
    envs: Seq<NodeV>,
    child: int,
    out: Seq<Seq<char>>,
    binds: Seq<Val>,
    fuel: nat,
) -> BindOut
    decreases fuel, 1int, binds.len(),
{
    if fuel == 0 {
        BindOut { env: envs, out, err: Option::Some(ErrV::Depth) }
    } else if binds.len() == 0 {
        BindOut { env: envs, out, err: Option::None }
    } else if binds.len() == 1 {
        BindOut { env: envs, out, err: Option::Some(ErrV::MistmatchKeyValue) }
    } else {
        let vo = eval_s(envs, child, out, binds[1], (fuel - 1) as nat);
        match vo.res {
            Result::Ok(v) => if binds[0] is Symbol {
                eval_binds(
                    put_at(vo.env, child, binds[0]->Symbol_0, v),
                    child,
                    vo.out,
                    binds.skip(2),
                    fuel,
                )
            } else {
                BindOut {
                    env: vo.env,
                    out: vo.out,
                    err: Option::Some(ErrV::BadTokenString(binds[0])),
                }
            },
            Result::Err(e) => BindOut { env: vo.env, out: vo.out, err: Option::Some(e) },
        }
    }
}

/// `do`: evaluates the forms left to right, keeping only the last value;
/// an empty `do` is nil.
pub open spec fn eval_do(
    envs: Seq<NodeV>,
    at: int,
    out: Seq<Seq<char>>,
    items: Seq<Val>,
    fuel: nat,
) -> EvalOut
    decreases fuel, 1int, items.len(),
{
    if fuel == 0 {
        EvalOut { env: envs, out, res: Result::Err(ErrV::Depth) }
    } else if items.len() == 0 {
        EvalOut { env: envs, out, res: Result::Ok(Val::Nil) }
    } else {
        let eo = eval_s(envs, at, out, items[0], (fuel - 1) as nat);
        if items.len() == 1 {
            eo
        } else {
            match eo.res {
                Result::Ok(_) => eval_do(eo.env, at, eo.out, items.drop_first(), fuel),
                Result::Err(e) => eo,
            }
        }
    }
}

/// `if`: only nil and false are false; a one-armed `if` yields nil on a
/// false condition.
pub open spec fn eval_if(
    envs: Seq<NodeV>,
    at: int,
    out: Seq<Seq<char>>,
    items: Seq<Val>,
    fuel: nat,
) -> EvalOut
    decreases fuel, 2int, 0int,
{
    if fuel == 0 {
        EvalOut { env: envs, out, res: Result::Err(ErrV::Depth) }
    } else if !(items.len() == 3 || items.len() == 4) {
        EvalOut {
            env: envs,
            out,
            res: Result::Err(ErrV::FnError(FnErrorV::Argument(2, items.len() - 1))),
        }
    } else {
        let co = eval_s(envs, at, out, items[1], (fuel - 1) as nat);
        match co.res {
            Result::Ok(c) => if truthy(c) {
                eval_s(co.env, at, co.out, items[2], (fuel - 1) as nat)
            } else if items.len() == 4 {
                eval_s(co.env, at, co.out, items[3], (fuel - 1) as nat)
            } else {
                EvalOut { env: co.env, out: co.out, res: Result::Ok(Val::Nil) }
            },
            Result::Err(e) => co,
        }
    }
}

/// `fn*`: builds a closure capturing the parameter list, the unevaluated
/// body, and the defining scope by reference.
pub open spec fn eval_fn(at: int, items: Seq<Val>) -> Result<Val, ErrV> {
    if items.len() != 3 {
        Result::Err(ErrV::FnError(FnErrorV::Argument(2, items.len() - 1)))
    } else if !(items[1] is List || items[1] is Vector) {
        Result::Err(ErrV::BadDef(Option::Some(items[1])))
    } else {
        let ps = if items[1] is List {
            items[1]->List_0
        } else {
            items[1]->Vector_0
        };
        match parse_params(ps) {
            Result::Ok((params, va)) => Result::Ok(
                Val::Closure { params, variadic: va, body: Box::new(items[2]), env: at },
            ),
            Result::Err(e) => Result::Err(e),
        }
    }
}

/// Evaluates forms left to right, threading the arena and output.
pub open spec fn eval_seq_vals(
    envs: Seq<NodeV>,
    at: int,
    out: Seq<Seq<char>>,
    items: Seq<Val>,
    fuel: nat,
) -> SeqOut
    decreases fuel, 1int, items.len(),
{
    if fuel == 0 {
        SeqOut { env: envs, out, res: Result::Err(ErrV::Depth) }
    } else if items.len() == 0 {
        SeqOut { env: envs, out, res: Result::Ok(Seq::empty()) }
    } else {
        let eo = eval_s(envs, at, out, items[0], (fuel - 1) as nat);
        match eo.res {
            Result::Ok(v) => {
                let so = eval_seq_vals(eo.env, at, eo.out, items.drop_first(), fuel);
                match so.res {
                    Result::Ok(vs) => SeqOut {
                        env: so.env,
                        out: so.out,
                        res: Result::Ok(seq![v] + vs),
                    },
                    Result::Err(e) => so,
                }
            },
            Result::Err(e) => SeqOut { env: eo.env, out: eo.out, res: Result::Err(e) },
        }
    }
}

/// Evaluates the values of map entries left to right; keys are literals
/// and stay as they are.
pub open spec fn eval_map_vals(
    envs: Seq<NodeV>,
    at: int,
    out: Seq<Seq<char>>,
    ps: Seq<(Val, Val)>,
    fuel: nat,
) -> PairsOut
    decreases fuel, 1int, ps.len(),
{
    if fuel == 0 {
        PairsOut { env: envs, out, res: Result::Err(ErrV::Depth) }
    } else if ps.len() == 0 {
        PairsOut { env: envs, out, res: Result::Ok(Seq::empty()) }
    } else {
        let eo = eval_s(envs, at, out, ps[0].1, (fuel - 1) as nat);
        match eo.res {
            Result::Ok(v) => {
                let po = eval_map_vals(eo.env, at, eo.out, ps.drop_first(), fuel);
                match po.res {
                    Result::Ok(qs) => PairsOut {
                        env: po.env,
                        out: po.out,
                        res: Result::Ok(seq![(ps[0].0, v)] + qs),
                    },
                    Result::Err(e) => po,
                }
            },
            Result::Err(e) => PairsOut { env: eo.env, out: eo.out, res: Result::Err(e) },
        }
    }
}

/// Applies a function to evaluated arguments: a native is invoked
/// directly; a closure binds its parameters in a fresh child of its
/// captured scope (surplus arguments collect under the variadic name) and
/// evaluates its body there; anything else is not callable.
pub open spec fn apply_s(
    envs: Seq<NodeV>,
    out: Seq<Seq<char>>,
    f: Val,
    args: Seq<Val>,
    fuel: nat,
) -> EvalOut
    decreases fuel, 0int, 0int,
{
    if fuel == 0 {
        EvalOut { env: envs, out, res: Result::Err(ErrV::Depth) }
    } else {
    match f {
        Val::Native(op) => {
            let no = native_apply(op, args);
            EvalOut { env: envs, out: out + no.out, res: no.res }
        },
        Val::Closure { params, variadic, body, env: cenv } => {
            if args.len() < params.len() || (args.len() > params.len() && variadic is None) {
                EvalOut {
                    env: envs,
                    out,
                    res: Result::Err(
                        ErrV::FnError(
                            FnErrorV::Argument(params.len() as int, args.len() as int),
                        ),
                    ),
                }
            } else {
                let base = bind_params(Seq::empty(), params, args.take(params.len() as int));
                let entries = match variadic {
                    Option::Some(vn) => entries_put(
                        base,
                        vn,
                        Val::List(args.skip(params.len() as int)),
                    ),
                    Option::None => base,
                };
                let child = envs.len() as int;
                let envs2 = envs.push(NodeV { entries, parent: Option::Some(cenv) });
                eval_s(envs2, child, out, *body, (fuel - 1) as nat)
            }
        },
        _ => EvalOut {
            env: envs,
            out,
            res: Result::Err(ErrV::FnError(FnErrorV::CallableError)),
        },
    }
    }
}


/// Truthiness at run time: only nil and false are false.
fn truthy_exec(v: &Token) -> (r: bool)
    ensures
        r == truthy(v@),
{
    match v {
        Token::Nil => false,
        Token::Bool(b) => *b,
        _ => true,
    }
}

/// Splits a parameter list at run time.
fn parse_params_exec(pv: &Vec<Token>) -> (r: Result<(Vec<Vec<char>>, Option<Vec<char>>), MalError>)
    ensures
        match r {
            Result::Ok(pair) => parse_params(tvs(pv@)) == Result::<
                (Seq<Seq<char>>, Option<Seq<char>>),
                ErrV,
            >::Ok(
                (
                    names_view(pair.0@),
                    match pair.1 {
                        Option::Some(vn) => Option::Some(vn@),
                        Option::None => Option::None,
                    },
                ),
            ),
            Result::Err(e) => parse_params(tvs(pv@)) == Result::<
                (Seq<Seq<char>>, Option<Seq<char>>),
                ErrV,
            >::Err(e@),
        },
{
    proof {
        lemma_tvs(pv@);
    }
    let ghost full = tvs(pv@);
    let amp: Vec<char> = vec!['&'];
    proof {
        assert(amp@ =~= amp_sym());
    }
    let mut names: Vec<Vec<char>> = Vec::new();
    let mut i: usize = 0;
    proof {
        assert(full.skip(0) =~= full);
        assert(names_view(names@) =~= Seq::<Seq<char>>::empty());
    }
    while i < pv.len()
        invariant
            i <= pv@.len(),
            full == tvs(pv@),
            full.len() == pv@.len(),
            amp@ == amp_sym(),
            forall|j: int| 0 <= j < full.len() ==> (#[trigger] full[j]) == tv(pv@[j]),
            parse_params(full) == (match parse_params(full.skip(i as int)) {
                Result::Ok((rest, va)) => Result::<
                    (Seq<Seq<char>>, Option<Seq<char>>),
                    ErrV,
                >::Ok((names_view(names@) + rest, va)),
                Result::Err(e) => Result::Err(e),
            }),
        decreases pv@.len() - i,
    {
        let ghost rest = full.skip(i as int);
        proof {
            assert(rest[0] == full[i as int]);
            assert(rest.drop_first() =~= full.skip(i + 1));
        }
        match &pv[i] {
            Token::Symbol(name) => {
                if chars_eq(name, &amp) {
                    // the variadic marker: exactly one more symbol follows
                    if pv.len() - i == 2 {
                        proof {
                            assert(rest[1] == full[i + 1]);
                            assert(rest.len() == 2);
                        }
                        match &pv[i + 1] {
                            Token::Symbol(vn) => {
                                let vname = clone_chars(vn);
                                proof {
                                    assert(names_view(names@) + Seq::<Seq<char>>::empty()
                                        =~= names_view(names@));
                                }
                                return Result::Ok((names, Option::Some(vname)));
                            },
                            _ => {
                                return Result::Err(MalError::BadDef(Option::None));
                            },
                        }
                    } else {
                        proof {
                            if rest.len() == 2 {
                                assert(rest[1] == full[i + 1]);
                            }
                        }
                        return Result::Err(MalError::BadDef(Option::None));
                    }
                } else {
                    let ghost before = names_view(names@);
                    names.push(clone_chars(name));
                    proof {
                        assert(names_view(names@) =~= before + seq![name@]);
                        assert forall|rest2: Seq<Seq<char>>| true implies (before + seq![
                            name@,
                        ]) + rest2 =~= before + (seq![name@] + rest2) by {}
                    }
                    i = i + 1;
                }
            },
            _ => {
                return Result::Err(MalError::BadTokenString(pv[i].duplicate()));
            },
        }
    }
    proof {
        assert(full.skip(pv@.len() as int).len() == 0);
        assert(names_view(names@) + Seq::<Seq<char>>::empty() =~= names_view(names@));
    }
    Result::Ok((names, Option::None))
}

/// Copies the values from index `from` on.
fn copy_tokens_from(args: &Vec<Token>, from: usize) -> (r: Vec<Token>)
    requires
        from <= args@.len(),
    ensures
        tvs(r@) == tvs(args@).skip(from as int),
{
    proof {
        lemma_tvs(args@);
    }
    let mut out: Vec<Token> = Vec::new();
    let mut i: usize = from;
    while i < args.len()
        invariant
            from <= i <= args@.len(),
            out@.len() == i - from,
            forall|j: int| 0 <= j < out@.len() ==> tv(#[trigger] out@[j]) == tv(args@[j + from]),
        decreases args@.len() - i,
    {
        out.push(args[i].duplicate());
        i = i + 1;
    }
    proof {
        lemma_tvs(out@);
        lemma_tvs(args@);
        assert(tvs(out@) =~= tvs(args@).skip(from as int));
    }
    out
}


/// Evaluates the forms from index `from` on, left to right.
fn eval_args(
    items: &Vec<Token>,
    env: &mut Env,
    at: usize,
    out: &mut Vec<Vec<char>>,
    from: usize,
    fuel: u64,
) -> (r: MalRes<Vec<Token>>)
    requires
        at < old(env)@.len(),
        from <= items@.len(),
        fuel >= 1,
    ensures
        final(env)@.len() >= old(env)@.len(),
        ({
            let so = eval_seq_vals(
                old(env)@,
                at as int,
                names_view(old(out)@),
                tvs(items@).skip(from as int),
                fuel as nat,
            );
            final(env)@ == so.env && names_view(final(out)@) == so.out && (match r {
                Result::Ok(vs) => so.res == Result::<Seq<Val>, ErrV>::Ok(tvs(vs@)),
                Result::Err(e) => so.res == Result::<Seq<Val>, ErrV>::Err(e@),
            })
        }),
    decreases fuel, 1int, items@.len() - from,
{
    proof {
        lemma_tvs(items@);
    }
    if from == items.len() {
        let empty: Vec<Token> = Vec::new();
        proof {
            lemma_tvs(empty@);
            assert(tvs(empty@) =~= Seq::<Val>::empty());
            assert(tvs(items@).skip(from as int).len() == 0);
        }
        return Result::Ok(empty);
    }
    let ghost rest = tvs(items@).skip(from as int);
    proof {
        assert(rest[0] == tv(items@[from as int]));
        assert(rest.drop_first() =~= tvs(items@).skip(from + 1));
    }
    match eval(&items[from], env, at, out, fuel - 1) {
        Result::Err(e) => Result::Err(e),
        Result::Ok(v) => {
            match eval_args(items, env, at, out, from + 1, fuel) {
                Result::Err(e) => Result::Err(e),
                Result::Ok(mut vs) => {
                    let ghost pre = vs@;
                    let ghost vv = v@;
                    proof {
                        lemma_tvs(pre);
                    }
                    vs.insert(0, v);
                    proof {
                        lemma_tvs(vs@);
                        assert(vs@ =~= seq![vs@[0]] + pre);
                        assert(tv(vs@[0]) == vv);
                        assert forall|j: int| 0 <= j < vs@.len() implies tvs(vs@)[j] == (seq![
                            vv,
                        ] + tvs(pre))[j] by {
                            if j > 0 {
                                assert(vs@[j] == pre[j - 1]);
                            }
                        }
                        assert(tvs(vs@) =~= seq![vv] + tvs(pre));
                    }
                    Result::Ok(vs)
                },
            }
        },
    }
}

/// Walks a binding list from index `from` on: value, then bind.
fn eval_binds_exec(
    binds: &Vec<Token>,
    env: &mut Env,
    child: usize,
    out: &mut Vec<Vec<char>>,
    from: usize,
    fuel: u64,
) -> (r: Option<MalError>)
    requires
        child < old(env)@.len(),
        from <= binds@.len(),
        fuel >= 1,
    ensures
        final(env)@.len() >= old(env)@.len(),
        ({
            let bo = eval_binds(
                old(env)@,
                child as int,
                names_view(old(out)@),
                tvs(binds@).skip(from as int),
                fuel as nat,
            );
            final(env)@ == bo.env && names_view(final(out)@) == bo.out && (match r {
                Option::None => bo.err is None,
                Option::Some(e) => bo.err == Option::Some(e@),
            })
        }),
    decreases fuel, 1int, binds@.len() - from,
{
    proof {
        lemma_tvs(binds@);
    }
    if from == binds.len() {
        proof {
            assert(tvs(binds@).skip(from as int).len() == 0);
        }
        return Option::None;
    }
    let ghost rest = tvs(binds@).skip(from as int);
    proof {
        assert(rest[0] == tv(binds@[from as int]));
    }
    if binds.len() - from == 1 {
        return Option::Some(MalError::MistmatchKeyValue);
    }
    proof {
        assert(rest[1] == tv(binds@[from + 1]));
        assert(rest.skip(2) =~= tvs(binds@).skip(from + 2));
    }
    match eval(&binds[from + 1], env, child, out, fuel - 1) {
        Result::Err(e) => Option::Some(e),
        Result::Ok(v) => {
            match &binds[from] {
                Token::Symbol(name) => {
                    let key = clone_chars(name);
                    let ghost vv = v@;
                    let ghost mid = env@;
                    env.insert(child, key, v);
                    proof {
                        assert(0 <= child < mid.len());
                        assert(env@ =~~= put_at(mid, child as int, name@, vv));
                    }
                    eval_binds_exec(binds, env, child, out, from + 2, fuel)
                },
                _ => Option::Some(MalError::BadTokenString(binds[from].duplicate())),
            }
        },
    }
}

/// Evaluates the forms from index `from` on, keeping only the last value.
fn eval_do_exec(
    items: &Vec<Token>,
    env: &mut Env,
    at: usize,
    out: &mut Vec<Vec<char>>,
    from: usize,
    fuel: u64,
) -> (r: MalRes<Token>)
    requires
        at < old(env)@.len(),
        from <= items@.len(),
        fuel >= 1,
    ensures
        final(env)@.len() >= old(env)@.len(),
        ({
            let eo = eval_do(
                old(env)@,
                at as int,
                names_view(old(out)@),
                tvs(items@).skip(from as int),
                fuel as nat,
            );
            final(env)@ == eo.env && names_view(final(out)@) == eo.out && res_view(r) == eo.res
        }),
    decreases fuel, 1int, items@.len() - from,
{
    proof {
        lemma_tvs(items@);
    }
    if from == items.len() {
        proof {
            assert(tvs(items@).skip(from as int).len() == 0);
        }
        return Result::Ok(Token::Nil);
    }
    let ghost rest = tvs(items@).skip(from as int);
    proof {
        assert(rest[0] == tv(items@[from as int]));
        assert(rest.drop_first() =~= tvs(items@).skip(from + 1));
    }
    let r1 = eval(&items[from], env, at, out, fuel - 1);
    if items.len() - from == 1 {
        return r1;
    }
    match r1 {
        Result::Ok(_) => eval_do_exec(items, env, at, out, from + 1, fuel),
        Result::Err(e) => Result::Err(e),
    }
}

/// Evaluates the values of the map entries from index `from` on.
fn eval_map_exec(
    ps: &Vec<(Token, Token)>,
    env: &mut Env,
    at: usize,
    out: &mut Vec<Vec<char>>,
    from: usize,
    fuel: u64,
) -> (r: MalRes<Vec<(Token, Token)>>)
    requires
        at < old(env)@.len(),
        from <= ps@.len(),
        fuel >= 1,
    ensures
        final(env)@.len() >= old(env)@.len(),
        ({
            let po = eval_map_vals(
                old(env)@,
                at as int,
                names_view(old(out)@),
                tv_pairs(ps@).skip(from as int),
                fuel as nat,
            );
            final(env)@ == po.env && names_view(final(out)@) == po.out && (match r {
                Result::Ok(qs) => po.res == Result::<Seq<(Val, Val)>, ErrV>::Ok(tv_pairs(qs@)),
                Result::Err(e) => po.res == Result::<Seq<(Val, Val)>, ErrV>::Err(e@),
            })
        }),
    decreases fuel, 1int, ps@.len() - from,
{
    proof {
        crate::types::lemma_tv_pairs(ps@);
    }
    if from == ps.len() {
        let empty: Vec<(Token, Token)> = Vec::new();
        proof {
            crate::types::lemma_tv_pairs(empty@);
            assert(tv_pairs(empty@) =~= Seq::<(Val, Val)>::empty());
            assert(tv_pairs(ps@).skip(from as int).len() == 0);
        }
        return Result::Ok(empty);
    }
    let ghost rest = tv_pairs(ps@).skip(from as int);
    proof {
        assert(rest[0] == tv_pairs(ps@)[from as int]);
        assert(rest.drop_first() =~= tv_pairs(ps@).skip(from + 1));
    }
    match eval(&ps[from].1, env, at, out, fuel - 1) {
        Result::Err(e) => Result::Err(e),
        Result::Ok(v) => {
            let k = ps[from].0.duplicate();
            match eval_map_exec(ps, env, at, out, from + 1, fuel) {
                Result::Err(e) => Result::Err(e),
                Result::Ok(mut qs) => {
                    let ghost pre = qs@;
                    let ghost kk = k@;
                    let ghost vv = v@;
                    proof {
                        crate::types::lemma_tv_pairs(pre);
                    }
                    qs.insert(0, (k, v));
                    proof {
                        crate::types::lemma_tv_pairs(qs@);
                        assert(qs@ =~= seq![qs@[0]] + pre);
                        assert forall|j: int| 0 <= j < qs@.len() implies tv_pairs(qs@)[j] == (seq![
                            (kk, vv),
                        ] + tv_pairs(pre))[j] by {
                            if j > 0 {
                                assert(qs@[j] == pre[j - 1]);
                            }
                        }
                        assert(tv_pairs(qs@) =~= seq![(kk, vv)] + tv_pairs(pre));
                    }
                    Result::Ok(qs)
                },
            }
        },
    }
}

/// Applies a function value to evaluated arguments.
fn apply_exec(
    f: Token,
    args: Vec<Token>,
    env: &mut Env,
    out: &mut Vec<Vec<char>>,
    fuel: u64,
) -> (r: MalRes<Token>)
    requires
        fuel >= 1,
    ensures
        final(env)@.len() >= old(env)@.len(),
        ({
            let ao = apply_s(
                old(env)@,
                names_view(old(out)@),
                f@,
                tvs(args@),
                fuel as nat,
            );
            final(env)@ == ao.env && names_view(final(out)@) == ao.out && res_view(r) == ao.res
        }),
    decreases fuel, 0int, 0int,
{
    proof {
        lemma_tvs(args@);
    }
    match f {
        Token::Func(func) => match func {
            Func::Native(op) => apply_native(op, &args, out),
            Func::Closure(c) => {
                let ghost pview = names_view(c.params@);
                let ghost argsv = tvs(args@);
                let nparams = c.params.len();
                proof {
                    assert(pview.len() == c.params@.len());
                }
                let too_many = match &c.variadic {
                    Option::None => args.len() > nparams,
                    Option::Some(_) => false,
                };
                if args.len() < nparams || too_many {
                    return Result::Err(
                        MalError::FnError(FnError::Argument(nparams, args.len())),
                    );
                }
                let ghost fixed = argsv.take(nparams as int);
                let child = env.new_child(c.env);
                let ghost envs2 = old(env)@.push(
                    NodeV { entries: Seq::empty(), parent: Option::Some(c.env as int) },
                );
                proof {
                    assert(env@ =~~= envs2);
                    assert(env@[child as int].entries =~= Seq::<(Seq<char>, Val)>::empty());
                    assert(bind_params(
                        env@[child as int].entries,
                        pview.skip(0),
                        fixed.skip(0),
                    ) == bind_params(Seq::empty(), pview, fixed)) by {
                        assert(pview.skip(0) =~= pview);
                        assert(fixed.skip(0) =~= fixed);
                        assert(env@[child as int].entries =~= Seq::<(Seq<char>, Val)>::empty());
                    }
                }
                let mut i: usize = 0;
                while i < c.params.len()
                    invariant
                        i <= nparams,
                        nparams == c.params@.len(),
                        args@.len() >= nparams,
                        child < env@.len(),
                        child == envs2.len() - 1,
                        env@.len() == envs2.len(),
                        pview == names_view(c.params@),
                        pview.len() == nparams,
                        argsv == tvs(args@),
                        argsv.len() == args@.len(),
                        fixed == argsv.take(nparams as int),
                        fixed.len() == nparams,
                        forall|j: int| 0 <= j < pview.len() ==> (#[trigger] pview[j])
                            == c.params@[j]@,
                        forall|j: int| 0 <= j < argsv.len() ==> (#[trigger] argsv[j])
                            == tv(args@[j]),
                        forall|j: int| 0 <= j < envs2.len() && j != child ==> (#[trigger] env@[j])
                            == envs2[j],
                        env@[child as int].parent == envs2[child as int].parent,
                        bind_params(
                            env@[child as int].entries,
                            pview.skip(i as int),
                            fixed.skip(i as int),
                        ) == bind_params(Seq::empty(), pview, fixed),
                    decreases nparams - i,
                {
                    let ghost cur = env@[child as int].entries;
                    let ghost prest = pview.skip(i as int);
                    let ghost arest = fixed.skip(i as int);
                    proof {
                        assert(prest[0] == pview[i as int]);
                        assert(arest[0] == fixed[i as int]);
                        assert(fixed[i as int] == argsv[i as int]);
                        assert(prest.drop_first() =~= pview.skip(i + 1));
                        assert(arest.drop_first() =~= fixed.skip(i + 1));
                    }
                    let key = clone_chars(&c.params[i]);
                    let v = args[i].duplicate();
                    env.insert(child, key, v);
                    i = i + 1;
                }
                proof {
                    assert(pview.skip(nparams as int).len() == 0);
                    assert(fixed.skip(nparams as int).len() == 0);
                    assert(env@[child as int].entries == bind_params(Seq::empty(), pview, fixed));
                }
                match &c.variadic {
                    Option::Some(vn) => {
                        let ghost base = env@[child as int].entries;
                        let restv = copy_tokens_from(&args, nparams);
                        let vkey = clone_chars(vn);
                        env.insert(child, vkey, Token::List(restv));
                        proof {
                            assert(env@[child as int].entries == entries_put(
                                base,
                                vn@,
                                Val::List(argsv.skip(nparams as int)),
                            ));
                        }
                    },
                    Option::None => {},
                }
                proof {
                    let spec_entries = match tv(Token::Func(Func::Closure(c)))
                        ->Closure_variadic {
                        Option::Some(vn) => entries_put(
                            bind_params(Seq::empty(), pview, fixed),
                            vn,
                            Val::List(argsv.skip(nparams as int)),
                        ),
                        Option::None => bind_params(Seq::empty(), pview, fixed),
                    };
                    assert(env@ =~~= old(env)@.push(
                        NodeV { entries: spec_entries, parent: Option::Some(c.env as int) },
                    ));
                }
                eval(&c.body, env, child, out, fuel - 1)
            },
        },
        _ => Result::Err(MalError::FnError(FnError::CallableError)),
    }
}


/// Evaluates one form against scope `at` of the arena, appending printed
/// lines to `out`; `fuel` bounds the nesting depth of evaluation.
#[verifier::rlimit(100)]
pub fn eval(
    ast: &Token,
    env: &mut Env,
    at: usize,
    out: &mut Vec<Vec<char>>,
    fuel: u64,
) -> (r: MalRes<Token>)
    requires
        at < old(env)@.len(),
    ensures
        final(env)@.len() >= old(env)@.len(),
        ({
            let so = eval_s(old(env)@, at as int, names_view(old(out)@), ast@, fuel as nat);
            final(env)@ == so.env && names_view(final(out)@) == so.out && res_view(r) == so.res
        }),
    decreases fuel, 3int, 0int,
{
    if fuel == 0 {
        return Result::Err(MalError::Depth);
    }
    let dbg_name: Vec<char> = vec!['D', 'E', 'B', 'U', 'G', '-', 'E', 'V', 'A', 'L'];
    proof {
        assert(dbg_name@ =~= debug_eval_name());
    }
    let dbg = match env.get(at, &dbg_name) {
        Option::Some(t) => match t {
            Token::Bool(b) => b,
            _ => false,
        },
        Option::None => false,
    };
    proof {
        assert(dbg == (lookup_in(env@, at as int, debug_eval_name()) == Option::Some(
            Val::Bool(true),
        )));
    }
    if dbg {
        let mut line: Vec<char> = vec!['E', 'V', 'A', 'L', ':', ' '];
        let mut body = pr_chars(ast, true);
        line.append(&mut body);
        proof {
            assert(line@ =~= dbg_line(ast@));
        }
        out.push(line);
        proof {
            assert(names_view(out@) =~= names_view(old(out)@).push(dbg_line(ast@)));
        }
    }
    match ast {
        Token::Symbol(name) => {
            match env.get(at, name) {
                Option::Some(v) => Result::Ok(v),
                Option::None => Result::Err(MalError::UnknownSymbol(clone_chars(name))),
            }
        },
        Token::Vector(items) => {
            proof {
                lemma_tvs(items@);
                assert(tvs(items@).skip(0) =~= tvs(items@));
            }
            match eval_args(items, env, at, out, 0, fuel) {
                Result::Ok(vs) => Result::Ok(Token::Vector(vs)),
                Result::Err(e) => Result::Err(e),
            }
        },
        Token::Hashmap(ps) => {
            proof {
                assert(tv_pairs(ps@).skip(0) =~= tv_pairs(ps@));
            }
            match eval_map_exec(ps, env, at, out, 0, fuel) {
                Result::Ok(qs) => Result::Ok(Token::Hashmap(qs)),
                Result::Err(e) => Result::Err(e),
            }
        },
        Token::List(items) => {
            proof {
                lemma_tvs(items@);
            }
            let ghost itemsv = tvs(items@);
            if items.len() == 0 {
                return Result::Ok(ast.duplicate());
            }
            proof {
                assert(itemsv[0] == tv(items@[0]));
            }
            let mut form: usize = 0;
            match &items[0] {
                Token::Symbol(name) => {
                    let def_v: Vec<char> = vec!['d', 'e', 'f', '!'];
                    let let_v: Vec<char> = vec!['l', 'e', 't', '*'];
                    let do_v: Vec<char> = vec!['d', 'o'];
                    let if_v: Vec<char> = vec!['i', 'f'];
                    let fn_v: Vec<char> = vec!['f', 'n', '*'];
                    proof {
                        assert(def_v@ =~= def_sym());
                        assert(let_v@ =~= let_sym());
                        assert(do_v@ =~= do_sym());
                        assert(if_v@ =~= if_sym());
                        assert(fn_v@ =~= fn_sym());
                    }
                    if chars_eq(name, &def_v) {
                        form = 1;
                    } else if chars_eq(name, &let_v) {
                        form = 2;
                    } else if chars_eq(name, &do_v) {
                        form = 3;
                    } else if chars_eq(name, &if_v) {
                        form = 4;
                    } else if chars_eq(name, &fn_v) {
                        form = 5;
                    }
                },
                _ => {},
            }
            proof {
                assert((form == 1) == (itemsv[0] == Val::Symbol(def_sym())));
                assert((form == 2) == (itemsv[0] == Val::Symbol(let_sym())));
                assert((form == 3) == (itemsv[0] == Val::Symbol(do_sym())));
                assert((form == 4) == (itemsv[0] == Val::Symbol(if_sym())));
                assert((form == 5) == (itemsv[0] == Val::Symbol(fn_sym())));
            }
            if form == 1 {
                if items.len() != 3 {
                    proof {
                        let so = eval_s(
                            old(env)@,
                            at as int,
                            names_view(old(out)@),
                            ast@,
                            fuel as nat,
                        );
                        assert(ast@ == Val::List(itemsv));
                        assert(itemsv.len() != 3);
                        assert(so == eval_def(
                            old(env)@,
                            at as int,
                            names_view(out@),
                            itemsv,
                            fuel as nat,
                        ));
                        assert(so.env == env@);
                        assert(so.out == names_view(out@));
                        assert(so.res == Result::<Val, ErrV>::Err(ErrV::BadDef(Option::None)));
                    }
                    return Result::Err(MalError::BadDef(Option::None));
                }
                proof {
                    assert(itemsv[1] == tv(items@[1]));
                    assert(itemsv[2] == tv(items@[2]));
                }
                match &items[1] {
                    Token::Symbol(keyname) => {
                        let key = clone_chars(keyname);
                        match eval(&items[2], env, at, out, fuel - 1) {
                            Result::Ok(v) => {
                                let copy = v.duplicate();
                                let ghost mid = env@;
                                env.insert(at, key, copy);
                                proof {
                                    assert(env@ =~~= put_at(mid, at as int, keyname@, v@));
                                }
                                Result::Ok(v)
                            },
                            Result::Err(e) => Result::Err(e),
                        }
                    },
                    _ => Result::Err(MalError::BadDef(Option::Some(items[1].duplicate()))),
                }
            } else if form == 2 {
                if items.len() < 2 {
                    proof {
                        assert(eval_s(old(env)@, at as int, names_view(old(out)@), ast@, fuel as nat)
                            == eval_let(old(env)@, at as int, names_view(out@), itemsv, fuel as nat));
                    }
                    return Result::Err(MalError::BadDef(Option::None));
                }
                proof {
                    assert(itemsv[1] == tv(items@[1]));
                }
                let b: &Vec<Token> = match &items[1] {
                    Token::List(x) => x,
                    Token::Vector(x) => x,
                    _ => {
                        proof {
                            assert(!(itemsv[1] is List || itemsv[1] is Vector));
                            assert(eval_s(old(env)@, at as int, names_view(old(out)@), ast@, fuel as nat)
                                == eval_let(old(env)@, at as int, names_view(out@), itemsv, fuel as nat));
                        }
                        return Result::Err(MalError::BadDef(Option::Some(items[1].duplicate())));
                    },
                };
                proof {
                    lemma_tvs(b@);
                }
                if b.len() % 2 == 1 {
                    return Result::Err(MalError::MistmatchKeyValue);
                }
                let child = env.new_child(at);
                proof {
                    assert(tvs(b@).skip(0) =~= tvs(b@));
                }
                match eval_binds_exec(b, env, child, out, 0, fuel) {
                    Option::Some(e) => Result::Err(e),
                    Option::None => {
                        if items.len() < 3 {
                            let expected: Vec<char> = vec!['f', 'o', 'r', 'm'];
                            proof {
                                assert(expected@ =~= form_text());
                            }
                            return Result::Err(MalError::Eof(expected));
                        }
                        proof {
                            assert(itemsv[2] == tv(items@[2]));
                        }
                        eval(&items[2], env, child, out, fuel - 1)
                    },
                }
            } else if form == 3 {
                proof {
                    assert(tvs(items@).skip(1) =~= itemsv.drop_first());
                }
                eval_do_exec(items, env, at, out, 1, fuel)
            } else if form == 4 {
                if !(items.len() == 3 || items.len() == 4) {
                    proof {
                        assert(eval_s(old(env)@, at as int, names_view(old(out)@), ast@, fuel as nat)
                            == eval_if(old(env)@, at as int, names_view(out@), itemsv, fuel as nat));
                    }
                    return Result::Err(
                        MalError::FnError(FnError::Argument(2, items.len() - 1)),
                    );
                }
                proof {
                    assert(itemsv[1] == tv(items@[1]));
                    assert(itemsv[2] == tv(items@[2]));
                    if items@.len() == 4 {
                        assert(itemsv[3] == tv(items@[3]));
                    }
                }
                match eval(&items[1], env, at, out, fuel - 1) {
                    Result::Err(e) => Result::Err(e),
                    Result::Ok(c) => {
                        if truthy_exec(&c) {
                            eval(&items[2], env, at, out, fuel - 1)
                        } else if items.len() == 4 {
                            eval(&items[3], env, at, out, fuel - 1)
                        } else {
                            Result::Ok(Token::Nil)
                        }
                    },
                }
            } else if form == 5 {
                if items.len() != 3 {
                    proof {
                        assert(eval_s(old(env)@, at as int, names_view(old(out)@), ast@, fuel as nat)
                            == (EvalOut {
                                env: old(env)@,
                                out: names_view(out@),
                                res: eval_fn(at as int, itemsv),
                            }));
                        assert(eval_fn(at as int, itemsv) == Result::<Val, ErrV>::Err(
                            ErrV::FnError(FnErrorV::Argument(2, itemsv.len() - 1)),
                        ));
                    }
                    return Result::Err(
                        MalError::FnError(FnError::Argument(2, items.len() - 1)),
                    );
                }
                proof {
                    assert(itemsv[1] == tv(items@[1]));
                    assert(itemsv[2] == tv(items@[2]));
                }
                let pv: &Vec<Token> = match &items[1] {
                    Token::List(x) => x,
                    Token::Vector(x) => x,
                    _ => {
                        return Result::Err(MalError::BadDef(Option::Some(items[1].duplicate())));
                    },
                };
                match parse_params_exec(pv) {
                    Result::Err(e) => Result::Err(e),
                    Result::Ok((params, variadic)) => {
                        let body = Box::new(items[2].duplicate());
                        let cl = Token::Func(
                            Func::Closure(Closure { params, variadic, body, env: at }),
                        );
                        Result::Ok(cl)
                    },
                }
            } else {
                match eval(&items[0], env, at, out, fuel - 1) {
                    Result::Err(e) => Result::Err(e),
                    Result::Ok(f) => {
                        proof {
                            assert(tvs(items@).skip(1) =~= itemsv.drop_first());
                        }
                        match eval_args(items, env, at, out, 1, fuel) {
                            Result::Err(e) => Result::Err(e),
                            Result::Ok(vs) => apply_exec(f, vs, env, out, fuel),
                        }
                    },
                }
            }
        },
        _ => Result::Ok(ast.duplicate()),
    }
}

} // verus!
