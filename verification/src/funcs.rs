//! The native library: arithmetic, comparisons, list and string
//! operations.  `native_apply` is the specification of every native
//! function — which value it returns, which typed error it raises, and
//! which lines it prints — and the executable implementations are proved
//! to follow it.

use vstd::prelude::*;

use crate::env::chars_eq;
use crate::printer::print_items;
use crate::printer::print_v;
use crate::printer::pr_chars;
use crate::types::kind_of;
use crate::types::lemma_tvs;
use crate::types::res_view;
use crate::types::tv;
use crate::types::tvs;
use crate::types::tv_pairs;
use crate::types::ErrV;
use crate::types::FnError;
use crate::types::FnErrorV;
use crate::types::MalError;
use crate::types::MalRes;
use crate::types::Native;
use crate::types::Token;
use crate::types::Val;

verus! {

/// The equality the `=` native decides: structural, with lists and vectors
/// compared by their elements alone, maps compared without regard to entry
/// order, and closures equal to nothing.
pub open spec fn mal_eq(a: Val, b: Val) -> bool
    decreases a, 2int, 0int,
{
    match a {
        Val::Nil => b is Nil,
        Val::Bool(x) => b matches Val::Bool(y) && x == y,
        Val::Integer(x) => b matches Val::Integer(y) && x == y,
        Val::Real(x) => b matches Val::Real(y) && x == y,
        Val::Str(x) => b matches Val::Str(y) && x == y,
        Val::Keyword(x) => b matches Val::Keyword(y) && x == y,
        Val::Symbol(x) => b matches Val::Symbol(y) && x == y,
        Val::List(xs) => match b {
            Val::List(ys) => eq_items(xs, ys),
            Val::Vector(ys) => eq_items(xs, ys),
            _ => false,
        },
        Val::Vector(xs) => match b {
            Val::List(ys) => eq_items(xs, ys),
            Val::Vector(ys) => eq_items(xs, ys),
            _ => false,
        },
        Val::Hashmap(xp) => b matches Val::Hashmap(yp) && eq_maps(xp, yp),
        Val::Native(x) => b matches Val::Native(y) && x == y,
        Val::Closure { .. } => false,
    }
}

/// Elementwise equality of two value sequences.
pub open spec fn eq_items(xs: Seq<Val>, ys: Seq<Val>) -> bool
    decreases xs, 1int, 0int,
{
    if xs.len() != ys.len() {
        false
    } else if xs.len() == 0 {
        true
    } else {
        mal_eq(xs[0], ys[0]) && eq_items(xs.drop_first(), ys.drop_first())
    }
}

/// Equality of two maps: the same number of entries, and every entry of
/// the first found in the second.
pub open spec fn eq_maps(xp: Seq<(Val, Val)>, yp: Seq<(Val, Val)>) -> bool
    decreases xp, 1int, 0int,
{
    xp.len() == yp.len() && map_subset(xp, yp)
}

/// Every entry of `xp` has a matching entry in `yp`.
pub open spec fn map_subset(xp: Seq<(Val, Val)>, yp: Seq<(Val, Val)>) -> bool
    decreases xp, 0int, 0int,
{
    if xp.len() == 0 {
        true
    } else {
        let idx = find_val(yp, xp[0].0);
        0 <= idx < yp.len() && mal_eq(xp[0].1, yp[idx].1) && map_subset(xp.drop_first(), yp)
    }
}

/// The index of the first entry of `yp` whose key equals `k`, or -1.
pub open spec fn find_val(yp: Seq<(Val, Val)>, k: Val) -> int
    decreases k, 2int, yp.len(),
{
    if yp.len() == 0 {
        -1
    } else if mal_eq(k, yp[0].0) {
        0
    } else {
        let r = find_val(yp.drop_first(), k);
        if r < 0 {
            -1
        } else {
            r + 1
        }
    }
}

/// `find_val` finds the first matching entry, and -1 only when none
/// matches.
pub proof fn lemma_find_val(yp: Seq<(Val, Val)>, k: Val)
    ensures
        -1 <= find_val(yp, k) < yp.len(),
        find_val(yp, k) >= 0 ==> mal_eq(k, yp[find_val(yp, k)].0),
        forall|j: int| 0 <= j < yp.len() && j < find_val(yp, k) ==> !mal_eq(
            k,
            (#[trigger] yp[j]).0,
        ),
        find_val(yp, k) == -1 ==> forall|j: int|
            0 <= j < yp.len() ==> !mal_eq(k, (#[trigger] yp[j]).0),
    decreases yp.len(),
{
    if yp.len() > 0 {
        lemma_find_val(yp.drop_first(), k);
        if !mal_eq(k, yp[0].0) {
            let rest = yp.drop_first();
            assert forall|j: int| 0 <= j < yp.len() && j < find_val(yp, k) implies !mal_eq(
                k,
                (#[trigger] yp[j]).0,
            ) by {
                if j > 0 {
                    assert(rest[j - 1] == yp[j]);
                }
            }
            if find_val(rest, k) < 0 {
                assert forall|j: int| 0 <= j < yp.len() implies !mal_eq(
                    k,
                    (#[trigger] yp[j]).0,
                ) by {
                    if j > 0 {
                        assert(rest[j - 1] == yp[j]);
                    }
                }
            } else {
                assert(yp[find_val(rest, k) + 1] == rest[find_val(rest, k)]);
            }
        }
    }
}

/// Only `nil` and `false` are false; every other value is true.
pub open spec fn truthy(v: Val) -> bool {
    !(v is Nil || v == Val::Bool(false))
}

/// The concatenated raw text of a sequence of values, with no separator.
pub open spec fn str_join(args: Seq<Val>) -> Seq<char>
    decreases args.len(),
{
    if args.len() == 0 {
        Seq::empty()
    } else {
        print_v(args[0], false) + str_join(args.drop_first())
    }
}

/// One step of an arithmetic fold over two operands.
pub open spec fn arith_step(op: Native, a: Val, b: Val) -> Result<Val, ErrV> {
    if a is Integer && b is Integer {
        let x = a->Integer_0;
        let y = b->Integer_0;
        match op {
            Native::Add => Result::Ok(Val::Integer(vstd::wrapping::i64_specs::wrapping_add(x, y))),
            Native::Sub => Result::Ok(Val::Integer(vstd::wrapping::i64_specs::wrapping_sub(x, y))),
            Native::Mul => Result::Ok(Val::Integer(vstd::wrapping::i64_specs::wrapping_mul(x, y))),
            _ => if y == 0 {
                Result::Err(ErrV::FnError(FnErrorV::ZeroDivision))
            } else {
                match x.checked_div(y) {
                    Option::Some(q) => Result::Ok(Val::Integer(q)),
                    Option::None => Result::Ok(Val::Integer(i64::MIN)),
                }
            },
        }
    } else {
        Result::Err(ErrV::FnError(FnErrorV::Type(op, kind_of(a), kind_of(b))))
    }
}

/// A left fold of an arithmetic operation over the remaining operands.
pub open spec fn arith_fold(op: Native, acc: Val, rest: Seq<Val>) -> Result<Val, ErrV>
    decreases rest.len(),
{
    if rest.len() == 0 {
        Result::Ok(acc)
    } else {
        match arith_step(op, acc, rest[0]) {
            Result::Ok(v) => arith_fold(op, v, rest.drop_first()),
            Result::Err(e) => Result::Err(e),
        }
    }
}

/// What applying an arithmetic native yields: a left fold over at least
/// two operands.
pub open spec fn arith_apply(op: Native, args: Seq<Val>) -> Result<Val, ErrV> {
    if args.len() < 2 {
        Result::Err(ErrV::FnError(FnErrorV::Argument(2, args.len() as int)))
    } else {
        arith_fold(op, args[0], args.drop_first())
    }
}

/// What a two-operand integer comparison yields.
pub open spec fn cmp_apply(op: Native, args: Seq<Val>) -> Result<Val, ErrV> {
    if args.len() != 2 {
        Result::Err(ErrV::FnError(FnErrorV::Argument(2, args.len() as int)))
    } else if args[0] is Integer && args[1] is Integer {
        let x = args[0]->Integer_0;
        let y = args[1]->Integer_0;
        let r = match op {
            Native::Gt => x > y,
            Native::Ge => x >= y,
            Native::Lt => x < y,
            _ => x <= y,
        };
        Result::Ok(Val::Bool(r))
    } else {
        Result::Err(
            ErrV::FnError(FnErrorV::Type(op, kind_of(args[0]), kind_of(args[1]))),
        )
    }
}

/// The element count as an integer value; a count beyond the integer
/// range (impossible for values a machine can hold) saturates.
pub open spec fn count_of(xs: Seq<Val>) -> Val {
    if xs.len() <= i64::MAX {
        Val::Integer(xs.len() as i64)
    } else {
        Val::Integer(i64::MAX)
    }
}

/// What a native application yields and prints.
pub struct NativeOut {
    pub out: Seq<Seq<char>>,
    pub res: Result<Val, ErrV>,
}

/// What applying a native function to evaluated arguments yields: its
/// result or typed error, and the lines it prints.
pub open spec fn native_apply(op: Native, args: Seq<Val>) -> NativeOut {
    match op {
        Native::Add => NativeOut { out: Seq::empty(), res: arith_apply(op, args) },
        Native::Sub => NativeOut { out: Seq::empty(), res: arith_apply(op, args) },
        Native::Mul => NativeOut { out: Seq::empty(), res: arith_apply(op, args) },
        Native::Div => NativeOut { out: Seq::empty(), res: arith_apply(op, args) },
        Native::EqVal => NativeOut {
            out: Seq::empty(),
            res: if args.len() != 2 {
                Result::Err(ErrV::FnError(FnErrorV::Argument(2, args.len() as int)))
            } else {
                Result::Ok(Val::Bool(mal_eq(args[0], args[1])))
            },
        },
        Native::Gt => NativeOut { out: Seq::empty(), res: cmp_apply(op, args) },
        Native::Ge => NativeOut { out: Seq::empty(), res: cmp_apply(op, args) },
        Native::Lt => NativeOut { out: Seq::empty(), res: cmp_apply(op, args) },
        Native::Le => NativeOut { out: Seq::empty(), res: cmp_apply(op, args) },
        Native::MakeList => NativeOut { out: Seq::empty(), res: Result::Ok(Val::List(args)) },
        Native::IsList => NativeOut {
            out: Seq::empty(),
            res: if args.len() != 1 {
                Result::Err(ErrV::FnError(FnErrorV::Argument(1, args.len() as int)))
            } else {
                Result::Ok(Val::Bool(args[0] is List))
            },
        },
        Native::IsEmpty => NativeOut {
            out: Seq::empty(),
            res: if args.len() != 1 {
                Result::Err(ErrV::FnError(FnErrorV::Argument(1, args.len() as int)))
            } else {
                match args[0] {
                    Val::List(xs) => Result::Ok(Val::Bool(xs.len() == 0)),
                    Val::Vector(xs) => Result::Ok(Val::Bool(xs.len() == 0)),
                    _ => Result::Err(
                        ErrV::FnError(
                            FnErrorV::Type(op, kind_of(args[0]), kind_of(args[0])),
                        ),
                    ),
                }
            },
        },
        Native::Count => NativeOut {
            out: Seq::empty(),
            res: if args.len() != 1 {
                Result::Err(ErrV::FnError(FnErrorV::Argument(1, args.len() as int)))
            } else {
                match args[0] {
                    Val::List(xs) => Result::Ok(count_of(xs)),
                    Val::Vector(xs) => Result::Ok(count_of(xs)),
                    Val::Nil => Result::Ok(Val::Integer(0)),
                    _ => Result::Err(
                        ErrV::FnError(
                            FnErrorV::Type(op, kind_of(args[0]), kind_of(args[0])),
                        ),
                    ),
                }
            },
        },
        Native::Not => NativeOut {
            out: Seq::empty(),
            res: if args.len() != 1 {
                Result::Err(ErrV::FnError(FnErrorV::Argument(1, args.len() as int)))
            } else {
                Result::Ok(Val::Bool(!truthy(args[0])))
            },
        },
        Native::StrFn => NativeOut {
            out: Seq::empty(),
            res: Result::Ok(Val::Str(str_join(args))),
        },
        Native::PrStr => NativeOut {
            out: Seq::empty(),
            res: Result::Ok(Val::Str(print_items(args, true))),
        },
        Native::Prn => NativeOut {
            out: seq![print_items(args, true)],
            res: Result::Ok(Val::Nil),
        },
        Native::Println => NativeOut {
            out: seq![print_items(args, false)],
            res: Result::Ok(Val::Nil),
        },
    }
}


/// Decides `mal_eq` at run time.
pub fn eq_exec(a: &Token, b: &Token) -> (r: bool)
    ensures
        r == mal_eq(a@, b@),
    decreases a, 1int,
{
    match a {
        Token::Nil => match b {
            Token::Nil => true,
            _ => false,
        },
        Token::Bool(x) => match b {
            Token::Bool(y) => x == y,
            _ => false,
        },
        Token::Integer(x) => match b {
            Token::Integer(y) => x == y,
            _ => false,
        },
        Token::Real(x) => match b {
            Token::Real(y) => chars_eq(x, y),
            _ => false,
        },
        Token::Str(x) => match b {
            Token::Str(y) => chars_eq(x, y),
            _ => false,
        },
        Token::Keyword(x) => match b {
            Token::Keyword(y) => chars_eq(x, y),
            _ => false,
        },
        Token::Symbol(x) => match b {
            Token::Symbol(y) => chars_eq(x, y),
            _ => false,
        },
        Token::List(xs) => match b {
            Token::List(ys) => eq_vec_items(xs, ys),
            Token::Vector(ys) => eq_vec_items(xs, ys),
            _ => false,
        },
        Token::Vector(xs) => match b {
            Token::List(ys) => eq_vec_items(xs, ys),
            Token::Vector(ys) => eq_vec_items(xs, ys),
            _ => false,
        },
        Token::Hashmap(xp) => match b {
            Token::Hashmap(yp) => eq_map_entries(xp, yp),
            _ => false,
        },
        Token::Func(f) => match f {
            crate::types::Func::Native(x) => match b {
                Token::Func(g) => match g {
                    crate::types::Func::Native(y) => *x == *y,
                    _ => false,
                },
                _ => false,
            },
            crate::types::Func::Closure(_) => false,
        },
    }
}

/// Decides elementwise sequence equality at run time.
fn eq_vec_items(xs: &Vec<Token>, ys: &Vec<Token>) -> (r: bool)
    ensures
        r == eq_items(tvs(xs@), tvs(ys@)),
    decreases xs, 0int,
{
    proof {
        lemma_tvs(xs@);
        lemma_tvs(ys@);
    }
    let ghost xv = tvs(xs@);
    let ghost yv = tvs(ys@);
    if xs.len() != ys.len() {
        return false;
    }
    let mut i: usize = 0;
    proof {
        assert(xv.skip(0) =~= xv);
        assert(yv.skip(0) =~= yv);
    }
    while i < xs.len()
        invariant
            i <= xs@.len(),
            xs@.len() == ys@.len(),
            xv == tvs(xs@),
            yv == tvs(ys@),
            xv.len() == xs@.len(),
            yv.len() == ys@.len(),
            forall|j: int| 0 <= j < xv.len() ==> (#[trigger] xv[j]) == tv(xs@[j]),
            forall|j: int| 0 <= j < yv.len() ==> (#[trigger] yv[j]) == tv(ys@[j]),
            eq_items(xv, yv) == eq_items(xv.skip(i as int), yv.skip(i as int)),
        decreases xs@.len() - i,
    {
        let ghost xr = xv.skip(i as int);
        let ghost yr = yv.skip(i as int);
        proof {
            assert(xr[0] == xv[i as int]);
            assert(yr[0] == yv[i as int]);
            assert(xr.drop_first() =~= xv.skip(i + 1));
            assert(yr.drop_first() =~= yv.skip(i + 1));
        }
        if !eq_exec(&xs[i], &ys[i]) {
            return false;
        }
        i = i + 1;
    }
    proof {
        assert(xv.skip(xs@.len() as int).len() == 0);
        assert(yv.skip(ys@.len() as int).len() == 0);
    }
    true
}

/// Decides map equality at run time.
fn eq_map_entries(xp: &Vec<(Token, Token)>, yp: &Vec<(Token, Token)>) -> (r: bool)
    ensures
        r == eq_maps(tv_pairs(xp@), tv_pairs(yp@)),
    decreases xp, 0int,
{
    proof {
        crate::types::lemma_tv_pairs(xp@);
        crate::types::lemma_tv_pairs(yp@);
    }
    let ghost xv = tv_pairs(xp@);
    let ghost yv = tv_pairs(yp@);
    if xp.len() != yp.len() {
        return false;
    }
    let mut j: usize = 0;
    proof {
        assert(xv.skip(0) =~= xv);
    }
    while j < xp.len()
        invariant
            j <= xp@.len(),
            xp@.len() == yp@.len(),
            xv == tv_pairs(xp@),
            yv == tv_pairs(yp@),
            xv.len() == xp@.len(),
            yv.len() == yp@.len(),
            forall|m: int| 0 <= m < xv.len() ==> (#[trigger] xv[m])
                == (tv(xp@[m].0), tv(xp@[m].1)),
            forall|m: int| 0 <= m < yv.len() ==> (#[trigger] yv[m])
                == (tv(yp@[m].0), tv(yp@[m].1)),
            map_subset(xv, yv) == map_subset(xv.skip(j as int), yv),
        decreases xp@.len() - j,
    {
        let ghost xr = xv.skip(j as int);
        let ghost k = xv[j as int].0;
        proof {
            assert(xr[0] == xv[j as int]);
            assert(xr.drop_first() =~= xv.skip(j + 1));
            lemma_find_val(yv, k);
        }
        // look for the key among the other map's entries
        let mut m: usize = 0;
        let mut found = false;
        while m < yp.len() && !found
            invariant
                m <= yp@.len(),
                j < xp@.len(),
                xv == tv_pairs(xp@),
                yv == tv_pairs(yp@),
                yv.len() == yp@.len(),
                k == xv[j as int].0,
                k == tv(xp@[j as int].0),
                forall|mm: int| 0 <= mm < yv.len() ==> (#[trigger] yv[mm])
                    == (tv(yp@[mm].0), tv(yp@[mm].1)),
                forall|mm: int| 0 <= mm < m ==> !mal_eq(k, (#[trigger] yv[mm]).0),
                found ==> m < yp@.len() && mal_eq(k, yv[m as int].0),
            decreases yp@.len() - m + (if found { 0int } else { 1int }),
        {
            if eq_exec(&xp[j].0, &yp[m].0) {
                found = true;
            } else {
                m = m + 1;
            }
        }
        if !found {
            proof {
                lemma_find_val(yv, k);
                assert(find_val(yv, k) == -1);
                assert(!map_subset(xr, yv));
            }
            return false;
        }
        proof {
            lemma_find_val(yv, k);
            assert(find_val(yv, k) == m);
        }
        if !eq_exec(&xp[j].1, &yp[m].1) {
            proof {
                assert(!map_subset(xr, yv));
            }
            return false;
        }
        j = j + 1;
    }
    proof {
        assert(xv.skip(xp@.len() as int).len() == 0);
    }
    true
}

/// A left fold of one arithmetic operation over the arguments; shared by
/// the four arithmetic natives.
pub fn int_operation(op: Native, ast: &Vec<Token>) -> (r: MalRes<Token>)
    requires
        op == Native::Add || op == Native::Sub || op == Native::Mul || op == Native::Div,
    ensures
        res_view(r) == arith_apply(op, tvs(ast@)),
{
    proof {
        lemma_tvs(ast@);
    }
    let ghost full = tvs(ast@);
    let l = ast.len();
    if l < 2 {
        return Result::Err(MalError::FnError(FnError::Argument(2, l)));
    }
    let mut acc: Token = ast[0].duplicate();
    let mut i: usize = 1;
    proof {
        assert(arith_apply(op, full) == arith_fold(op, acc@, full.skip(1)));
    }
    while i < ast.len()
        invariant
            op == Native::Add || op == Native::Sub || op == Native::Mul || op == Native::Div,
            1 <= i <= ast@.len(),
            ast@.len() >= 2,
            full == tvs(ast@),
            full.len() == ast@.len(),
            forall|j: int| 0 <= j < full.len() ==> (#[trigger] full[j]) == tv(ast@[j]),
            arith_apply(op, full) == arith_fold(op, acc@, full.skip(i as int)),
        decreases ast@.len() - i,
    {
        let ghost rest = full.skip(i as int);
        proof {
            assert(rest[0] == full[i as int]);
            assert(rest.drop_first() =~= full.skip(i + 1));
        }
        let (ax, a_ok): (i64, bool) = match &acc {
            Token::Integer(x) => (*x, true),
            _ => (0i64, false),
        };
        let (bx, b_ok): (i64, bool) = match &ast[i] {
            Token::Integer(y) => (*y, true),
            _ => (0i64, false),
        };
        if !(a_ok && b_ok) {
            let k1 = acc.token_type();
            let k2 = ast[i].token_type();
            return Result::Err(MalError::FnError(FnError::Type(op, k1, k2)));
        }
        match op {
            Native::Add => {
                acc = Token::Integer(ax.wrapping_add(bx));
            },
            Native::Sub => {
                acc = Token::Integer(ax.wrapping_sub(bx));
            },
            Native::Mul => {
                acc = Token::Integer(ax.wrapping_mul(bx));
            },
            _ => {
                if bx == 0 {
                    return Result::Err(MalError::FnError(FnError::ZeroDivision));
                }
                match ax.checked_div(bx) {
                    Option::Some(q) => {
                        acc = Token::Integer(q);
                    },
                    Option::None => {
                        acc = Token::Integer(i64::MIN);
                    },
                }
            },
        }
        i = i + 1;
    }
    proof {
        assert(full.skip(ast@.len() as int).len() == 0);
    }
    Result::Ok(acc)
}

/// Adds its operands left to right.
pub fn add(ast: &Vec<Token>) -> (r: MalRes<Token>)
    ensures
        res_view(r) == arith_apply(Native::Add, tvs(ast@)),
{
    int_operation(Native::Add, ast)
}

/// Subtracts its operands left to right.
pub fn sub(ast: &Vec<Token>) -> (r: MalRes<Token>)
    ensures
        res_view(r) == arith_apply(Native::Sub, tvs(ast@)),
{
    int_operation(Native::Sub, ast)
}

/// Multiplies its operands left to right.
pub fn mul(ast: &Vec<Token>) -> (r: MalRes<Token>)
    ensures
        res_view(r) == arith_apply(Native::Mul, tvs(ast@)),
{
    int_operation(Native::Mul, ast)
}

/// Divides its operands left to right; dividing by zero is a typed error.
pub fn div(ast: &Vec<Token>) -> (r: MalRes<Token>)
    ensures
        res_view(r) == arith_apply(Native::Div, tvs(ast@)),
{
    int_operation(Native::Div, ast)
}

/// The concatenated raw text of the values from index `from` on.
fn str_items(es: &Vec<Token>, from: usize) -> (r: Vec<char>)
    requires
        from <= es@.len(),
    ensures
        r@ == str_join(tvs(es@).skip(from as int)),
    decreases es@.len() - from,
{
    proof {
        lemma_tvs(es@);
    }
    if from == es.len() {
        let r: Vec<char> = Vec::new();
        proof {
            assert(tvs(es@).skip(from as int).len() == 0);
        }
        r
    } else {
        let ghost rest = tvs(es@).skip(from as int);
        proof {
            assert(rest[0] == tv(es@[from as int]));
            assert(rest.drop_first() =~= tvs(es@).skip(from + 1));
        }
        let mut out = pr_chars(&es[from], false);
        let mut tail = str_items(es, from + 1);
        out.append(&mut tail);
        out
    }
}

/// Applies a native function to evaluated arguments, appending any lines
/// it prints to `out`.
pub fn apply_native(op: Native, args: &Vec<Token>, out: &mut Vec<Vec<char>>) -> (r: MalRes<Token>)
    ensures
        crate::types::names_view(final(out)@) == crate::types::names_view(old(out)@)
            + native_apply(op, tvs(args@)).out,
        res_view(r) == native_apply(op, tvs(args@)).res,
{
    proof {
        lemma_tvs(args@);
    }
    let ghost no = native_apply(op, tvs(args@));
    let r: MalRes<Token> = match op {
        Native::Add => int_operation(op, args),
        Native::Sub => int_operation(op, args),
        Native::Mul => int_operation(op, args),
        Native::Div => int_operation(op, args),
        Native::EqVal => {
            if args.len() != 2 {
                Result::Err(MalError::FnError(FnError::Argument(2, args.len())))
            } else {
                Result::Ok(Token::Bool(eq_exec(&args[0], &args[1])))
            }
        },
        Native::Gt | Native::Ge | Native::Lt | Native::Le => {
            if args.len() != 2 {
                Result::Err(MalError::FnError(FnError::Argument(2, args.len())))
            } else {
                let (ax, a_ok): (i64, bool) = match &args[0] {
                    Token::Integer(x) => (*x, true),
                    _ => (0i64, false),
                };
                let (bx, b_ok): (i64, bool) = match &args[1] {
                    Token::Integer(y) => (*y, true),
                    _ => (0i64, false),
                };
                if a_ok && b_ok {
                    let c = match op {
                        Native::Gt => ax > bx,
                        Native::Ge => ax >= bx,
                        Native::Lt => ax < bx,
                        _ => ax <= bx,
                    };
                    Result::Ok(Token::Bool(c))
                } else {
                    let k1 = args[0].token_type();
                    let k2 = args[1].token_type();
                    Result::Err(MalError::FnError(FnError::Type(op, k1, k2)))
                }
            }
        },
        Native::MakeList => {
            let copied = crate::types::duplicate_vec(args);
            Result::Ok(Token::List(copied))
        },
        Native::IsList => {
            if args.len() != 1 {
                Result::Err(MalError::FnError(FnError::Argument(1, args.len())))
            } else {
                let is_l = match &args[0] {
                    Token::List(_) => true,
                    _ => false,
                };
                Result::Ok(Token::Bool(is_l))
            }
        },
        Native::IsEmpty => {
            if args.len() != 1 {
                Result::Err(MalError::FnError(FnError::Argument(1, args.len())))
            } else {
                match &args[0] {
                    Token::List(xs) => {
                        proof {
                            lemma_tvs(xs@);
                        }
                        Result::Ok(Token::Bool(xs.len() == 0))
                    },
                    Token::Vector(xs) => {
                        proof {
                            lemma_tvs(xs@);
                        }
                        Result::Ok(Token::Bool(xs.len() == 0))
                    },
                    _ => {
                        let k = args[0].token_type();
                        Result::Err(MalError::FnError(FnError::Type(op, k, k)))
                    },
                }
            }
        },
        Native::Count => {
            if args.len() != 1 {
                Result::Err(MalError::FnError(FnError::Argument(1, args.len())))
            } else {
                match &args[0] {
                    Token::List(xs) => Result::Ok(Token::Integer(count_exec(xs))),
                    Token::Vector(xs) => Result::Ok(Token::Integer(count_exec(xs))),
                    Token::Nil => Result::Ok(Token::Integer(0)),
                    _ => {
                        let k = args[0].token_type();
                        Result::Err(MalError::FnError(FnError::Type(op, k, k)))
                    },
                }
            }
        },
        Native::Not => {
            if args.len() != 1 {
                Result::Err(MalError::FnError(FnError::Argument(1, args.len())))
            } else {
                let t = match &args[0] {
                    Token::Nil => false,
                    Token::Bool(x) => *x,
                    _ => true,
                };
                Result::Ok(Token::Bool(!t))
            }
        },
        Native::StrFn => {
            let text = str_items(args, 0);
            proof {
                assert(tvs(args@).skip(0) =~= tvs(args@));
            }
            Result::Ok(Token::Str(text))
        },
        Native::PrStr => {
            let text = crate::printer::pr_items(args, 0, true);
            proof {
                assert(tvs(args@).skip(0) =~= tvs(args@));
            }
            Result::Ok(Token::Str(text))
        },
        Native::Prn => {
            let line = crate::printer::pr_items(args, 0, true);
            proof {
                assert(tvs(args@).skip(0) =~= tvs(args@));
            }
            out.push(line);
            Result::Ok(Token::Nil)
        },
        Native::Println => {
            let line = crate::printer::pr_items(args, 0, false);
            proof {
                assert(tvs(args@).skip(0) =~= tvs(args@));
            }
            out.push(line);
            Result::Ok(Token::Nil)
        },
    };
    proof {
        assert(crate::types::names_view(out@) =~= crate::types::names_view(old(out)@) + no.out);
    }
    r
}

/// The element count, saturated into the integer range.
fn count_exec(xs: &Vec<Token>) -> (r: i64)
    ensures
        Val::Integer(r) == count_of(tvs(xs@)),
{
    proof {
        lemma_tvs(xs@);
    }
    let n = xs.len();
    if (n as u64) <= 9223372036854775807u64 {
        n as i64
    } else {
        i64::MAX
    }
}

} // verus!
