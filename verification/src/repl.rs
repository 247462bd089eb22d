//! The read–evaluate–print pipeline.
//!
//! `rep` reads one form, evaluates it against the root scope, and renders
//! the result; lines printed during evaluation are handed back to the
//! caller, and every error is a typed value, so one bad form never ends a
//! session.  `read_print` is the read-and-echo pipeline with the identity
//! evaluation step.

use vstd::prelude::*;

use crate::env::Env;
use crate::env::NodeV;
use crate::eval::eval;
use crate::eval::eval_s;
use crate::printer::pr_str;
use crate::printer::print_v;
use crate::reader::read_spec;
use crate::reader::read_str;
use crate::text::chars_string;
use crate::types::names_view;
use crate::types::ErrV;
use crate::types::MalRes;
use crate::types::Val;

verus! {

/// The evaluation budget `rep` hands to the evaluator: the explicit bound
/// on nesting depth, the evaluator's one resource limit.
pub const EVAL_FUEL: u64 = 1024;

/// The view of a list of host strings.
pub open spec fn strings_view(ss: Seq<String>) -> Seq<Seq<char>> {
    Seq::new(ss.len(), |i: int| ss[i]@)
}

/// What one read–evaluate–print cycle yields: the new arena, the lines
/// printed during evaluation, and the rendered result or typed error.
#[verifier::ext_equal]
pub struct RepOut {
    pub env: Seq<NodeV>,
    pub out: Seq<Seq<char>>,
    pub res: Result<Seq<char>, ErrV>,
}

/// One read–evaluate–print cycle against the root scope.
pub open spec fn rep_spec(line: Seq<char>, envs: Seq<NodeV>) -> RepOut {
    match read_spec(line) {
        Result::Err(e) => RepOut { env: envs, out: Seq::empty(), res: Result::Err(e) },
        Result::Ok(v) => {
            let eo = eval_s(envs, 0, Seq::empty(), v, EVAL_FUEL as nat);
            match eo.res {
                Result::Ok(r) => RepOut {
                    env: eo.env,
                    out: eo.out,
                    res: Result::Ok(print_v(r, true)),
                },
                Result::Err(e) => RepOut { env: eo.env, out: eo.out, res: Result::Err(e) },
            }
        },
    }
}

/// Reads one form, evaluates it against the root scope, and renders the
/// result readably; lines printed during evaluation are appended to `out`.
pub fn rep(line: &str, env: &mut Env, out: &mut Vec<String>) -> (r: MalRes<String>)
    requires
        0 < old(env)@.len(),
    ensures
        ({
            let ro = rep_spec(line@, old(env)@);
            final(env)@ == ro.env && strings_view(final(out)@) == strings_view(old(out)@) + ro.out
                && (match r {
                Result::Ok(s) => ro.res == Result::<Seq<char>, ErrV>::Ok(s@),
                Result::Err(e) => ro.res == Result::<Seq<char>, ErrV>::Err(e@),
            })
        }),
{
    match read_str(line) {
        Result::Err(e) => {
            proof {
                assert(strings_view(out@) =~= strings_view(old(out)@) + Seq::<Seq<char>>::empty());
            }
            Result::Err(e)
        },
        Result::Ok(ast) => {
            let mut lines: Vec<Vec<char>> = Vec::new();
            proof {
                assert(names_view(lines@) =~= Seq::<Seq<char>>::empty());
            }
            let r = eval(&ast, env, 0, &mut lines, EVAL_FUEL);
            let mut i: usize = 0;
            while i < lines.len()
                invariant
                    i <= lines@.len(),
                    strings_view(out@) == strings_view(old(out)@) + names_view(lines@).take(
                        i as int,
                    ),
                decreases lines@.len() - i,
            {
                let line_s = chars_string(&lines[i]);
                out.push(line_s);
                proof {
                    assert(names_view(lines@).take(i + 1) =~= names_view(lines@).take(
                        i as int,
                    ).push(lines@[i as int]@));
                    assert(strings_view(out@) =~= (strings_view(old(out)@) + names_view(
                        lines@,
                    ).take(i as int)).push(lines@[i as int]@));
                    assert(strings_view(out@) =~= strings_view(old(out)@)
                        + names_view(lines@).take(i + 1));
                }
                i = i + 1;
            }
            proof {
                assert(names_view(lines@).take(lines@.len() as int) =~= names_view(lines@));
            }
            match r {
                Result::Ok(v) => Result::Ok(pr_str(&v, true)),
                Result::Err(e) => Result::Err(e),
            }
        },
    }
}

/// Reads one form and renders it back readably, with the identity
/// evaluation step in between.
pub fn read_print(line: &str) -> (r: MalRes<String>)
    ensures
        match r {
            Result::Ok(s) => read_spec(line@) matches Result::Ok(v) && s@ == print_v(v, true),
            Result::Err(e) => read_spec(line@) == Result::<Val, ErrV>::Err(e@),
        },
{
    match read_str(line) {
        Result::Ok(v) => Result::Ok(pr_str(&v, true)),
        Result::Err(e) => Result::Err(e),
    }
}

} // verus!
