//! Pairs the lines of a scripted session into test cases.
//!
//! A line of the form `;=>expected` names the expected rendering of the
//! line before it; every such pair becomes one [`Test`].  Reading the
//! lines from disk is the caller's business — this is only the pairing
//! rule.

use vstd::prelude::*;

use crate::text::chars_string;
use crate::text::str_chars;

verus! {

/// One scripted case: an input line and its expected rendering.
pub struct Test {
    pub input: String,
    pub output: String,
}

/// A line of the form `;=>expected`.
pub open spec fn is_expect(l: Seq<char>) -> bool {
    l.len() >= 3 && l[0] == ';' && l[1] == '=' && l[2] == '>'
}

/// The (input, expected) pairs among the lines from index `i` on.  An
/// expectation line pairs with the line just before it; one with no line
/// before it pairs with nothing.
pub open spec fn tests_from(ls: Seq<Seq<char>>, i: int) -> Seq<(Seq<char>, Seq<char>)>
    decreases ls.len() - i,
{
    if i < 0 || i >= ls.len() {
        Seq::empty()
    } else if i >= 1 && is_expect(ls[i]) {
        seq![(ls[i - 1], ls[i].skip(3))] + tests_from(ls, i + 1)
    } else {
        tests_from(ls, i + 1)
    }
}

/// Extracts the test cases from the lines of a scripted session.
pub fn test_builder(lines: &Vec<String>) -> (r: Vec<Test>)
    ensures
        ({
            let ts = tests_from(crate::repl::strings_view(lines@), 0);
            r@.len() == ts.len() && (forall|j: int|
                0 <= j < ts.len() ==> (#[trigger] r@[j]).input@ == ts[j].0 && r@[j].output@
                    == ts[j].1)
        }),
{
    let ghost ls = crate::repl::strings_view(lines@);
    let mut out: Vec<Test> = Vec::new();
    let mut i: usize = 0;
    let ghost full = tests_from(ls, 0);
    proof {
        assert(ls.len() == lines@.len());
    }
    while i < lines.len()
        invariant
            i <= lines@.len(),
            ls == crate::repl::strings_view(lines@),
            ls.len() == lines@.len(),
            forall|j: int| 0 <= j < ls.len() ==> (#[trigger] ls[j]) == lines@[j]@,
            full == tests_from(ls, 0),
            full == tests_from_built(out@) + tests_from(ls, i as int),
            tests_from_built(out@).len() == out@.len(),
            forall|j: int| 0 <= j < out@.len() ==> tests_from_built(out@)[j] == ((
            #[trigger] out@[j]).input@, out@[j].output@),
        decreases lines@.len() - i,
    {
        let cs = str_chars(lines[i].as_str());
        let is_exp = cs.len() >= 3 && cs[0] == ';' && cs[1] == '=' && cs[2] == '>';
        if is_exp && i >= 1 {
            let input = lines[i - 1].clone();
            let n = cs.len();
            let rest = crate::reader::copy_range(&cs, 3, n);
            let output = chars_string(&rest);
            let ghost before = tests_from_built(out@);
            proof {
                assert(input@ == lines@[i - 1]@);
            }
            out.push(Test { input, output });
            proof {
                assert(tests_from_built(out@) =~= before.push((ls[i - 1], ls[i as int].skip(3))));
            }
        } else {
            proof {
                assert(!(i >= 1 && is_expect(ls[i as int])));
            }
        }
        i = i + 1;
    }
    proof {
        assert(tests_from(ls, ls.len() as int) =~= Seq::<(Seq<char>, Seq<char>)>::empty());
        assert(full =~= tests_from_built(out@));
    }
    out
}

/// The pairs a built test list stands for.
pub open spec fn tests_from_built(ts: Seq<Test>) -> Seq<(Seq<char>, Seq<char>)> {
    Seq::new(ts.len(), |j: int| (ts[j].input@, ts[j].output@))
}

} // verus!
