//! Serializes a value back to text.
//!
//! Structural values render with their bracket pair and single-space-joined
//! elements; strings render escaped (readable mode) or raw; keywords render
//! with their leading colon; functions render as an opaque placeholder.  The
//! spec functions here are the printing relation itself, and the executable
//! printer is proved to produce exactly that text.

use vstd::prelude::*;

use crate::text::chars_string;
use crate::types::clone_chars;
use crate::types::tv;
use crate::types::tvs;
use crate::types::tv_pairs;
use crate::types::lemma_tvs;
use crate::types::lemma_tv_pairs;
use crate::types::Func;
use crate::types::Token;
use crate::types::Val;

verus! {

/// How one character of a string is escaped in readable mode.
pub open spec fn esc_char(c: char) -> Seq<char> {
    if c == '"' {
        seq!['\\', '"']
    } else if c == '\n' {
        seq!['\\', 'n']
    } else if c == '\\' {
        seq!['\\', '\\']
    } else {
        seq![c]
    }
}

/// The readable-mode escaping of a whole string.
pub open spec fn escape_seq(s: Seq<char>) -> Seq<char>
    decreases s,
{
    if s.len() == 0 {
        Seq::empty()
    } else {
        esc_char(s[0]) + escape_seq(s.drop_first())
    }
}

/// Escaping distributes over concatenation.
pub proof fn lemma_escape_concat(a: Seq<char>, b: Seq<char>)
    ensures
        escape_seq(a + b) == escape_seq(a) + escape_seq(b),
    decreases a,
{
    if a.len() == 0 {
        assert(a + b =~= b);
        assert(escape_seq(a) + escape_seq(b) =~= escape_seq(b));
    } else {
        lemma_escape_concat(a.drop_first(), b);
        assert((a + b).drop_first() =~= a.drop_first() + b);
        assert(escape_seq(a) + escape_seq(b) =~=
            esc_char(a[0]) + (escape_seq(a.drop_first()) + escape_seq(b)));
    }
}

/// The decimal digit character for `d`.
pub open spec fn digit_char(d: int) -> char {
    if d == 0 { '0' }
    else if d == 1 { '1' }
    else if d == 2 { '2' }
    else if d == 3 { '3' }
    else if d == 4 { '4' }
    else if d == 5 { '5' }
    else if d == 6 { '6' }
    else if d == 7 { '7' }
    else if d == 8 { '8' }
    else { '9' }
}

/// The decimal digits of a non-negative integer, most significant first.
pub open spec fn dec_digits(n: int) -> Seq<char>
    recommends
        n >= 0,
    decreases n,
{
    if n < 10 {
        seq![digit_char(n)]
    } else {
        dec_digits(n / 10).push(digit_char(n % 10))
    }
}

/// The decimal rendering of an integer, with a leading minus when negative.
pub open spec fn int_str(n: int) -> Seq<char> {
    if n < 0 {
        seq!['-'] + dec_digits(-n)
    } else {
        dec_digits(n)
    }
}

/// The opaque rendering of a function value.
pub open spec fn function_text() -> Seq<char> {
    seq!['F', 'u', 'n', 'c', 't', 'i', 'o', 'n', ' ', 'C', 'a', 'l', 'l']
}

/// The text a value prints as.  `readable` selects escaped strings.
pub open spec fn print_v(v: Val, readable: bool) -> Seq<char>
    decreases v, 1int, 0int,
{
    match v {
        Val::Nil => seq!['n', 'i', 'l'],
        Val::Bool(b) => if b {
            seq!['t', 'r', 'u', 'e']
        } else {
            seq!['f', 'a', 'l', 's', 'e']
        },
        Val::Integer(n) => int_str(n as int),
        Val::Real(s) => s,
        Val::Str(s) => if readable {
            seq!['"'] + escape_seq(s) + seq!['"']
        } else {
            s
        },
        Val::Keyword(s) => seq![':'] + s,
        Val::Symbol(s) => s,
        Val::List(es) => seq!['('] + print_items(es, readable) + seq![')'],
        Val::Vector(es) => seq!['['] + print_items(es, readable) + seq![']'],
        Val::Hashmap(ps) => seq!['{'] + print_pairs(ps, readable) + seq!['}'],
        Val::Native(_) => function_text(),
        Val::Closure { .. } => function_text(),
    }
}

/// The space-joined text of a sequence of values.
pub open spec fn print_items(es: Seq<Val>, readable: bool) -> Seq<char>
    decreases es, 0int, 0int,
{
    if es.len() == 0 {
        Seq::empty()
    } else if es.len() == 1 {
        print_v(es[0], readable)
    } else {
        print_v(es[0], readable) + seq![' '] + print_items(es.drop_first(), readable)
    }
}

/// The space-joined text of a sequence of map entries, key before value.
pub open spec fn print_pairs(ps: Seq<(Val, Val)>, readable: bool) -> Seq<char>
    decreases ps, 0int, 0int,
{
    if ps.len() == 0 {
        Seq::empty()
    } else if ps.len() == 1 {
        print_v(ps[0].0, readable) + seq![' '] + print_v(ps[0].1, readable)
    } else {
        print_v(ps[0].0, readable) + seq![' '] + print_v(ps[0].1, readable) + seq![' ']
            + print_pairs(ps.drop_first(), readable)
    }
}

/// The escaped form of a string's characters.
pub fn escape_string(s: &Vec<char>) -> (r: Vec<char>)
    ensures
        r@ == escape_seq(s@),
{
    let mut out: Vec<char> = Vec::new();
    let mut i: usize = 0;
    while i < s.len()
        invariant
            i <= s@.len(),
            out@ == escape_seq(s@.subrange(0, i as int)),
        decreases s@.len() - i,
    {
        let c = s[i];
        if c == '"' {
            out.push('\\');
            out.push('"');
        } else if c == '\n' {
            out.push('\\');
            out.push('n');
        } else if c == '\\' {
            out.push('\\');
            out.push('\\');
        } else {
            out.push(c);
        }
        proof {
            lemma_escape_concat(s@.subrange(0, i as int), seq![s@[i as int]]);
            assert(s@.subrange(0, i + 1) =~= s@.subrange(0, i as int) + seq![s@[i as int]]);
            assert(seq![s@[i as int]].drop_first() =~= Seq::<char>::empty());
            assert(escape_seq(Seq::<char>::empty()) =~= Seq::<char>::empty());
            assert(escape_seq(seq![s@[i as int]]) =~= esc_char(s@[i as int]));
            assert(out@ =~= escape_seq(s@.subrange(0, i + 1)));
        }
        i = i + 1;
    }
    proof {
        assert(s@.subrange(0, s@.len() as int) =~= s@);
    }
    out
}

/// The decimal digit character for `d`.
fn digit_exec(d: u64) -> (c: char)
    requires
        d < 10,
    ensures
        c == digit_char(d as int),
{
    if d == 0 { '0' }
    else if d == 1 { '1' }
    else if d == 2 { '2' }
    else if d == 3 { '3' }
    else if d == 4 { '4' }
    else if d == 5 { '5' }
    else if d == 6 { '6' }
    else if d == 7 { '7' }
    else if d == 8 { '8' }
    else { '9' }
}

/// Appends the decimal digits of `m`, most significant first.
fn push_digits(out: &mut Vec<char>, m: u64)
    ensures
        final(out)@ == old(out)@ + dec_digits(m as int),
    decreases m,
{
    if m < 10 {
        out.push(digit_exec(m));
        proof {
            assert(out@ =~= old(out)@ + dec_digits(m as int));
        }
    } else {
        push_digits(out, m / 10);
        out.push(digit_exec(m % 10));
        proof {
            assert(out@ =~= old(out)@ + dec_digits(m as int));
        }
    }
}

/// The decimal rendering of an integer.
pub fn int_chars(n: i64) -> (r: Vec<char>)
    ensures
        r@ == int_str(n as int),
{
    let mut out: Vec<char> = Vec::new();
    if n >= 0 {
        push_digits(&mut out, n as u64);
    } else {
        let mag: u64 = if n == i64::MIN {
            9223372036854775808u64
        } else {
            (-n) as u64
        };
        proof {
            assert(mag as int == -(n as int));
        }
        out.push('-');
        push_digits(&mut out, mag);
        proof {
            assert(out@ =~= seq!['-'] + dec_digits(mag as int));
        }
    }
    out
}

/// The printed text of a value, as characters.
pub fn pr_chars(t: &Token, readable: bool) -> (r: Vec<char>)
    ensures
        r@ == print_v(t@, readable),
    decreases t, 1int, 0int,
{
    match t {
        Token::Nil => {
            let r = vec!['n', 'i', 'l'];
            proof {
                assert(r@ =~= print_v(t@, readable));
            }
            r
        },
        Token::Bool(b) => {
            let r = if *b {
                vec!['t', 'r', 'u', 'e']
            } else {
                vec!['f', 'a', 'l', 's', 'e']
            };
            proof {
                assert(r@ =~= print_v(t@, readable));
            }
            r
        },
        Token::Integer(n) => int_chars(*n),
        Token::Real(s) => clone_chars(s),
        Token::Str(s) => {
            if readable {
                let mut out: Vec<char> = Vec::new();
                out.push('"');
                let mut esc = escape_string(s);
                out.append(&mut esc);
                out.push('"');
                proof {
                    assert(out@ =~= seq!['"'] + escape_seq(s@) + seq!['"']);
                }
                out
            } else {
                clone_chars(s)
            }
        },
        Token::Keyword(s) => {
            let mut out: Vec<char> = Vec::new();
            out.push(':');
            let mut rest = clone_chars(s);
            out.append(&mut rest);
            proof {
                assert(out@ =~= seq![':'] + s@);
            }
            out
        },
        Token::Symbol(s) => clone_chars(s),
        Token::List(es) => {
            let mut out: Vec<char> = Vec::new();
            out.push('(');
            let mut inner = pr_items(es, 0, readable);
            out.append(&mut inner);
            out.push(')');
            proof {
                assert(tvs(es@).skip(0) =~= tvs(es@));
                assert(out@ =~= seq!['('] + print_items(tvs(es@), readable) + seq![')']);
            }
            out
        },
        Token::Vector(es) => {
            let mut out: Vec<char> = Vec::new();
            out.push('[');
            let mut inner = pr_items(es, 0, readable);
            out.append(&mut inner);
            out.push(']');
            proof {
                assert(tvs(es@).skip(0) =~= tvs(es@));
                assert(out@ =~= seq!['['] + print_items(tvs(es@), readable) + seq![']']);
            }
            out
        },
        Token::Hashmap(ps) => {
            let mut out: Vec<char> = Vec::new();
            out.push('{');
            let mut inner = pr_pairs(ps, 0, readable);
            out.append(&mut inner);
            out.push('}');
            proof {
                assert(tv_pairs(ps@).skip(0) =~= tv_pairs(ps@));
                assert(out@ =~= seq!['{'] + print_pairs(tv_pairs(ps@), readable) + seq!['}']);
            }
            out
        },
        Token::Func(_) => {
            let r = vec!['F', 'u', 'n', 'c', 't', 'i', 'o', 'n', ' ', 'C', 'a', 'l', 'l'];
            proof {
                assert(r@ =~= function_text());
            }
            r
        },
    }
}

/// The space-joined printed text of the values from index `from` on.
pub fn pr_items(es: &Vec<Token>, from: usize, readable: bool) -> (r: Vec<char>)
    requires
        from <= es@.len(),
    ensures
        r@ == print_items(tvs(es@).skip(from as int), readable),
    decreases es, 0int, es@.len() - from,
{
    proof {
        lemma_tvs(es@);
    }
    if from == es.len() {
        let r: Vec<char> = Vec::new();
        proof {
            assert(tvs(es@).skip(from as int).len() == 0);
        }
        r
    } else {
        let mut out = pr_chars(&es[from], readable);
        let ghost rest = tvs(es@).skip(from as int);
        proof {
            assert(rest[0] == tv(es@[from as int]));
        }
        if from + 1 == es.len() {
            proof {
                assert(rest.len() == 1);
            }
            out
        } else {
            out.push(' ');
            let mut tail = pr_items(es, from + 1, readable);
            out.append(&mut tail);
            proof {
                assert(rest.drop_first() =~= tvs(es@).skip(from + 1));
                assert(rest.len() > 1);
                assert(out@ =~= print_v(rest[0], readable) + seq![' ']
                    + print_items(rest.drop_first(), readable));
            }
            out
        }
    }
}

/// The space-joined printed text of the map entries from index `from` on.
pub fn pr_pairs(ps: &Vec<(Token, Token)>, from: usize, readable: bool) -> (r: Vec<char>)
    requires
        from <= ps@.len(),
    ensures
        r@ == print_pairs(tv_pairs(ps@).skip(from as int), readable),
    decreases ps, 0int, ps@.len() - from,
{
    proof {
        lemma_tv_pairs(ps@);
    }
    if from == ps.len() {
        let r: Vec<char> = Vec::new();
        proof {
            assert(tv_pairs(ps@).skip(from as int).len() == 0);
        }
        r
    } else {
        let mut out = pr_chars(&ps[from].0, readable);
        out.push(' ');
        let mut valtext = pr_chars(&ps[from].1, readable);
        out.append(&mut valtext);
        let ghost rest = tv_pairs(ps@).skip(from as int);
        proof {
            assert(rest[0] == (tv(ps@[from as int].0), tv(ps@[from as int].1)));
        }
        if from + 1 == ps.len() {
            proof {
                assert(rest.len() == 1);
                assert(out@ =~= print_v(rest[0].0, readable) + seq![' ']
                    + print_v(rest[0].1, readable));
            }
            out
        } else {
            out.push(' ');
            let mut tail = pr_pairs(ps, from + 1, readable);
            out.append(&mut tail);
            proof {
                assert(rest.drop_first() =~= tv_pairs(ps@).skip(from + 1));
                assert(rest.len() > 1);
                assert(out@ =~= print_v(rest[0].0, readable) + seq![' ']
                    + print_v(rest[0].1, readable) + seq![' ']
                    + print_pairs(rest.drop_first(), readable));
            }
            out
        }
    }
}

/// Serializes a value to text; `escaped` selects readable mode.
pub fn pr_str(token: &Token, escaped: bool) -> (r: String)
    ensures
        r@ == print_v(token@, escaped),
{
    let chars = pr_chars(token, escaped);
    chars_string(&chars)
}

/// Serializes a value to text, consuming it; `escape` selects readable mode.
pub fn print(token: Token, escape: bool) -> (r: String)
    ensures
        r@ == print_v(token@, escape),
{
    pr_str(&token, escape)
}

} // verus!
