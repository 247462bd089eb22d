//! The reader/printer round trip.
//!
//! `printable` describes the values the reader can produce: no functions,
//! symbol and keyword names made of ordinary run characters, numerals in
//! their numeral shape, and maps with distinct string-or-keyword keys.
//! The law proved here: printing such a value readably and reading the
//! text back yields the value again.  Since one reading pass always yields
//! such a value's canonical text, re-reading a canonical text is
//! idempotent.

use vstd::prelude::*;

use crate::printer::dec_digits;
use crate::printer::digit_char;
use crate::printer::esc_char;
use crate::printer::escape_seq;
use crate::printer::int_str;
use crate::printer::print_items;
use crate::printer::print_pairs;
use crate::printer::print_v;
use crate::reader::atom_val;
use crate::reader::build_pairs;
use crate::reader::clamp_progress;
use crate::reader::closer_for;
use crate::reader::collection_val;
use crate::reader::comment_end;
use crate::reader::digit_val;
use crate::reader::digits_val;
use crate::reader::ends_run;
use crate::reader::false_tok;
use crate::reader::int_body;
use crate::reader::int_tok_val;
use crate::reader::is_digit;
use crate::reader::is_float_tok;
use crate::reader::is_int_tok;
use crate::reader::is_map_key;
use crate::reader::is_string_tok;
use crate::reader::is_structural;
use crate::reader::is_ws;
use crate::reader::lemma_run_end_bounds;
use crate::reader::map_put;
use crate::reader::nil_tok;
use crate::reader::read_spec;
use crate::reader::run_end;
use crate::reader::shorter;
use crate::reader::sp_form;
use crate::reader::sp_seq;
use crate::reader::str_closed;
use crate::reader::str_scan;
use crate::reader::tokenize_spec;
use crate::reader::true_tok;
use crate::reader::unescape_seq;
use crate::reader::vkey_idx;
use crate::reader::lemma_vkey_idx;
use crate::reader::PRes;
use crate::reader::SRes;
use crate::types::ErrV;
use crate::types::Val;

verus! {

/// A name made only of ordinary run characters.
pub open spec fn plain_run(s: Seq<char>) -> bool {
    forall|i: int| 0 <= i < s.len() ==> !ends_run(#[trigger] s[i])
}

/// A value the reader can produce: no function values anywhere, names in
/// their token shape, numerals in their numeral shape, and map keys
/// distinct strings or keywords.
pub open spec fn printable(v: Val) -> bool
    decreases v, 1int,
{
    match v {
        Val::Nil => true,
        Val::Bool(_) => true,
        Val::Integer(_) => true,
        Val::Real(s) => is_float_tok(s),
        Val::Str(_) => true,
        Val::Keyword(name) => plain_run(name),
        Val::Symbol(name) => name.len() >= 1 && plain_run(name) && !is_structural(name[0])
            && name[0] != ';' && name[0] != ':' && name != nil_tok() && name != true_tok()
            && name != false_tok() && !is_int_tok(name) && !is_float_tok(name),
        Val::List(es) => printable_items(es),
        Val::Vector(es) => printable_items(es),
        Val::Hashmap(ps) => printable_pairs(ps) && (forall|i: int, j: int|
            0 <= i < j < ps.len() ==> (#[trigger] ps[i]).0 != (#[trigger] ps[j]).0),
        Val::Native(_) => false,
        Val::Closure { .. } => false,
    }
}

/// Every element is printable.
pub open spec fn printable_items(es: Seq<Val>) -> bool
    decreases es, 0int,
{
    if es.len() == 0 {
        true
    } else {
        printable(es[0]) && printable_items(es.drop_first())
    }
}

/// Every entry has a printable string-or-keyword key and printable value.
pub open spec fn printable_pairs(ps: Seq<(Val, Val)>) -> bool
    decreases ps, 0int,
{
    if ps.len() == 0 {
        true
    } else {
        is_map_key(ps[0].0) && printable(ps[0].0) && printable(ps[0].1)
            && printable_pairs(ps.drop_first())
    }
}

/// The token texts a printable value prints as.
pub open spec fn toks_of(v: Val) -> Seq<Seq<char>>
    decreases v, 1int,
{
    match v {
        Val::List(es) => seq![seq!['(']] + toks_of_items(es) + seq![seq![')']],
        Val::Vector(es) => seq![seq!['[']] + toks_of_items(es) + seq![seq![']']],
        Val::Hashmap(ps) => seq![seq!['{']] + toks_of_pairs(ps) + seq![seq!['}']],
        _ => seq![print_v(v, true)],
    }
}

/// The concatenated tokens of a sequence of values.
pub open spec fn toks_of_items(es: Seq<Val>) -> Seq<Seq<char>>
    decreases es, 0int,
{
    if es.len() == 0 {
        Seq::empty()
    } else {
        toks_of(es[0]) + toks_of_items(es.drop_first())
    }
}

/// The concatenated tokens of a sequence of map entries, key then value.
pub open spec fn toks_of_pairs(ps: Seq<(Val, Val)>) -> Seq<Seq<char>>
    decreases ps, 0int,
{
    if ps.len() == 0 {
        Seq::empty()
    } else {
        toks_of(ps[0].0) + toks_of(ps[0].1) + toks_of_pairs(ps.drop_first())
    }
}

/// The values of map entries laid out flat, key then value.
pub open spec fn flatten_pairs(ps: Seq<(Val, Val)>) -> Seq<Val>
    decreases ps,
{
    if ps.len() == 0 {
        Seq::empty()
    } else {
        seq![ps[0].0, ps[0].1] + flatten_pairs(ps.drop_first())
    }
}

/// A decimal digit is an ordinary run character and nothing special.
pub proof fn lemma_digit_plain(c: char)
    requires
        is_digit(c),
    ensures
        !ends_run(c),
        !is_structural(c),
        c != ';',
        c != '"',
        c != '.',
        c != '-',
{
}

/// The digits of a non-negative integer are decimal digits.
pub proof fn lemma_dec_digits_are_digits(n: int)
    requires
        n >= 0,
    ensures
        dec_digits(n).len() >= 1,
        forall|i: int| 0 <= i < dec_digits(n).len() ==> is_digit(#[trigger] dec_digits(n)[i]),
    decreases n,
{
    if n >= 10 {
        lemma_dec_digits_are_digits(n / 10);
        let d = dec_digits(n / 10);
        assert forall|i: int|
            0 <= i < dec_digits(n).len() implies is_digit(#[trigger] dec_digits(n)[i]) by {
            if i < d.len() {
                assert(dec_digits(n)[i] == d[i]);
            }
        }
    }
}

/// Reading back the digits of a non-negative integer yields it again.
pub proof fn lemma_digits_round_trip(n: int)
    requires
        n >= 0,
    ensures
        digits_val(dec_digits(n)) == n,
    decreases n,
{
    if n < 10 {
        assert(dec_digits(n) =~= seq![digit_char(n)]);
        assert(digits_val(seq![digit_char(n)]) == digit_val(digit_char(n))) by {
            assert(seq![digit_char(n)].drop_last() =~= Seq::<char>::empty());
            assert(digits_val(Seq::<char>::empty()) == 0);
            assert(seq![digit_char(n)].last() == digit_char(n));
        }
    } else {
        lemma_digits_round_trip(n / 10);
        let d = dec_digits(n / 10);
        assert(d.push(digit_char(n % 10)).drop_last() =~= d);
        assert(digits_val(d.push(digit_char(n % 10))) == digits_val(d) * 10 + digit_val(
            digit_char(n % 10),
        ));
    }
}

/// `run_end` is pinned by its characterization.
pub proof fn lemma_run_end_value(s: Seq<char>, i: int, r: int)
    requires
        0 <= i <= r <= s.len(),
        forall|j: int| i <= j < r ==> !ends_run(#[trigger] s[j]),
        r < s.len() ==> ends_run(s[r]),
    ensures
        run_end(s, i) == r,
    decreases r - i,
{
    if i < r {
        lemma_run_end_value(s, i + 1, r);
    }
}

/// `str_scan` and `str_closed` walk escaped text to its closing quote.
pub proof fn lemma_scan_escaped(text: Seq<char>, j: int, s: Seq<char>)
    requires
        0 <= j,
        j + escape_seq(s).len() + 1 <= text.len(),
        text.subrange(j, j + escape_seq(s).len() + 1) =~= escape_seq(s) + seq!['"'],
    ensures
        str_scan(text, j) == j + escape_seq(s).len() + 1,
        str_closed(text, j),
    decreases s,
{
    let e = escape_seq(s);
    let sub = text.subrange(j, j + e.len() + 1);
    assert(forall|k: int| 0 <= k < sub.len() ==> #[trigger] sub[k] == text[j + k]);
    if s.len() == 0 {
        assert(text[j] == sub[0]);
        assert(text[j] == '"');
    } else {
        let c = s[0];
        let e2 = escape_seq(s.drop_first());
        assert(e =~= esc_char(c) + e2);
        if c == '"' || c == '\n' || c == '\\' {
            assert(esc_char(c).len() == 2);
            assert(text[j] == sub[0]);
            assert(sub[0] == (e + seq!['"'])[0]);
            assert(text[j] == '\\');
            assert(text.subrange(j + 2, j + 2 + e2.len() + 1) =~= e2 + seq!['"']) by {
                assert forall|k: int| 0 <= k < e2.len() + 1 implies text.subrange(
                    j + 2,
                    j + 2 + e2.len() + 1,
                )[k] == (e2 + seq!['"'])[k] by {
                    assert(text[j + 2 + k] == (e + seq!['"'])[k + 2]);
                }
            }
            lemma_scan_escaped(text, j + 2, s.drop_first());
        } else {
            assert(esc_char(c) =~= seq![c]);
            assert(text[j] == sub[0]);
            assert(sub[0] == (e + seq!['"'])[0]);
            assert(text[j] == c);
            assert(text.subrange(j + 1, j + 1 + e2.len() + 1) =~= e2 + seq!['"']) by {
                assert forall|k: int| 0 <= k < e2.len() + 1 implies text.subrange(
                    j + 1,
                    j + 1 + e2.len() + 1,
                )[k] == (e2 + seq!['"'])[k] by {
                    assert(text[j + 1 + k] == (e + seq!['"'])[k + 1]);
                }
            }
            lemma_scan_escaped(text, j + 1, s.drop_first());
        }
    }
}

/// Resolving the escapes of an escaped string yields the string again.
pub proof fn lemma_unescape_escape(s: Seq<char>)
    ensures
        unescape_seq(escape_seq(s)) == s,
    decreases s,
{
    if s.len() == 0 {
    } else {
        let c = s[0];
        let e2 = escape_seq(s.drop_first());
        lemma_unescape_escape(s.drop_first());
        if c == '"' || c == '\n' || c == '\\' {
            let e = escape_seq(s);
            assert(e =~= seq!['\\', if c == '"' { '"' } else if c == '\n' { 'n' } else { '\\' }]
                + e2);
            assert(e.skip(2) =~= e2);
            assert(unescape_seq(e) =~= seq![c] + s.drop_first());
            assert(seq![c] + s.drop_first() =~= s);
        } else {
            let e = escape_seq(s);
            assert(esc_char(c) =~= seq![c]);
            assert(e =~= seq![c] + e2);
            assert(e.skip(1) =~= e2);
            if c == '\\' {
            } else {
                assert(unescape_seq(e) =~= seq![c] + s.drop_first());
                assert(seq![c] + s.drop_first() =~= s);
            }
        }
    }
}


/// A run-shaped token followed by a boundary lexes as one token.
pub proof fn lemma_run_token(a: Seq<char>, rest: Seq<char>)
    requires
        a.len() >= 1,
        plain_run(a),
        !is_structural(a[0]),
        a[0] != ';',
        a[0] != '"',
        rest.len() == 0 || ends_run(rest[0]),
    ensures
        tokenize_spec(a + rest) == seq![a] + tokenize_spec(rest),
{
    let s = a + rest;
    assert(s[0] == a[0]);
    assert(!is_ws(s[0]));
    assert(forall|j: int| 0 <= j < a.len() ==> s[j] == a[j]);
    assert(a.len() < s.len() ==> s[a.len() as int] == rest[0]);
    lemma_run_end_value(s, 0, a.len() as int);
    assert(clamp_progress(run_end(s, 0), s.len() as int) == a.len());
    assert(s.take(a.len() as int) =~= a);
    assert(s.skip(a.len() as int) =~= rest);
}

/// A quoted string token followed by anything lexes as one token.
pub proof fn lemma_string_token(sv: Seq<char>, rest: Seq<char>)
    ensures
        tokenize_spec((seq!['"'] + escape_seq(sv) + seq!['"']) + rest) == seq![
            seq!['"'] + escape_seq(sv) + seq!['"'],
        ] + tokenize_spec(rest),
{
    let a = seq!['"'] + escape_seq(sv) + seq!['"'];
    let s = a + rest;
    let e = escape_seq(sv);
    assert(s[0] == '"');
    assert(!is_ws('"') && '"' != ';' && !is_structural('"'));
    assert(s.subrange(1, 1 + e.len() as int + 1) =~= e + seq!['"']) by {
        assert(forall|k: int| 0 <= k < a.len() ==> s[k] == a[k]);
    }
    lemma_scan_escaped(s, 1, sv);
    assert(str_scan(s, 1) == a.len());
    assert(clamp_progress(str_scan(s, 1), s.len() as int) == a.len());
    assert(s.take(a.len() as int) =~= a);
    assert(s.skip(a.len() as int) =~= rest);
}

/// The printed text of a printable value, followed by a boundary, lexes
/// as exactly that value's tokens.
#[verifier::rlimit(60)]
pub proof fn lemma_print_tokens(v: Val, rest: Seq<char>)
    requires
        printable(v),
        rest.len() == 0 || ends_run(rest[0]),
    ensures
        tokenize_spec(print_v(v, true) + rest) == toks_of(v) + tokenize_spec(rest),
    decreases v, 1int,
{
    match v {
        Val::Nil => {
            lemma_run_token(print_v(v, true), rest);
        },
        Val::Bool(b) => {
            lemma_run_token(print_v(v, true), rest);
        },
        Val::Integer(n) => {
            let t = int_str(n as int);
            lemma_dec_digits_are_digits(if n < 0 { -(n as int) } else { n as int });
            assert forall|j: int| 0 <= j < t.len() implies !ends_run(#[trigger] t[j]) by {
                if n < 0 {
                    if j > 0 {
                        assert(t[j] == dec_digits(-(n as int))[j - 1]);
                        lemma_digit_plain(t[j]);
                    }
                } else {
                    lemma_digit_plain(t[j]);
                }
            }
            if n < 0 {
            } else {
                lemma_digit_plain(t[0]);
            }
            lemma_run_token(t, rest);
        },
        Val::Real(sv) => {
            let b = int_body(sv);
            let k = choose|k: int|
                0 <= k < b.len() && b[k] == '.' && (forall|j: int|
                    0 <= j < b.len() && j != k ==> is_digit(#[trigger] b[j]));
            assert forall|j: int| 0 <= j < sv.len() implies !ends_run(#[trigger] sv[j]) by {
                if sv[0] == '-' && j == 0 {
                } else {
                    let jb = if sv[0] == '-' { j - 1 } else { j };
                    assert(b[jb] == sv[j]);
                    if jb == k {
                    } else {
                        lemma_digit_plain(sv[j]);
                    }
                }
            }
            assert(!is_structural(sv[0]) && sv[0] != ';' && sv[0] != '"') by {
                if sv[0] == '-' {
                } else {
                    assert(b[0] == sv[0]);
                    if 0 == k {
                    } else {
                        lemma_digit_plain(sv[0]);
                    }
                }
            }
            lemma_run_token(sv, rest);
        },
        Val::Str(sv) => {
            lemma_string_token(sv, rest);
        },
        Val::Keyword(name) => {
            let t = seq![':'] + name;
            assert(print_v(v, true) == t);
            assert forall|j: int| 0 <= j < t.len() implies !ends_run(#[trigger] t[j]) by {
                if j > 0 {
                    assert(t[j] == name[j - 1]);
                }
            }
            lemma_run_token(t, rest);
        },
        Val::Symbol(name) => {
            lemma_run_token(name, rest);
        },
        Val::List(es) => {
            let inner = print_items(es, true);
            let whole = print_v(v, true);
            assert(whole == seq!['('] + inner + seq![')']);
            let tail = seq![')'] + rest;
            let s = whole + rest;
            assert(s[0] == '(');
            assert(s.take(1) =~= seq!['(']);
            assert(s.skip(1) =~= inner + tail);
            lemma_items_tokens(es, tail);
            assert(tokenize_spec(tail) =~= seq![seq![')']] + tokenize_spec(rest)) by {
                assert(tail[0] == ')');
                assert(is_structural(')'));
                assert(tail.take(1) =~= seq![')']);
                assert(tail.skip(1) =~= rest);
            }
            assert(tokenize_spec(s) =~= toks_of(v) + tokenize_spec(rest));
        },
        Val::Vector(es) => {
            let inner = print_items(es, true);
            let whole = print_v(v, true);
            assert(whole == seq!['['] + inner + seq![']']);
            let tail = seq![']'] + rest;
            let s = whole + rest;
            assert(s[0] == '[');
            assert(s.take(1) =~= seq!['[']);
            assert(s.skip(1) =~= inner + tail);
            lemma_items_tokens(es, tail);
            assert(tokenize_spec(tail) =~= seq![seq![']']] + tokenize_spec(rest)) by {
                assert(tail[0] == ']');
                assert(is_structural(']'));
                assert(tail.take(1) =~= seq![']']);
                assert(tail.skip(1) =~= rest);
            }
            assert(tokenize_spec(s) =~= toks_of(v) + tokenize_spec(rest));
        },
        Val::Hashmap(ps) => {
            let inner = print_pairs(ps, true);
            let whole = print_v(v, true);
            assert(whole == seq!['{'] + inner + seq!['}']);
            let tail = seq!['}'] + rest;
            let s = whole + rest;
            assert(s[0] == '{');
            assert(s.take(1) =~= seq!['{']);
            assert(s.skip(1) =~= inner + tail);
            lemma_pairs_tokens(ps, tail);
            assert(tokenize_spec(tail) =~= seq![seq!['}']] + tokenize_spec(rest)) by {
                assert(tail[0] == '}');
                assert(is_structural('}'));
                assert(tail.take(1) =~= seq!['}']);
                assert(tail.skip(1) =~= rest);
            }
            assert(tokenize_spec(s) =~= toks_of(v) + tokenize_spec(rest));
        },
        Val::Native(_) => {
            assert(false);
        },
        Val::Closure { .. } => {
            assert(false);
        },
    }
}

/// The joined printed items, followed by a closing boundary, lex as the
/// concatenation of their tokens.
pub proof fn lemma_items_tokens(es: Seq<Val>, tail: Seq<char>)
    requires
        printable_items(es),
        tail.len() >= 1,
        ends_run(tail[0]),
    ensures
        tokenize_spec(print_items(es, true) + tail) == toks_of_items(es) + tokenize_spec(tail),
    decreases es, 0int,
{
    if es.len() == 0 {
        assert(print_items(es, true) + tail =~= tail);
        assert(toks_of_items(es) + tokenize_spec(tail) =~= tokenize_spec(tail));
    } else if es.len() == 1 {
        lemma_print_tokens(es[0], tail);
        assert(print_items(es, true) == print_v(es[0], true));
        assert(toks_of_items(es) =~= toks_of(es[0]) + toks_of_items(es.drop_first()));
        assert(toks_of_items(es.drop_first()).len() == 0);
        assert(toks_of_items(es) =~= toks_of(es[0]));
    } else {
        let restpart = print_items(es.drop_first(), true) + tail;
        let mid = seq![' '] + restpart;
        assert(print_items(es, true) + tail =~= print_v(es[0], true) + mid);
        lemma_print_tokens(es[0], mid);
        assert(tokenize_spec(mid) =~= tokenize_spec(restpart)) by {
            assert(mid[0] == ' ');
            assert(is_ws(' '));
            assert(mid.drop_first() =~= restpart);
        }
        lemma_items_tokens(es.drop_first(), tail);
        assert(toks_of_items(es) =~= toks_of(es[0]) + toks_of_items(es.drop_first()));
        assert(tokenize_spec(print_items(es, true) + tail) =~= toks_of_items(es)
            + tokenize_spec(tail));
    }
}

/// The joined printed entries, followed by a closing boundary, lex as the
/// concatenation of their tokens.
pub proof fn lemma_pairs_tokens(ps: Seq<(Val, Val)>, tail: Seq<char>)
    requires
        printable_pairs(ps),
        tail.len() >= 1,
        ends_run(tail[0]),
    ensures
        tokenize_spec(print_pairs(ps, true) + tail) == toks_of_pairs(ps) + tokenize_spec(tail),
    decreases ps, 0int,
{
    if ps.len() == 0 {
        assert(print_pairs(ps, true) + tail =~= tail);
        assert(toks_of_pairs(ps) + tokenize_spec(tail) =~= tokenize_spec(tail));
    } else {
        let k = ps[0].0;
        let val = ps[0].1;
        if ps.len() == 1 {
            let vpart = print_v(val, true) + tail;
            let mid = seq![' '] + vpart;
            assert(print_pairs(ps, true) + tail =~= print_v(k, true) + mid);
            lemma_print_tokens(k, mid);
            assert(tokenize_spec(mid) =~= tokenize_spec(vpart)) by {
                assert(mid[0] == ' ');
                assert(mid.drop_first() =~= vpart);
            }
            lemma_print_tokens(val, tail);
            assert(toks_of_pairs(ps) =~= toks_of(k) + toks_of(val)) by {
                assert(toks_of_pairs(ps.drop_first()).len() == 0);
            }
            assert(tokenize_spec(print_pairs(ps, true) + tail) =~= toks_of_pairs(ps)
                + tokenize_spec(tail));
        } else {
            let restpart = print_pairs(ps.drop_first(), true) + tail;
            let mid2 = seq![' '] + restpart;
            let vpart = print_v(val, true) + mid2;
            let mid = seq![' '] + vpart;
            assert(print_pairs(ps, true) + tail =~= print_v(k, true) + mid);
            lemma_print_tokens(k, mid);
            assert(tokenize_spec(mid) =~= tokenize_spec(vpart)) by {
                assert(mid[0] == ' ');
                assert(mid.drop_first() =~= vpart);
            }
            lemma_print_tokens(val, mid2);
            assert(tokenize_spec(mid2) =~= tokenize_spec(restpart)) by {
                assert(mid2[0] == ' ');
                assert(mid2.drop_first() =~= restpart);
            }
            lemma_pairs_tokens(ps.drop_first(), tail);
            assert(tokenize_spec(print_pairs(ps, true) + tail) =~= toks_of_pairs(ps)
                + tokenize_spec(tail));
        }
    }
}


/// A value that prints as a single atom token.
pub open spec fn atom_like(v: Val) -> bool {
    !(v is List || v is Vector || v is Hashmap || v is Native || v is Closure)
}

/// The single token of a printable atom reads back as that atom, and has
/// none of the special token shapes.
pub proof fn lemma_atom(v: Val)
    requires
        printable(v),
        atom_like(v),
    ensures
        ({
            let t = print_v(v, true);
            atom_val(t) == Result::<Val, ErrV>::Ok(v) && t.len() >= 1 && !(t.len() == 1
                && is_structural(t[0])) && !(t.len() == 2 && t[0] == '~' && t[1] == '@') && !(
            t.len() == 1 && (t[0] == ')' || t[0] == ']' || t[0] == '}'))
        }),
{
    let t = print_v(v, true);
    match v {
        Val::Nil => {
            assert(t == nil_tok());
        },
        Val::Bool(b) => {
            if b {
                assert(t == true_tok());
                assert(t != nil_tok());
            } else {
                assert(t == false_tok());
                assert(t != nil_tok());
            }
        },
        Val::Integer(n) => {
            let m = if n < 0 { -(n as int) } else { n as int };
            lemma_dec_digits_are_digits(m);
            assert(t == int_str(n as int));
            let b = int_body(t);
            assert(b =~= dec_digits(m)) by {
                if n < 0 {
                    assert(t[0] == '-');
                    assert(t.drop_first() =~= dec_digits(m));
                } else {
                    lemma_digit_plain(t[0]);
                }
            }
            assert(t[0] == '-' || is_digit(t[0]));
            assert(t != nil_tok()) by {
                if t == nil_tok() {
                    assert(t[0] == 'n');
                }
            }
            assert(t != true_tok()) by {
                if t == true_tok() {
                    assert(t[0] == 't');
                }
            }
            assert(t != false_tok()) by {
                if t == false_tok() {
                    assert(t[0] == 'f');
                }
            }
            assert(!is_float_tok(t)) by {
                assert forall|k: int|
                    0 <= k < b.len() implies !(b[k] == '.' && (forall|j: int|
                        0 <= j < b.len() && j != k ==> is_digit(#[trigger] b[j]))) by {
                    assert(is_digit(b[k]));
                }
            }
            assert(is_int_tok(t));
            lemma_digits_round_trip(m);
            assert(int_tok_val(t) == n as int) by {
                if n < 0 {
                    assert(t[0] == '-');
                    assert(t.drop_first() =~= dec_digits(m));
                }
            }
            assert(atom_val(t) == Result::<Val, ErrV>::Ok(Val::Integer(n)));
            assert(!(t.len() == 1 && is_structural(t[0]))) by {
                if t.len() == 1 {
                    if is_digit(t[0]) {
                        lemma_digit_plain(t[0]);
                    }
                }
            }
            assert(!(t.len() == 2 && t[0] == '~' && t[1] == '@'));
            assert(!(t.len() == 1 && (t[0] == ')' || t[0] == ']' || t[0] == '}'))) by {
                if t.len() == 1 && is_digit(t[0]) {
                    lemma_digit_plain(t[0]);
                }
            }
        },
        Val::Real(sv) => {
            let b = int_body(sv);
            let k = choose|k: int|
                0 <= k < b.len() && b[k] == '.' && (forall|j: int|
                    0 <= j < b.len() && j != k ==> is_digit(#[trigger] b[j]));
            assert(sv[0] == '-' || sv[0] == b[0]);
            assert(sv[0] == '-' || sv[0] == '.' || is_digit(sv[0]));
            assert(sv != nil_tok()) by {
                if sv == nil_tok() {
                    assert(sv[0] == 'n');
                }
            }
            assert(sv != true_tok()) by {
                if sv == true_tok() {
                    assert(sv[0] == 't');
                }
            }
            assert(sv != false_tok()) by {
                if sv == false_tok() {
                    assert(sv[0] == 'f');
                }
            }
            assert(atom_val(sv) == Result::<Val, ErrV>::Ok(Val::Real(sv)));
            assert(sv.len() >= 2) by {
                assert(b.len() >= 2);
            }
            assert(!(sv.len() == 2 && sv[0] == '~' && sv[1] == '@'));
        },
        Val::Str(sv) => {
            let e = escape_seq(sv);
            assert(t == seq!['"'] + e + seq!['"']);
            assert(t[0] == '"');
            assert(t.len() >= 2);
            assert(t != nil_tok()) by {
                if t == nil_tok() {
                    assert(t[0] == 'n');
                }
            }
            assert(t != true_tok()) by {
                if t == true_tok() {
                    assert(t[0] == 't');
                }
            }
            assert(t != false_tok()) by {
                if t == false_tok() {
                    assert(t[0] == 'f');
                }
            }
            let b = int_body(t);
            assert(b == t);
            assert(!is_float_tok(t)) by {
                assert forall|kk: int|
                    0 <= kk < b.len() implies !(b[kk] == '.' && (forall|j: int|
                        0 <= j < b.len() && j != kk ==> is_digit(#[trigger] b[j]))) by {
                    if b[kk] == '.' {
                        assert(kk != 0);
                        assert(!is_digit(b[0]));
                    }
                }
            }
            assert(!is_int_tok(t)) by {
                assert(!is_digit(b[0]));
            }
            assert(t.subrange(1, 1 + e.len() as int + 1) =~= e + seq!['"']);
            lemma_scan_escaped(t, 1, sv);
            assert(is_string_tok(t));
            assert(t.subrange(1, t.len() - 1) =~= e);
            lemma_unescape_escape(sv);
            assert(atom_val(t) == Result::<Val, ErrV>::Ok(Val::Str(sv)));
            assert(!(t.len() == 2 && t[0] == '~' && t[1] == '@'));
        },
        Val::Keyword(name) => {
            assert(t == seq![':'] + name);
            assert(t[0] == ':');
            assert(t != nil_tok()) by {
                if t == nil_tok() {
                    assert(t[0] == 'n');
                }
            }
            assert(t != true_tok()) by {
                if t == true_tok() {
                    assert(t[0] == 't');
                }
            }
            assert(t != false_tok()) by {
                if t == false_tok() {
                    assert(t[0] == 'f');
                }
            }
            let b = int_body(t);
            assert(b == t);
            assert(!is_float_tok(t)) by {
                assert forall|kk: int|
                    0 <= kk < b.len() implies !(b[kk] == '.' && (forall|j: int|
                        0 <= j < b.len() && j != kk ==> is_digit(#[trigger] b[j]))) by {
                    if b[kk] == '.' {
                        assert(kk != 0);
                        assert(!is_digit(b[0]));
                    }
                }
            }
            assert(!is_int_tok(t)) by {
                assert(!is_digit(b[0]));
            }
            assert(!is_string_tok(t));
            assert(t.drop_first() =~= name);
            assert(atom_val(t) == Result::<Val, ErrV>::Ok(Val::Keyword(name)));
        },
        Val::Symbol(name) => {
            assert(t == name);
            assert(!is_string_tok(t)) by {
                assert(!ends_run(t[0]));
            }
            assert(t[0] != ':');
            assert(t[0] != '"') by {
                assert(!ends_run(t[0]));
            }
            assert(atom_val(t) == Result::<Val, ErrV>::Ok(Val::Symbol(name)));
            assert(!(t.len() == 2 && t[0] == '~' && t[1] == '@')) by {
                if t[0] == '~' {
                    assert(is_structural('~'));
                }
            }
            assert(!(t.len() == 1 && (t[0] == ')' || t[0] == ']' || t[0] == '}'))) by {
                assert(!ends_run(t[0]));
            }
        },
        _ => {
            assert(false);
        },
    }
}

/// A printable value's tokens are never empty, and never begin with a
/// bare closing bracket.
pub proof fn lemma_first_tok(v: Val)
    requires
        printable(v),
    ensures
        toks_of(v).len() >= 1,
        !(toks_of(v)[0].len() == 1 && (toks_of(v)[0][0] == ')' || toks_of(v)[0][0] == ']'
            || toks_of(v)[0][0] == '}')),
{
    match v {
        Val::List(es) => {
            assert(toks_of(v)[0] == seq!['(']);
        },
        Val::Vector(es) => {
            assert(toks_of(v)[0] == seq!['[']);
        },
        Val::Hashmap(ps) => {
            assert(toks_of(v)[0] == seq!['{']);
        },
        _ => {
            lemma_atom(v);
            assert(toks_of(v)[0] == print_v(v, true));
        },
    }
}

/// The flat form of map entries has twice as many values as entries.
pub proof fn lemma_flatten_len(ps: Seq<(Val, Val)>)
    ensures
        flatten_pairs(ps).len() == 2 * ps.len(),
    decreases ps,
{
    if ps.len() > 0 {
        lemma_flatten_len(ps.drop_first());
    }
}

/// Folding the flat form of distinct-keyed entries rebuilds exactly those
/// entries, after whatever was already accumulated.
pub proof fn lemma_build_roundtrip(ps: Seq<(Val, Val)>, acc: Seq<(Val, Val)>)
    requires
        printable_pairs(ps),
        forall|i: int, j: int| 0 <= i < j < ps.len() ==> (#[trigger] ps[i]).0 != (
        #[trigger] ps[j]).0,
        forall|i: int, j: int|
            0 <= i < acc.len() && 0 <= j < ps.len() ==> (#[trigger] acc[i]).0 != (
            #[trigger] ps[j]).0,
    ensures
        build_pairs(flatten_pairs(ps), acc) == Result::<Seq<(Val, Val)>, ErrV>::Ok(acc + ps),
    decreases ps,
{
    let flat = flatten_pairs(ps);
    lemma_flatten_len(ps);
    if ps.len() == 0 {
        assert(acc + ps =~= acc);
    } else {
        let k = ps[0].0;
        let val = ps[0].1;
        assert(flat[0] == k);
        assert(flat[1] == val);
        assert(flat.skip(2) =~= flatten_pairs(ps.drop_first()));
        lemma_vkey_idx(acc, k);
        assert(vkey_idx(acc, k) == -1) by {
            if vkey_idx(acc, k) >= 0 {
                assert(acc[vkey_idx(acc, k)].0 == k);
                assert(ps[0].0 == k);
            }
        }
        assert(map_put(acc, k, val) == acc.push((k, val)));
        let acc2 = acc.push((k, val));
        assert forall|i: int, j: int|
            0 <= i < acc2.len() && 0 <= j < ps.drop_first().len() implies (
        #[trigger] acc2[i]).0 != (#[trigger] ps.drop_first()[j]).0 by {
            assert(ps.drop_first()[j] == ps[j + 1]);
            if i < acc.len() {
                assert(acc2[i] == acc[i]);
            } else {
                assert(acc2[i] == (k, val));
                assert(ps[0].0 != ps[j + 1].0);
            }
        }
        lemma_build_roundtrip(ps.drop_first(), acc2);
        assert(acc2 + ps.drop_first() =~= acc + ps);
    }
}


/// Parsing the tokens of a printable value, with anything after them,
/// yields the value and leaves exactly the rest.
pub proof fn lemma_parse(v: Val, rest: Seq<Seq<char>>)
    requires
        printable(v),
    ensures
        sp_form(toks_of(v) + rest) == (PRes::Parsed { v, rest }),
    decreases v, 1int,
{
    let ts = toks_of(v) + rest;
    lemma_first_tok(v);
    assert(ts[0] == toks_of(v)[0]);
    match v {
        Val::List(es) => {
            assert(ts[0] == seq!['(']);
            assert(ts[0].len() == 1 && ts[0][0] == '(');
            assert(ts.drop_first() =~= toks_of_items(es) + seq![seq![')']] + rest);
            lemma_parse_items(es, ')', rest);
            assert(closer_for('(') == ')');
            assert(collection_val('(', es) == Result::<Val, ErrV>::Ok(Val::List(es)));
        },
        Val::Vector(es) => {
            assert(ts[0] == seq!['[']);
            assert(ts[0].len() == 1 && ts[0][0] == '[');
            assert(ts.drop_first() =~= toks_of_items(es) + seq![seq![']']] + rest);
            lemma_parse_items(es, ']', rest);
            assert(closer_for('[') == ']');
            assert(collection_val('[', es) == Result::<Val, ErrV>::Ok(Val::Vector(es)));
        },
        Val::Hashmap(ps) => {
            assert(ts[0] == seq!['{']);
            assert(ts[0].len() == 1 && ts[0][0] == '{');
            assert(ts.drop_first() =~= toks_of_pairs(ps) + seq![seq!['}']] + rest);
            lemma_parse_pairs(ps, rest);
            assert(closer_for('{') == '}');
            lemma_flatten_len(ps);
            lemma_build_roundtrip(ps, Seq::empty());
            assert(Seq::empty() + ps =~= ps);
            assert(collection_val('{', flatten_pairs(ps)) == Result::<Val, ErrV>::Ok(
                Val::Hashmap(ps),
            ));
        },
        _ => {
            lemma_atom(v);
            let t = print_v(v, true);
            assert(ts[0] == t);
            assert(ts.drop_first() =~= rest);
            assert(sp_form(ts) == (PRes::Parsed { v, rest }));
        },
    }
}

/// Parsing item tokens up to their closer yields the items and leaves
/// exactly the rest.
pub proof fn lemma_parse_items(es: Seq<Val>, closer: char, rest: Seq<Seq<char>>)
    requires
        printable_items(es),
        closer == ')' || closer == ']' || closer == '}',
    ensures
        sp_seq(toks_of_items(es) + seq![seq![closer]] + rest, closer) == (SRes::Items {
            items: es,
            rest,
        }),
    decreases es, 0int,
{
    let ts = toks_of_items(es) + seq![seq![closer]] + rest;
    if es.len() == 0 {
        assert(ts[0] == seq![closer]);
        assert(ts[0].len() == 1 && ts[0][0] == closer);
        assert(ts.drop_first() =~= rest);
        assert(es =~= Seq::<Val>::empty());
    } else {
        let head = es[0];
        lemma_first_tok(head);
        assert(ts[0] == toks_of(head)[0]) by {
            assert(toks_of_items(es) =~= toks_of(head) + toks_of_items(es.drop_first()));
        }
        assert(!(ts[0].len() == 1 && ts[0][0] == closer));
        let tail1 = toks_of_items(es.drop_first()) + seq![seq![closer]] + rest;
        assert(ts =~= toks_of(head) + tail1) by {
            assert(toks_of_items(es) =~= toks_of(head) + toks_of_items(es.drop_first()));
        }
        lemma_parse(head, tail1);
        assert(sp_form(ts) == (PRes::Parsed { v: head, rest: tail1 }));
        assert(tail1.len() < ts.len());
        assert(shorter(tail1, ts.len() as int) == tail1);
        lemma_parse_items(es.drop_first(), closer, rest);
        assert(seq![head] + es.drop_first() =~= es);
    }
}

/// Parsing entry tokens up to the closing brace yields the entries laid
/// out flat and leaves exactly the rest.
pub proof fn lemma_parse_pairs(ps: Seq<(Val, Val)>, rest: Seq<Seq<char>>)
    requires
        printable_pairs(ps),
    ensures
        sp_seq(toks_of_pairs(ps) + seq![seq!['}']] + rest, '}') == (SRes::Items {
            items: flatten_pairs(ps),
            rest,
        }),
    decreases ps, 0int,
{
    let ts = toks_of_pairs(ps) + seq![seq!['}']] + rest;
    if ps.len() == 0 {
        assert(ts[0] == seq!['}']);
        assert(ts.drop_first() =~= rest);
        assert(flatten_pairs(ps) =~= Seq::<Val>::empty());
    } else {
        let k = ps[0].0;
        let val = ps[0].1;
        lemma_first_tok(k);
        lemma_first_tok(val);
        assert(toks_of_pairs(ps) =~= toks_of(k) + toks_of(val) + toks_of_pairs(ps.drop_first()));
        assert(ts[0] == toks_of(k)[0]);
        assert(!(ts[0].len() == 1 && ts[0][0] == '}'));
        let tail1 = toks_of(val) + toks_of_pairs(ps.drop_first()) + seq![seq!['}']] + rest;
        assert(ts =~= toks_of(k) + tail1);
        lemma_parse(k, tail1);
        assert(sp_form(ts) == (PRes::Parsed { v: k, rest: tail1 }));
        assert(tail1.len() < ts.len());
        assert(shorter(tail1, ts.len() as int) == tail1);
        // the value form comes next
        let tail2 = toks_of_pairs(ps.drop_first()) + seq![seq!['}']] + rest;
        assert(tail1[0] == toks_of(val)[0]);
        assert(!(tail1[0].len() == 1 && tail1[0][0] == '}'));
        assert(tail1 =~= toks_of(val) + tail2);
        lemma_parse(val, tail2);
        assert(sp_form(tail1) == (PRes::Parsed { v: val, rest: tail2 }));
        assert(tail2.len() < tail1.len());
        assert(shorter(tail2, tail1.len() as int) == tail2);
        lemma_parse_pairs(ps.drop_first(), rest);
        assert(sp_seq(tail2, '}') == (SRes::Items { items: flatten_pairs(ps.drop_first()), rest }));
        assert(sp_seq(tail1, '}') == (SRes::Items {
            items: seq![val] + flatten_pairs(ps.drop_first()),
            rest,
        }));
        assert(seq![k] + (seq![val] + flatten_pairs(ps.drop_first())) =~= flatten_pairs(ps));
    }
}

/// THE ROUND TRIP: printing any value the reader can produce, readably,
/// and reading the text back yields the value again.  A first reading
/// pass thus normalizes any input text to a canonical form on which
/// read-then-print is the identity.
pub proof fn lemma_read_print_round_trip(v: Val)
    requires
        printable(v),
    ensures
        read_spec(print_v(v, true)) == Result::<Val, ErrV>::Ok(v),
{
    let text = print_v(v, true);
    lemma_print_tokens(v, Seq::empty());
    assert(text + Seq::<char>::empty() =~= text);
    assert(tokenize_spec(Seq::<char>::empty()) =~= Seq::<Seq<char>>::empty());
    assert(toks_of(v) + Seq::<Seq<char>>::empty() =~= toks_of(v));
    assert(tokenize_spec(text) == toks_of(v));
    lemma_first_tok(v);
    lemma_parse(v, Seq::empty());
}


/// A token the tokenizer can emit: the splice marker, one structural
/// character, a quoted-string token, or a run of ordinary characters.
pub open spec fn tok_wf(t: Seq<char>) -> bool {
    t.len() >= 1 && ((t.len() == 2 && t[0] == '~' && t[1] == '@') || (t.len() == 1
        && is_structural(t[0])) || t[0] == '"' || (plain_run(t) && !is_structural(t[0]) && t[0]
        != ';' && t[0] != '"'))
}

/// Every token of a sequence is tokenizer-shaped.
pub open spec fn all_wf(ts: Seq<Seq<char>>) -> bool {
    forall|i: int| 0 <= i < ts.len() ==> tok_wf(#[trigger] ts[i])
}

/// The characters before `run_end` are all ordinary.
pub proof fn lemma_run_end_chars(s: Seq<char>, i: int)
    requires
        0 <= i <= s.len(),
    ensures
        forall|j: int| i <= j < run_end(s, i) ==> !ends_run(#[trigger] s[j]),
    decreases s.len() - i,
{
    if i < s.len() && !ends_run(s[i]) {
        lemma_run_end_chars(s, i + 1);
    }
}

/// Everything the tokenizer emits is tokenizer-shaped.
pub proof fn lemma_tokenize_wf(s: Seq<char>)
    ensures
        all_wf(tokenize_spec(s)),
    decreases s.len(),
{
    if s.len() == 0 {
    } else if is_ws(s[0]) {
        lemma_tokenize_wf(s.drop_first());
    } else if s[0] == ';' {
        let n = clamp_progress(comment_end(s, 0), s.len() as int);
        lemma_tokenize_wf(s.skip(n));
    } else if s[0] == '~' && s.len() >= 2 && s[1] == '@' {
        lemma_tokenize_wf(s.skip(2));
        let t = s.take(2);
        assert(tok_wf(t)) by {
            assert(t.len() == 2 && t[0] == '~' && t[1] == '@');
        }
        assert forall|i: int|
            0 <= i < tokenize_spec(s).len() implies tok_wf(#[trigger] tokenize_spec(s)[i]) by {
            if i > 0 {
                assert(tokenize_spec(s)[i] == tokenize_spec(s.skip(2))[i - 1]);
            }
        }
    } else if is_structural(s[0]) {
        lemma_tokenize_wf(s.skip(1));
        let t = s.take(1);
        assert(tok_wf(t)) by {
            assert(t.len() == 1 && t[0] == s[0]);
        }
        assert forall|i: int|
            0 <= i < tokenize_spec(s).len() implies tok_wf(#[trigger] tokenize_spec(s)[i]) by {
            if i > 0 {
                assert(tokenize_spec(s)[i] == tokenize_spec(s.skip(1))[i - 1]);
            }
        }
    } else if s[0] == '"' {
        let n = clamp_progress(str_scan(s, 1), s.len() as int);
        lemma_tokenize_wf(s.skip(n));
        let t = s.take(n);
        assert(tok_wf(t)) by {
            assert(t[0] == s[0]);
        }
        assert forall|i: int|
            0 <= i < tokenize_spec(s).len() implies tok_wf(#[trigger] tokenize_spec(s)[i]) by {
            if i > 0 {
                assert(tokenize_spec(s)[i] == tokenize_spec(s.skip(n))[i - 1]);
            }
        }
    } else {
        let n = clamp_progress(run_end(s, 0), s.len() as int);
        lemma_tokenize_wf(s.skip(n));
        let t = s.take(n);
        lemma_run_end_bounds(s, 0);
        lemma_run_end_chars(s, 0);
        assert(tok_wf(t)) by {
            assert(t[0] == s[0]);
            assert(!ends_run(s[0]));
            assert(run_end(s, 0) >= 1) by {
                assert(run_end(s, 0) == run_end(s, 1));
                lemma_run_end_bounds(s, 1);
            }
            assert(n == run_end(s, 0));
            assert forall|j: int| 0 <= j < t.len() implies !ends_run(#[trigger] t[j]) by {
                assert(t[j] == s[j]);
            }
        }
        assert forall|i: int|
            0 <= i < tokenize_spec(s).len() implies tok_wf(#[trigger] tokenize_spec(s)[i]) by {
            if i > 0 {
                assert(tokenize_spec(s)[i] == tokenize_spec(s.skip(n))[i - 1]);
            }
        }
    }
}


/// `printable_items` is elementwise printability.
pub proof fn lemma_printable_items_iff(es: Seq<Val>)
    ensures
        printable_items(es) <==> (forall|i: int| 0 <= i < es.len() ==> printable(#[trigger] es[i])),
    decreases es,
{
    if es.len() > 0 {
        lemma_printable_items_iff(es.drop_first());
        assert(forall|i: int| 0 <= i < es.drop_first().len() ==> #[trigger] es.drop_first()[i]
            == es[i + 1]);
        if printable_items(es) {
            assert forall|i: int| 0 <= i < es.len() implies printable(#[trigger] es[i]) by {
                if i > 0 {
                    assert(es[i] == es.drop_first()[i - 1]);
                }
            }
        }
    }
}

/// `printable_pairs` is entrywise printability of distinct-role fields.
pub proof fn lemma_printable_pairs_iff(ps: Seq<(Val, Val)>)
    ensures
        printable_pairs(ps) <==> (forall|i: int|
            0 <= i < ps.len() ==> is_map_key((#[trigger] ps[i]).0) && printable(ps[i].0)
                && printable(ps[i].1)),
    decreases ps,
{
    if ps.len() > 0 {
        lemma_printable_pairs_iff(ps.drop_first());
        assert(forall|i: int| 0 <= i < ps.drop_first().len() ==> #[trigger] ps.drop_first()[i]
            == ps[i + 1]);
        if printable_pairs(ps) {
            assert forall|i: int|
                0 <= i < ps.len() implies is_map_key((#[trigger] ps[i]).0) && printable(ps[i].0)
                    && printable(ps[i].1) by {
                if i > 0 {
                    assert(ps[i] == ps.drop_first()[i - 1]);
                }
            }
        }
    }
}

/// Folding printable values into a map keeps every entry printable and
/// every key distinct.
pub proof fn lemma_build_pairs_printable(items: Seq<Val>, acc: Seq<(Val, Val)>)
    requires
        forall|i: int| 0 <= i < items.len() ==> printable(#[trigger] items[i]),
        printable_pairs(acc),
        forall|i: int, j: int| 0 <= i < j < acc.len() ==> (#[trigger] acc[i]).0 != (
        #[trigger] acc[j]).0,
    ensures
        build_pairs(items, acc) matches Result::Ok(ps) ==> printable_pairs(ps) && (forall|
            i: int,
            j: int,
        | 0 <= i < j < ps.len() ==> (#[trigger] ps[i]).0 != (#[trigger] ps[j]).0),
    decreases items.len(),
{
    lemma_printable_pairs_iff(acc);
    if items.len() == 0 {
    } else if !is_map_key(items[0]) {
    } else if items.len() == 1 {
    } else {
        let k = items[0];
        let v = items[1];
        let acc2 = map_put(acc, k, v);
        lemma_vkey_idx(acc, k);
        assert(printable_pairs(acc2) && (forall|i: int, j: int|
            0 <= i < j < acc2.len() ==> (#[trigger] acc2[i]).0 != (#[trigger] acc2[j]).0)) by {
            lemma_printable_pairs_iff(acc2);
            let idx = vkey_idx(acc, k);
            if idx >= 0 {
                assert(acc2 == acc.update(idx, (k, v)));
                assert(acc[idx].0 == k);
                assert forall|i: int|
                    0 <= i < acc2.len() implies is_map_key((#[trigger] acc2[i]).0) && printable(
                    acc2[i].0,
                ) && printable(acc2[i].1) by {
                    if i != idx {
                        assert(acc2[i] == acc[i]);
                    }
                }
                assert forall|i: int, j: int|
                    0 <= i < j < acc2.len() implies (#[trigger] acc2[i]).0 != (
                #[trigger] acc2[j]).0 by {
                    let a0 = if i == idx { k } else { acc[i].0 };
                    assert(acc2[i].0 == a0);
                    let b0 = if j == idx { k } else { acc[j].0 };
                    assert(acc2[j].0 == b0);
                    assert(acc[idx].0 == k);
                    assert(acc[i].0 != acc[j].0);
                }
            } else {
                assert(acc2 == acc.push((k, v)));
                assert forall|i: int|
                    0 <= i < acc2.len() implies is_map_key((#[trigger] acc2[i]).0) && printable(
                    acc2[i].0,
                ) && printable(acc2[i].1) by {
                    if i < acc.len() {
                        assert(acc2[i] == acc[i]);
                    } else {
                        assert(acc2[i] == (k, v));
                    }
                }
                assert forall|i: int, j: int|
                    0 <= i < j < acc2.len() implies (#[trigger] acc2[i]).0 != (
                #[trigger] acc2[j]).0 by {
                    if j < acc.len() {
                        assert(acc2[i] == acc[i] && acc2[j] == acc[j]);
                    } else {
                        assert(acc2[j] == (k, v));
                        if i < acc.len() {
                            assert(acc2[i] == acc[i]);
                            assert(acc[i].0 != k);
                        }
                    }
                }
            }
        }
        assert(forall|i: int| 0 <= i < items.skip(2).len() ==> #[trigger] items.skip(2)[i]
            == items[i + 2]);
        lemma_build_pairs_printable(items.skip(2), acc2);
    }
}

/// A name of ordinary characters that starts with a letter is a printable
/// symbol, as the quoting-form names are.
pub proof fn lemma_plain_symbol_printable(name: Seq<char>)
    requires
        name.len() >= 1,
        plain_run(name),
        !is_structural(name[0]),
        name[0] != ';',
        name[0] != ':',
        !is_digit(name[0]),
        name[0] != '-',
        name[0] != '.',
        name != nil_tok(),
        name != true_tok(),
        name != false_tok(),
    ensures
        printable(Val::Symbol(name)),
{
    let b = int_body(name);
    assert(b == name);
    assert(!is_int_tok(name)) by {
        assert(!is_digit(b[0]));
    }
    assert(!is_float_tok(name)) by {
        assert forall|k: int|
            0 <= k < b.len() implies !(b[k] == '.' && (forall|j: int|
                0 <= j < b.len() && j != k ==> is_digit(#[trigger] b[j]))) by {
            if b[k] == '.' {
                assert(k != 0);
                assert(!is_digit(b[0]));
            }
        }
    }
}


/// The six quoting-form names are printable symbols.
pub proof fn lemma_quoting_names_printable()
    ensures
        printable(Val::Symbol(crate::reader::quote_sym())),
        printable(Val::Symbol(crate::reader::quasiquote_sym())),
        printable(Val::Symbol(crate::reader::unquote_sym())),
        printable(Val::Symbol(crate::reader::splice_unquote_sym())),
        printable(Val::Symbol(crate::reader::deref_sym())),
        printable(Val::Symbol(crate::reader::with_meta_sym())),
{
    let q = crate::reader::quote_sym();
    assert forall|i: int| 0 <= i < q.len() implies !ends_run(#[trigger] q[i]) by {
        if i == 0 {
        } else if i == 1 {
        } else if i == 2 {
        } else if i == 3 {
        } else {
            assert(i == 4);
        }
    }
    assert(q != false_tok()) by {
        assert(q[0] == 'q');
    }
    lemma_plain_symbol_printable(q);
    let qq = crate::reader::quasiquote_sym();
    assert forall|i: int| 0 <= i < qq.len() implies !ends_run(#[trigger] qq[i]) by {
        if i < 5 {
            if i == 0 {
            } else if i == 1 {
            } else if i == 2 {
            } else if i == 3 {
            } else {
                assert(i == 4);
            }
        } else {
            if i == 5 {
            } else if i == 6 {
            } else if i == 7 {
            } else if i == 8 {
            } else {
                assert(i == 9);
            }
        }
    }
    lemma_plain_symbol_printable(qq);
    let u = crate::reader::unquote_sym();
    assert forall|i: int| 0 <= i < u.len() implies !ends_run(#[trigger] u[i]) by {
        if i == 0 {
        } else if i == 1 {
        } else if i == 2 {
        } else if i == 3 {
        } else if i == 4 {
        } else if i == 5 {
        } else {
            assert(i == 6);
        }
    }
    lemma_plain_symbol_printable(u);
    let su = crate::reader::splice_unquote_sym();
    assert forall|i: int| 0 <= i < su.len() implies !ends_run(#[trigger] su[i]) by {
        if i < 7 {
            if i == 0 {
            } else if i == 1 {
            } else if i == 2 {
            } else if i == 3 {
            } else if i == 4 {
            } else if i == 5 {
            } else {
                assert(i == 6);
            }
        } else {
            if i == 7 {
            } else if i == 8 {
            } else if i == 9 {
            } else if i == 10 {
            } else if i == 11 {
            } else if i == 12 {
            } else {
                assert(i == 13);
            }
        }
    }
    lemma_plain_symbol_printable(su);
    let d = crate::reader::deref_sym();
    assert forall|i: int| 0 <= i < d.len() implies !ends_run(#[trigger] d[i]) by {
        if i == 0 {
        } else if i == 1 {
        } else if i == 2 {
        } else if i == 3 {
        } else {
            assert(i == 4);
        }
    }
    assert(d != false_tok()) by {
        assert(d[0] == 'd');
    }
    lemma_plain_symbol_printable(d);
    let wm = crate::reader::with_meta_sym();
    assert forall|i: int| 0 <= i < wm.len() implies !ends_run(#[trigger] wm[i]) by {
        if i < 5 {
            if i == 0 {
            } else if i == 1 {
            } else if i == 2 {
            } else if i == 3 {
            } else {
                assert(i == 4);
            }
        } else {
            if i == 5 {
            } else if i == 6 {
            } else if i == 7 {
            } else {
                assert(i == 8);
            }
        }
    }
    lemma_plain_symbol_printable(wm);
}

/// Whatever the parser builds from tokenizer-shaped tokens is printable,
/// and what it leaves unconsumed is tokenizer-shaped again.
pub proof fn lemma_sp_form_printable(ts: Seq<Seq<char>>)
    requires
        all_wf(ts),
    ensures
        sp_form(ts) matches PRes::Parsed { v, rest } ==> printable(v) && all_wf(rest),
    decreases ts.len(), 0int,
{
    if ts.len() == 0 {
        return ;
    }
    let t = ts[0];
    assert(tok_wf(t));
    assert(all_wf(ts.drop_first())) by {
        assert(forall|i: int| 0 <= i < ts.drop_first().len() ==> #[trigger] ts.drop_first()[i]
            == ts[i + 1]);
    }
    if t.len() == 1 && (t[0] == '(' || t[0] == '[' || t[0] == '{') {
        lemma_sp_seq_printable(ts.drop_first(), closer_for(t[0]));
        match sp_seq(ts.drop_first(), closer_for(t[0])) {
            SRes::Items { items, rest } => {
                lemma_printable_items_iff(items);
                if t[0] == '{' {
                    if items.len() % 2 == 1 {
                    } else {
                        lemma_build_pairs_printable(items, Seq::empty());
                        lemma_printable_pairs_iff(Seq::empty());
                    }
                }
            },
            SRes::Fail(_) => {},
        }
    } else if t.len() == 1 && (t[0] == ')' || t[0] == ']' || t[0] == '}') {
    } else if t.len() == 1 && (t[0] == '\'' || t[0] == '`' || t[0] == '~' || t[0] == '@') {
        lemma_sp_form_printable(ts.drop_first());
        lemma_quoting_names_printable();
        match sp_form(ts.drop_first()) {
            PRes::Parsed { v: inner, rest } => {
                let name = if t[0] == '\'' {
                    crate::reader::quote_sym()
                } else if t[0] == '`' {
                    crate::reader::quasiquote_sym()
                } else if t[0] == '~' {
                    crate::reader::unquote_sym()
                } else {
                    crate::reader::deref_sym()
                };
                let built = seq![Val::Symbol(name), inner];
                lemma_printable_items_iff(built);
                assert(printable(built[0]));
                assert(printable(built[1]));
            },
            PRes::Fail(_) => {},
        }
    } else if t.len() == 2 && t[0] == '~' && t[1] == '@' {
        lemma_sp_form_printable(ts.drop_first());
        lemma_quoting_names_printable();
        match sp_form(ts.drop_first()) {
            PRes::Parsed { v: inner, rest } => {
                let built = seq![Val::Symbol(crate::reader::splice_unquote_sym()), inner];
                lemma_printable_items_iff(built);
                assert(printable(built[0]));
                assert(printable(built[1]));
            },
            PRes::Fail(_) => {},
        }
    } else if t.len() == 1 && t[0] == '^' {
        lemma_sp_form_printable(ts.drop_first());
        lemma_quoting_names_printable();
        match sp_form(ts.drop_first()) {
            PRes::Parsed { v: meta, rest: r1 } => {
                let r1c = shorter(r1, ts.len() as int);
                assert(all_wf(r1c)) by {
                    if r1.len() < ts.len() {
                    } else {
                        assert(r1c.len() == 0);
                    }
                }
                lemma_sp_form_printable(r1c);
                match sp_form(r1c) {
                    PRes::Parsed { v: target, rest: r2 } => {
                        let built = seq![
                            Val::Symbol(crate::reader::with_meta_sym()),
                            target,
                            meta,
                        ];
                        lemma_printable_items_iff(built);
                        assert(printable(built[0]));
                        assert(printable(built[1]));
                        assert(printable(built[2]));
                    },
                    PRes::Fail(_) => {},
                }
            },
            PRes::Fail(_) => {},
        }
    } else {
        // an atom token
        match atom_val(t) {
            Result::Ok(v) => {
                assert(printable(v)) by {
                    if t == nil_tok() || t == true_tok() || t == false_tok() {
                    } else if is_float_tok(t) {
                    } else if is_int_tok(t) {
                    } else if is_string_tok(t) {
                    } else if t.len() >= 1 && t[0] == ':' {
                        // a keyword: the token is a run, so its name is plain
                        assert(plain_run(t)) by {
                            assert(!(t.len() == 2 && t[0] == '~' && t[1] == '@'));
                            assert(!(t.len() == 1 && is_structural(t[0])));
                            assert(t[0] != '"');
                        }
                        assert forall|i: int|
                            0 <= i < t.drop_first().len() implies !ends_run(
                            #[trigger] t.drop_first()[i],
                        ) by {
                            assert(t.drop_first()[i] == t[i + 1]);
                        }
                    } else if t.len() >= 1 && t[0] == '"' {
                    } else {
                        // a symbol: the token is a run
                        assert(plain_run(t) && !is_structural(t[0]) && t[0] != ';') by {
                            assert(!(t.len() == 2 && t[0] == '~' && t[1] == '@'));
                            assert(!(t.len() == 1 && is_structural(t[0])));
                            assert(t[0] != '"');
                        }
                    }
                }
            },
            Result::Err(_) => {},
        }
    }
}

/// Whatever a bracketed sequence parses to is printable elementwise, and
/// what it leaves unconsumed is tokenizer-shaped again.
pub proof fn lemma_sp_seq_printable(ts: Seq<Seq<char>>, closer: char)
    requires
        all_wf(ts),
    ensures
        sp_seq(ts, closer) matches SRes::Items { items, rest } ==> (forall|i: int|
            0 <= i < items.len() ==> printable(#[trigger] items[i])) && all_wf(rest),
    decreases ts.len(), 1int,
{
    if ts.len() == 0 {
        return ;
    }
    assert(all_wf(ts.drop_first())) by {
        assert(forall|i: int| 0 <= i < ts.drop_first().len() ==> #[trigger] ts.drop_first()[i]
            == ts[i + 1]);
    }
    if ts[0].len() == 1 && ts[0][0] == closer {
    } else {
        lemma_sp_form_printable(ts);
        match sp_form(ts) {
            PRes::Parsed { v, rest } => {
                let restc = shorter(rest, ts.len() as int);
                assert(all_wf(restc)) by {
                    if rest.len() < ts.len() {
                    } else {
                        assert(restc.len() == 0);
                    }
                }
                lemma_sp_seq_printable(restc, closer);
                match sp_seq(restc, closer) {
                    SRes::Items { items, rest: r2 } => {
                        assert forall|i: int|
                            0 <= i < (seq![v] + items).len() implies printable(
                            #[trigger] (seq![v] + items)[i],
                        ) by {
                            if i == 0 {
                            } else {
                                assert((seq![v] + items)[i] == items[i - 1]);
                            }
                        }
                    },
                    SRes::Fail(_) => {},
                }
            },
            PRes::Fail(_) => {},
        }
    }
}

/// Whatever the reader yields is printable, so one reading pass always
/// normalizes: printing what was read and reading that text again gives
/// the same value.  This is the round trip in full.
pub proof fn lemma_read_normalizes(text: Seq<char>)
    ensures
        read_spec(text) matches Result::Ok(v) ==> printable(v) && read_spec(print_v(v, true))
            == Result::<Val, ErrV>::Ok(v),
{
    lemma_tokenize_wf(text);
    let ts = tokenize_spec(text);
    if ts.len() > 0 {
        lemma_sp_form_printable(ts);
        match sp_form(ts) {
            PRes::Parsed { v, rest } => {
                lemma_read_print_round_trip(v);
            },
            PRes::Fail(_) => {},
        }
    }
}

} // verus!
