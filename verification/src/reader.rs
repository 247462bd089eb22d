//! The reader: a tokenizer and a recursive-descent parser.
//!
//! `tokenize_spec` is the lexical grammar: repeated maximal matching of, in
//! priority order, the two-character splice marker, a single structural
//! character, a double-quoted string (an unterminated one is still captured,
//! so the parser can report a precise error), a line comment (discarded),
//! and a maximal run of ordinary characters.  Whitespace and commas only
//! separate tokens.  The parser spec `sp_form` consumes tokens with one
//! token of lookahead and builds the value tree; reader-macro prefixes
//! desugar to quoting forms.  The executable reader is proved to return
//! exactly what these spec functions describe.

use vstd::prelude::*;

use crate::env::chars_eq;
use crate::text::str_chars;
use crate::types::clone_chars;
use crate::types::names_view;
use crate::types::res_view;
use crate::types::tv;
use crate::types::tvs;
use crate::types::tv_pairs;
use crate::types::lemma_tvs;
use crate::types::ErrV;
use crate::types::MalError;
use crate::types::MalRes;
use crate::types::Token;
use crate::types::Val;

verus! {

/// Whitespace and commas: separators only, never tokens.
pub open spec fn is_ws(c: char) -> bool {
    c == ' ' || c == '\t' || c == '\n' || c == '\r' || c == ','
}

/// The characters that form one-character tokens.
pub open spec fn is_structural(c: char) -> bool {
    c == '[' || c == ']' || c == '{' || c == '}' || c == '(' || c == ')' || c == '\''
        || c == '`' || c == '~' || c == '^' || c == '@'
}

/// The characters that end a run of ordinary characters.
pub open spec fn ends_run(c: char) -> bool {
    is_ws(c) || c == '[' || c == ']' || c == '{' || c == '}' || c == '(' || c == ')'
        || c == '\'' || c == '"' || c == '`' || c == ';'
}

/// Where a string token that opened before `i` ends: just past the next
/// unescaped quote, or the end of the input if it never closes.
pub open spec fn str_scan(s: Seq<char>, i: int) -> int
    decreases s.len() - i,
{
    if i < 0 || i >= s.len() {
        s.len() as int
    } else if s[i] == '"' {
        i + 1
    } else if s[i] == '\\' {
        if i + 1 < s.len() {
            str_scan(s, i + 2)
        } else {
            s.len() as int
        }
    } else {
        str_scan(s, i + 1)
    }
}

/// Whether a string token that opened before `i` reaches a closing quote.
pub open spec fn str_closed(s: Seq<char>, i: int) -> bool
    decreases s.len() - i,
{
    if i < 0 || i >= s.len() {
        false
    } else if s[i] == '"' {
        true
    } else if s[i] == '\\' {
        if i + 1 < s.len() {
            str_closed(s, i + 2)
        } else {
            false
        }
    } else {
        str_closed(s, i + 1)
    }
}

/// Where a comment that starts at or before `i` ends: the next newline, or
/// the end of the input.
pub open spec fn comment_end(s: Seq<char>, i: int) -> int
    decreases s.len() - i,
{
    if i < 0 || i >= s.len() {
        s.len() as int
    } else if s[i] == '\n' {
        i
    } else {
        comment_end(s, i + 1)
    }
}

/// Where a run of ordinary characters that starts at or before `i` ends.
pub open spec fn run_end(s: Seq<char>, i: int) -> int
    decreases s.len() - i,
{
    if i < 0 || i >= s.len() {
        s.len() as int
    } else if ends_run(s[i]) {
        i
    } else {
        run_end(s, i + 1)
    }
}

/// `str_scan` stays between `i` and the end of the input.
pub proof fn lemma_str_scan_bounds(s: Seq<char>, i: int)
    requires
        0 <= i <= s.len(),
    ensures
        i <= str_scan(s, i) <= s.len(),
    decreases s.len() - i,
{
    if i < s.len() && s[i] != '"' {
        if s[i] == '\\' {
            if i + 1 < s.len() {
                lemma_str_scan_bounds(s, i + 2);
            }
        } else {
            lemma_str_scan_bounds(s, i + 1);
        }
    }
}

/// `comment_end` stays between `i` and the end of the input.
pub proof fn lemma_comment_end_bounds(s: Seq<char>, i: int)
    requires
        0 <= i <= s.len(),
    ensures
        i <= comment_end(s, i) <= s.len(),
    decreases s.len() - i,
{
    if i < s.len() && s[i] != '\n' {
        lemma_comment_end_bounds(s, i + 1);
    }
}

/// `run_end` stays between `i` and the end of the input.
pub proof fn lemma_run_end_bounds(s: Seq<char>, i: int)
    requires
        0 <= i <= s.len(),
    ensures
        i <= run_end(s, i) <= s.len(),
    decreases s.len() - i,
{
    if i < s.len() && !ends_run(s[i]) {
        lemma_run_end_bounds(s, i + 1);
    }
}

/// A progress bound clamped into `1 ..= len`, so that the tokenizer always
/// advances; the scans above stay in range anyway, so the clamp never binds.
pub open spec fn clamp_progress(n: int, len: int) -> int {
    if n < 1 {
        1
    } else if n > len {
        len
    } else {
        n
    }
}

/// The token texts of the input, in order: repeated maximal matching of the
/// splice marker, a structural character, a quoted string, a comment
/// (discarded), or a run of ordinary characters, after skipping separators.
pub open spec fn tokenize_spec(s: Seq<char>) -> Seq<Seq<char>>
    decreases s.len(),
{
    if s.len() == 0 {
        Seq::empty()
    } else if is_ws(s[0]) {
        tokenize_spec(s.drop_first())
    } else if s[0] == ';' {
        let n = clamp_progress(comment_end(s, 0), s.len() as int);
        tokenize_spec(s.skip(n))
    } else if s[0] == '~' && s.len() >= 2 && s[1] == '@' {
        seq![s.take(2)] + tokenize_spec(s.skip(2))
    } else if is_structural(s[0]) {
        seq![s.take(1)] + tokenize_spec(s.skip(1))
    } else if s[0] == '"' {
        let n = clamp_progress(str_scan(s, 1), s.len() as int);
        seq![s.take(n)] + tokenize_spec(s.skip(n))
    } else {
        let n = clamp_progress(run_end(s, 0), s.len() as int);
        seq![s.take(n)] + tokenize_spec(s.skip(n))
    }
}

/// Whitespace or comma, decided at run time.
fn is_ws_exec(c: char) -> (r: bool)
    ensures
        r == is_ws(c),
{
    c == ' ' || c == '\t' || c == '\n' || c == '\r' || c == ','
}

/// Structural character, decided at run time.
fn is_structural_exec(c: char) -> (r: bool)
    ensures
        r == is_structural(c),
{
    c == '[' || c == ']' || c == '{' || c == '}' || c == '(' || c == ')' || c == '\''
        || c == '`' || c == '~' || c == '^' || c == '@'
}

/// Run-ending character, decided at run time.
fn ends_run_exec(c: char) -> (r: bool)
    ensures
        r == ends_run(c),
{
    is_ws_exec(c) || c == '[' || c == ']' || c == '{' || c == '}' || c == '(' || c == ')'
        || c == '\'' || c == '"' || c == '`' || c == ';'
}

/// A copy of `chars[from .. to]`.
pub fn copy_range(chars: &Vec<char>, from: usize, to: usize) -> (r: Vec<char>)
    requires
        from <= to <= chars@.len(),
    ensures
        r@ == chars@.subrange(from as int, to as int),
{
    let mut out: Vec<char> = Vec::new();
    let mut i: usize = from;
    while i < to
        invariant
            from <= i <= to <= chars@.len(),
            out@ == chars@.subrange(from as int, i as int),
        decreases to - i,
    {
        out.push(chars[i]);
        proof {
            assert(out@ =~= chars@.subrange(from as int, i + 1));
        }
        i = i + 1;
    }
    out
}

/// Splits the input into its tokens.
pub fn tokenize(input: &str) -> (r: Vec<Vec<char>>)
    ensures
        names_view(r@) == tokenize_spec(input@),
{
    let chars = str_chars(input);
    let s = Ghost(input@);
    let mut toks: Vec<Vec<char>> = Vec::new();
    let mut p: usize = 0;
    proof {
        assert(s@.skip(0) =~= s@);
        assert(names_view(toks@) + tokenize_spec(s@) =~= tokenize_spec(s@));
    }
    while p < chars.len()
        invariant
            chars@ == s@,
            p <= s@.len(),
            tokenize_spec(s@) == names_view(toks@) + tokenize_spec(s@.skip(p as int)),
        decreases s@.len() - p,
    {
        let ghost local = s@.skip(p as int);
        proof {
            assert(local[0] == s@[p as int]);
        }
        let c = chars[p];
        if is_ws_exec(c) {
            proof {
                assert(local.drop_first() =~= s@.skip(p + 1));
            }
            p = p + 1;
        } else if c == ';' {
            // skip to end of line
            let mut q: usize = p + 1;
            while q < chars.len() && chars[q] != '\n'
                invariant
                    chars@ == s@,
                    p < q <= s@.len(),
                    local == s@.skip(p as int),
                    comment_end(local, 0) == comment_end(local, q - p),
                decreases s@.len() - q,
            {
                proof {
                    assert(local[q - p] == s@[q as int]);
                }
                q = q + 1;
            }
            proof {
                if q < s@.len() {
                    assert(local[q - p] == s@[q as int]);
                }
                assert(comment_end(local, q - p) == q - p);
                lemma_comment_end_bounds(local, 0);
                assert(clamp_progress(comment_end(local, 0), local.len() as int) == q - p);
                assert(local.skip(q - p) =~= s@.skip(q as int));
            }
            p = q;
        } else if c == '~' && p + 1 < chars.len() && chars[p + 1] == '@' {
            let tok = copy_range(&chars, p, p + 2);
            proof {
                assert(local[1] == s@[p + 1]);
                assert(tok@ =~= local.take(2));
                assert(local.skip(2) =~= s@.skip(p + 2));
                assert(names_view(toks@.push(tok)) =~= names_view(toks@) + seq![tok@]);
            }
            toks.push(tok);
            p = p + 2;
        } else if is_structural_exec(c) {
            let tok = copy_range(&chars, p, p + 1);
            proof {
                assert(tok@ =~= local.take(1));
                assert(local.skip(1) =~= s@.skip(p + 1));
                assert(names_view(toks@.push(tok)) =~= names_view(toks@) + seq![tok@]);
            }
            toks.push(tok);
            p = p + 1;
        } else if c == '"' {
            // scan for the closing unescaped quote
            let mut q: usize = p + 1;
            let mut end: usize = chars.len();
            let mut closed = false;
            while q < chars.len() && !closed
                invariant
                    chars@ == s@,
                    p < q,
                    q <= s@.len() + 1,
                    local == s@.skip(p as int),
                    !closed ==> q <= s@.len()
                        && str_scan(local, 1) == str_scan(local, q - p),
                    closed ==> q <= s@.len() + 1 && p < end
                        && end == q && end <= s@.len()
                        && str_scan(local, 1) == end - p,
                decreases s@.len() + 2 - q - (if closed { 1int } else { 0int }),
            {
                proof {
                    assert(local[q - p] == s@[q as int]);
                }
                let d = chars[q];
                if d == '"' {
                    end = q + 1;
                    closed = true;
                    q = q + 1;
                } else if d == '\\' {
                    if q + 1 < chars.len() {
                        q = q + 2;
                    } else {
                        proof {
                            assert(str_scan(local, q - p) == local.len());
                        }
                        q = chars.len();
                        proof {
                            assert(str_scan(local, q - p) == local.len());
                        }
                    }
                } else {
                    q = q + 1;
                }
            }
            if !closed {
                end = chars.len();
                proof {
                    assert(str_scan(local, q - p) == local.len());
                }
            }
            let tok = copy_range(&chars, p, end);
            proof {
                lemma_str_scan_bounds(local, 1);
                assert(str_scan(local, 1) == end - p);
                assert(clamp_progress(str_scan(local, 1), local.len() as int) == end - p);
                assert(tok@ =~= local.take(end - p));
                assert(local.skip(end - p) =~= s@.skip(end as int));
                assert(names_view(toks@.push(tok)) =~= names_view(toks@) + seq![tok@]);
            }
            toks.push(tok);
            p = end;
        } else {
            // a maximal run of ordinary characters
            let mut q: usize = p + 1;
            proof {
                assert(!ends_run(local[0]));
                assert(run_end(local, 0) == run_end(local, 1));
            }
            while q < chars.len() && !ends_run_exec(chars[q])
                invariant
                    chars@ == s@,
                    p < q <= s@.len(),
                    local == s@.skip(p as int),
                    run_end(local, 0) == run_end(local, q - p),
                decreases s@.len() - q,
            {
                proof {
                    assert(local[q - p] == s@[q as int]);
                }
                q = q + 1;
            }
            proof {
                if q < s@.len() {
                    assert(local[q - p] == s@[q as int]);
                }
                assert(run_end(local, q - p) == q - p);
                lemma_run_end_bounds(local, 0);
                assert(clamp_progress(run_end(local, 0), local.len() as int) == q - p);
            }
            let tok = copy_range(&chars, p, q);
            proof {
                assert(tok@ =~= local.take(q - p));
                assert(local.skip(q - p) =~= s@.skip(q as int));
                assert(names_view(toks@.push(tok)) =~= names_view(toks@) + seq![tok@]);
            }
            toks.push(tok);
            p = q;
        }
    }
    proof {
        assert(tokenize_spec(s@.skip(p as int)) =~= Seq::<Seq<char>>::empty());
        assert(names_view(toks@) =~= names_view(toks@) + tokenize_spec(s@.skip(p as int)));
    }
    toks
}


/// A decimal digit.
pub open spec fn is_digit(c: char) -> bool {
    c == '0' || c == '1' || c == '2' || c == '3' || c == '4' || c == '5' || c == '6'
        || c == '7' || c == '8' || c == '9'
}

/// The value of a decimal digit.
pub open spec fn digit_val(c: char) -> int {
    if c == '0' { 0 }
    else if c == '1' { 1 }
    else if c == '2' { 2 }
    else if c == '3' { 3 }
    else if c == '4' { 4 }
    else if c == '5' { 5 }
    else if c == '6' { 6 }
    else if c == '7' { 7 }
    else if c == '8' { 8 }
    else { 9 }
}

/// The value of a string of decimal digits.
pub open spec fn digits_val(s: Seq<char>) -> int
    decreases s,
{
    if s.len() == 0 {
        0
    } else {
        digits_val(s.drop_last()) * 10 + digit_val(s.last())
    }
}

/// A numeral without its optional leading minus sign.
pub open spec fn int_body(t: Seq<char>) -> Seq<char> {
    if t.len() > 0 && t[0] == '-' {
        t.drop_first()
    } else {
        t
    }
}

/// The integer-numeral pattern: an optional minus sign, then digits.
pub open spec fn is_int_tok(t: Seq<char>) -> bool {
    let b = int_body(t);
    b.len() >= 1 && (forall|j: int| 0 <= j < b.len() ==> is_digit(#[trigger] b[j]))
}

/// The decimal-numeral pattern: an optional minus sign, then digits with
/// exactly one decimal point among them.
pub open spec fn is_float_tok(t: Seq<char>) -> bool {
    let b = int_body(t);
    b.len() >= 2 && (exists|k: int|
        0 <= k < b.len() && b[k] == '.' && (forall|j: int|
            0 <= j < b.len() && j != k ==> is_digit(#[trigger] b[j])))
}

/// The signed value of an integer numeral.
pub open spec fn int_tok_val(t: Seq<char>) -> int {
    if t.len() > 0 && t[0] == '-' {
        -digits_val(t.drop_first())
    } else {
        digits_val(t)
    }
}

/// A complete quoted string: an opening quote whose scan reaches a closing
/// quote exactly at the end of the token.
pub open spec fn is_string_tok(t: Seq<char>) -> bool {
    t.len() >= 2 && t[0] == '"' && str_closed(t, 1) && str_scan(t, 1) == t.len()
}

/// What an escaped character stands for.
pub open spec fn unesc_char(c: char) -> char {
    if c == 'n' {
        '\n'
    } else {
        c
    }
}

/// A string's contents with its escapes resolved.
pub open spec fn unescape_seq(s: Seq<char>) -> Seq<char>
    decreases s.len(),
{
    if s.len() == 0 {
        Seq::empty()
    } else if s[0] == '\\' && s.len() >= 2 {
        seq![unesc_char(s[1])] + unescape_seq(s.skip(2))
    } else {
        seq![s[0]] + unescape_seq(s.skip(1))
    }
}

/// The literal token `nil`.
pub open spec fn nil_tok() -> Seq<char> {
    seq!['n', 'i', 'l']
}

/// The literal token `true`.
pub open spec fn true_tok() -> Seq<char> {
    seq!['t', 'r', 'u', 'e']
}

/// The literal token `false`.
pub open spec fn false_tok() -> Seq<char> {
    seq!['f', 'a', 'l', 's', 'e']
}

/// The value an atom token stands for: one of the three literals, a
/// numeral, a quoted string (unescaped), a keyword, or a symbol; an
/// unterminated string or an out-of-range integer numeral is an error.
pub open spec fn atom_val(t: Seq<char>) -> Result<Val, ErrV> {
    if t == nil_tok() {
        Result::Ok(Val::Nil)
    } else if t == true_tok() {
        Result::Ok(Val::Bool(true))
    } else if t == false_tok() {
        Result::Ok(Val::Bool(false))
    } else if is_float_tok(t) {
        Result::Ok(Val::Real(t))
    } else if is_int_tok(t) {
        let v = int_tok_val(t);
        if i64::MIN <= v <= i64::MAX {
            Result::Ok(Val::Integer(v as i64))
        } else {
            Result::Err(ErrV::ParseNumError(t))
        }
    } else if is_string_tok(t) {
        Result::Ok(Val::Str(unescape_seq(t.subrange(1, t.len() - 1))))
    } else if t.len() >= 1 && t[0] == ':' {
        Result::Ok(Val::Keyword(t.drop_first()))
    } else if t.len() >= 1 && t[0] == '"' {
        Result::Err(ErrV::Eof(seq!['"']))
    } else {
        Result::Ok(Val::Symbol(t))
    }
}

/// A decimal digit, decided at run time.
fn is_digit_exec(c: char) -> (r: bool)
    ensures
        r == is_digit(c),
{
    c == '0' || c == '1' || c == '2' || c == '3' || c == '4' || c == '5' || c == '6'
        || c == '7' || c == '8' || c == '9'
}

/// The value of a decimal digit, at run time.
fn digit_val_exec(c: char) -> (r: u64)
    requires
        is_digit(c),
    ensures
        r as int == digit_val(c),
{
    if c == '0' { 0 }
    else if c == '1' { 1 }
    else if c == '2' { 2 }
    else if c == '3' { 3 }
    else if c == '4' { 4 }
    else if c == '5' { 5 }
    else if c == '6' { 6 }
    else if c == '7' { 7 }
    else if c == '8' { 8 }
    else { 9 }
}

/// Whether the token is an integer numeral.
fn int_check(t: &Vec<char>) -> (r: bool)
    requires
        t@.len() >= 1,
    ensures
        r == is_int_tok(t@),
{
    let ghost b = int_body(t@);
    let off: usize = if t[0] == '-' { 1 } else { 0 };
    proof {
        assert(b.len() == t@.len() - off);
        assert(forall|jj: int| 0 <= jj < b.len() ==> b[jj] == t@[jj + off]);
    }
    if t.len() == off {
        return false;
    }
    let mut j: usize = off;
    while j < t.len()
        invariant
            off <= j <= t@.len(),
            b == int_body(t@),
            b.len() == t@.len() - off,
            forall|jj: int| 0 <= jj < b.len() ==> b[jj] == t@[jj + off],
            forall|jj: int| off <= jj < j ==> is_digit(#[trigger] t@[jj]),
        decreases t@.len() - j,
    {
        if !is_digit_exec(t[j]) {
            proof {
                assert(b[j - off] == t@[j as int]);
                assert(!is_int_tok(t@));
            }
            return false;
        }
        j = j + 1;
    }
    proof {
        assert forall|jj: int| 0 <= jj < b.len() implies is_digit(#[trigger] b[jj]) by {
            assert(b[jj] == t@[jj + off]);
        }
    }
    true
}

/// Whether the token is a decimal numeral.
fn float_check(t: &Vec<char>) -> (r: bool)
    requires
        t@.len() >= 1,
    ensures
        r == is_float_tok(t@),
{
    let ghost b = int_body(t@);
    let off: usize = if t[0] == '-' { 1 } else { 0 };
    proof {
        assert(b.len() == t@.len() - off);
        assert(forall|jj: int| 0 <= jj < b.len() ==> b[jj] == t@[jj + off]);
    }
    if t.len() < 2 + off {
        proof {
            assert(b.len() < 2);
        }
        return false;
    }
    let mut j: usize = off;
    let mut dots: usize = 0;
    let ghost mut d1: int = 0;
    let ghost mut d2: int = 0;
    while j < t.len()
        invariant
            off <= j <= t@.len(),
            dots <= 2,
            b == int_body(t@),
            b.len() == t@.len() - off,
            forall|jj: int| 0 <= jj < b.len() ==> b[jj] == t@[jj + off],
            forall|jj: int| off <= jj < j ==> (t@[jj] == '.' || is_digit(#[trigger] t@[jj])),
            dots >= 1 ==> off <= d1 < j && t@[d1] == '.',
            dots >= 2 ==> off <= d2 < j && d2 != d1 && t@[d2] == '.',
            dots == 0 ==> forall|jj: int| off <= jj < j ==> (#[trigger] t@[jj]) != '.',
            dots == 1 ==> forall|jj: int| off <= jj < j && jj != d1 ==> (#[trigger] t@[jj]) != '.',
        decreases t@.len() - j,
    {
        let c = t[j];
        if c == '.' {
            if dots == 0 {
                proof {
                    d1 = j as int;
                }
                dots = 1;
            } else if dots == 1 {
                proof {
                    d2 = j as int;
                }
                dots = 2;
            }
        } else if !is_digit_exec(c) {
            proof {
                let jb = j - off;
                assert(b[jb] == t@[j as int]);
                assert forall|k: int|
                    0 <= k < b.len() implies !(b[k] == '.' && (forall|jj: int|
                        0 <= jj < b.len() && jj != k ==> is_digit(#[trigger] b[jj]))) by {
                    if b[k] == '.' {
                        assert(jb != k);
                        assert(!is_digit(b[jb]));
                    }
                }
                assert(!is_float_tok(t@));
            }
            return false;
        }
        j = j + 1;
    }
    if dots == 1 {
        proof {
            let k = d1 - off;
            assert(b[k] == t@[d1]);
            assert forall|jj: int| 0 <= jj < b.len() && jj != k implies is_digit(#[trigger] b[jj]) by {
                assert(b[jj] == t@[jj + off]);
                assert(t@[jj + off] != '.');
            }
            assert(is_float_tok(t@));
        }
        true
    } else {
        proof {
            if dots == 0 {
                assert forall|k: int|
                    0 <= k < b.len() implies !(b[k] == '.' && (forall|jj: int|
                        0 <= jj < b.len() && jj != k ==> is_digit(#[trigger] b[jj]))) by {
                    assert(b[k] == t@[k + off]);
                }
            } else {
                assert(dots == 2);
                assert forall|k: int|
                    0 <= k < b.len() implies !(b[k] == '.' && (forall|jj: int|
                        0 <= jj < b.len() && jj != k ==> is_digit(#[trigger] b[jj]))) by {
                    if b[k] == '.' {
                        if k == d1 - off {
                            assert(b[d2 - off] == t@[d2]);
                            assert(!is_digit(b[d2 - off]));
                        } else {
                            assert(b[d1 - off] == t@[d1]);
                            assert(!is_digit(b[d1 - off]));
                        }
                    }
                }
            }
            assert(!is_float_tok(t@));
        }
        false
    }
}

/// The value of the digits `b[0 .. m]`, one more digit at a time.
proof fn lemma_digits_val_step(b: Seq<char>, m: int)
    requires
        0 <= m < b.len(),
    ensures
        digits_val(b.take(m + 1)) == digits_val(b.take(m)) * 10 + digit_val(b[m]),
{
    assert(b.take(m + 1).drop_last() =~= b.take(m));
    assert(b.take(m + 1).last() == b[m]);
}

/// A digit string's value is never negative.
proof fn lemma_digits_val_nonneg(b: Seq<char>)
    ensures
        (forall|j: int| 0 <= j < b.len() ==> is_digit(#[trigger] b[j])) ==> digits_val(b) >= 0,
    decreases b,
{
    if b.len() > 0 {
        lemma_digits_val_nonneg(b.drop_last());
        assert(forall|j: int| 0 <= j < b.drop_last().len() ==> b.drop_last()[j] == b[j]);
    }
}

/// Parses an integer numeral, rejecting values outside the 64-bit range.
fn parse_int(t: &Vec<char>) -> (r: MalRes<Token>)
    requires
        t@.len() >= 1,
        is_int_tok(t@),
    ensures
        ({
            let v = int_tok_val(t@);
            match r {
                Result::Ok(tok) => i64::MIN <= v <= i64::MAX && tok@ == Val::Integer(v as i64),
                Result::Err(e) => !(i64::MIN <= v <= i64::MAX) && e@ == ErrV::ParseNumError(t@),
            }
        }),
{
    let ghost b = int_body(t@);
    let neg = t[0] == '-';
    let off: usize = if neg { 1 } else { 0 };
    proof {
        assert(b.len() == t@.len() - off);
        assert(forall|jj: int| 0 <= jj < b.len() ==> b[jj] == t@[jj + off]);
        lemma_digits_val_nonneg(b);
    }
    let mut acc: u64 = 0;
    let mut over = false;
    let mut j: usize = off;
    proof {
        assert(b.take(0) =~= Seq::<char>::empty());
    }
    while j < t.len()
        invariant
            off <= j <= t@.len(),
            off <= 1,
            b == int_body(t@),
            b.len() == t@.len() - off,
            is_int_tok(t@),
            forall|jj: int| 0 <= jj < b.len() ==> b[jj] == t@[jj + off],
            forall|jj: int| 0 <= jj < b.len() ==> is_digit(#[trigger] b[jj]),
            !over ==> acc as int == digits_val(b.take(j - off)),
            over ==> digits_val(b.take(j - off)) > u64::MAX as int,
        decreases t@.len() - j,
    {
        let c = t[j];
        proof {
            assert(b[j - off] == t@[j as int]);
            lemma_digits_val_step(b, j - off);
        }
        let d = digit_val_exec(c);
        if over {
            proof {
                assert(digits_val(b.take(j - off)) > u64::MAX as int);
                assert(digits_val(b.take(j - off + 1))
                    == digits_val(b.take(j - off)) * 10 + digit_val(b[j - off]));
                assert(digits_val(b.take(j - off)) * 10 >= digits_val(b.take(j - off)));
            }
        } else {
            match acc.checked_mul(10) {
                Option::Some(x) => match x.checked_add(d) {
                    Option::Some(y) => {
                        acc = y;
                    },
                    Option::None => {
                        over = true;
                    },
                },
                Option::None => {
                    over = true;
                },
            }
        }
        j = j + 1;
    }
    proof {
        assert(b.take(b.len() as int) =~= b);
        if neg {
            assert(int_tok_val(t@) == -digits_val(b));
        } else {
            assert(int_tok_val(t@) == digits_val(b));
        }
    }
    if over {
        return Result::Err(MalError::ParseNumError(clone_chars(t)));
    }
    if neg {
        if acc <= 9223372036854775807u64 {
            Result::Ok(Token::Integer(-(acc as i64)))
        } else if acc == 9223372036854775808u64 {
            Result::Ok(Token::Integer(i64::MIN))
        } else {
            Result::Err(MalError::ParseNumError(clone_chars(t)))
        }
    } else {
        if acc <= 9223372036854775807u64 {
            Result::Ok(Token::Integer(acc as i64))
        } else {
            Result::Err(MalError::ParseNumError(clone_chars(t)))
        }
    }
}

/// The escape resolved at run time.
fn unesc_exec(c: char) -> (r: char)
    ensures
        r == unesc_char(c),
{
    if c == 'n' {
        '\n'
    } else {
        c
    }
}

/// A string's contents with its escapes resolved.
pub fn unescape(s: &Vec<char>) -> (r: Vec<char>)
    ensures
        r@ == unescape_seq(s@),
{
    let mut out: Vec<char> = Vec::new();
    let mut i: usize = 0;
    proof {
        assert(s@.skip(0) =~= s@);
        assert(out@ + unescape_seq(s@) =~= unescape_seq(s@));
    }
    while i < s.len()
        invariant
            i <= s@.len(),
            unescape_seq(s@) == out@ + unescape_seq(s@.skip(i as int)),
        decreases s@.len() - i,
    {
        let ghost rest = s@.skip(i as int);
        proof {
            assert(rest[0] == s@[i as int]);
        }
        let c = s[i];
        if c == '\\' && i + 1 < s.len() {
            proof {
                assert(rest[1] == s@[i + 1]);
                assert(rest.skip(2) =~= s@.skip(i + 2));
            }
            out.push(unesc_exec(s[i + 1]));
            proof {
                assert(out@ + unescape_seq(s@.skip(i + 2)) =~= unescape_seq(s@));
            }
            i = i + 2;
        } else {
            proof {
                assert(rest.skip(1) =~= s@.skip(i + 1));
            }
            out.push(c);
            proof {
                assert(out@ + unescape_seq(s@.skip(i + 1)) =~= unescape_seq(s@));
            }
            i = i + 1;
        }
    }
    proof {
        assert(unescape_seq(s@.skip(s@.len() as int)) =~= Seq::<char>::empty());
        assert(out@ =~= out@ + unescape_seq(s@.skip(s@.len() as int)));
    }
    out
}

/// Reads one atom token: a literal, a numeral, a string, a keyword, or a
/// symbol.
pub fn read_atom(t: &Vec<char>) -> (r: MalRes<Token>)
    ensures
        res_view(r) == atom_val(t@),
{
    if t.len() == 0 {
        proof {
            assert(atom_val(t@) == Result::<Val, ErrV>::Ok(Val::Symbol(t@)));
        }
        return Result::Ok(Token::Symbol(clone_chars(t)));
    }
    let nil_t: Vec<char> = vec!['n', 'i', 'l'];
    let true_t: Vec<char> = vec!['t', 'r', 'u', 'e'];
    let false_t: Vec<char> = vec!['f', 'a', 'l', 's', 'e'];
    proof {
        assert(nil_t@ =~= nil_tok());
        assert(true_t@ =~= true_tok());
        assert(false_t@ =~= false_tok());
    }
    if chars_eq(t, &nil_t) {
        return Result::Ok(Token::Nil);
    }
    if chars_eq(t, &true_t) {
        return Result::Ok(Token::Bool(true));
    }
    if chars_eq(t, &false_t) {
        return Result::Ok(Token::Bool(false));
    }
    if float_check(t) {
        return Result::Ok(Token::Real(clone_chars(t)));
    }
    if int_check(t) {
        return parse_int(t);
    }
    // a complete quoted string?
    if t[0] == '"' {
        let mut q: usize = 1;
        let mut closed = false;
        let mut end: usize = t.len();
        while q < t.len() && !closed
            invariant
                1 <= q,
                q <= t@.len() + 1,
                t@.len() >= 1,
                t@[0] == '"',
                !closed ==> q <= t@.len()
                    && str_scan(t@, 1) == str_scan(t@, q as int)
                    && str_closed(t@, 1) == str_closed(t@, q as int),
                closed ==> end == q && end <= t@.len()
                    && str_scan(t@, 1) == end as int && str_closed(t@, 1),
            decreases t@.len() + 2 - q - (if closed { 1int } else { 0int }),
        {
            let d = t[q];
            if d == '"' {
                end = q + 1;
                closed = true;
                q = q + 1;
            } else if d == '\\' {
                if q + 1 < t.len() {
                    q = q + 2;
                } else {
                    proof {
                        assert(str_scan(t@, q as int) == t@.len());
                        assert(!str_closed(t@, q as int));
                    }
                    q = t.len();
                    proof {
                        assert(str_scan(t@, q as int) == t@.len());
                        assert(!str_closed(t@, q as int));
                    }
                }
            } else {
                q = q + 1;
            }
        }
        if closed && end == t.len() && t.len() >= 2 {
            proof {
                assert(is_string_tok(t@));
            }
            let inner = copy_range(t, 1, t.len() - 1);
            let un = unescape(&inner);
            proof {
                assert(un@ == unescape_seq(t@.subrange(1, t@.len() - 1)));
            }
            return Result::Ok(Token::Str(un));
        }
        proof {
            if !closed {
                assert(!str_closed(t@, q as int));
                assert(!is_string_tok(t@));
            } else {
                if end != t@.len() {
                    assert(str_scan(t@, 1) != t@.len());
                    assert(!is_string_tok(t@));
                } else {
                    assert(t@.len() < 2);
                    assert(!is_string_tok(t@));
                }
            }
            assert(t@[0] != ':');
        }
        let quote_t: Vec<char> = vec!['"'];
        proof {
            assert(quote_t@ =~= seq!['"']);
        }
        return Result::Err(MalError::Eof(quote_t));
    }
    if t[0] == ':' {
        let name = copy_range(t, 1, t.len());
        proof {
            assert(name@ =~= t@.drop_first());
        }
        return Result::Ok(Token::Keyword(name));
    }
    proof {
        assert(atom_val(t@) == Result::<Val, ErrV>::Ok(Val::Symbol(t@)));
    }
    Result::Ok(Token::Symbol(clone_chars(t)))
}


/// The name `quote`.
pub open spec fn quote_sym() -> Seq<char> {
    seq!['q', 'u', 'o', 't', 'e']
}

/// The name `quasiquote`.
pub open spec fn quasiquote_sym() -> Seq<char> {
    seq!['q', 'u', 'a', 's', 'i', 'q', 'u', 'o', 't', 'e']
}

/// The name `unquote`.
pub open spec fn unquote_sym() -> Seq<char> {
    seq!['u', 'n', 'q', 'u', 'o', 't', 'e']
}

/// The name `splice-unquote`.
pub open spec fn splice_unquote_sym() -> Seq<char> {
    seq!['s', 'p', 'l', 'i', 'c', 'e', '-', 'u', 'n', 'q', 'u', 'o', 't', 'e']
}

/// The name `deref`.
pub open spec fn deref_sym() -> Seq<char> {
    seq!['d', 'e', 'r', 'e', 'f']
}

/// The name `with-meta`.
pub open spec fn with_meta_sym() -> Seq<char> {
    seq!['w', 'i', 't', 'h', '-', 'm', 'e', 't', 'a']
}

/// The closing bracket matching an opening one.
pub open spec fn closer_for(c: char) -> char {
    if c == '(' {
        ')'
    } else if c == '[' {
        ']'
    } else {
        '}'
    }
}

/// A value that may serve as a map key.
pub open spec fn is_map_key(v: Val) -> bool {
    v is Str || v is Keyword
}

/// The index of the first map entry with key `k`, or -1 if none has it.
pub open spec fn vkey_idx(ps: Seq<(Val, Val)>, k: Val) -> int
    decreases ps,
{
    if ps.len() == 0 {
        -1
    } else if ps[0].0 == k {
        0
    } else {
        let r = vkey_idx(ps.drop_first(), k);
        if r < 0 {
            -1
        } else {
            r + 1
        }
    }
}

/// `vkey_idx` finds the first entry with key `k`, and -1 only when none
/// has it.
pub broadcast proof fn lemma_vkey_idx(ps: Seq<(Val, Val)>, k: Val)
    ensures
        -1 <= #[trigger] vkey_idx(ps, k) < ps.len(),
        vkey_idx(ps, k) >= 0 ==> ps[vkey_idx(ps, k)].0 == k,
        forall|j: int| 0 <= j < ps.len() && j < vkey_idx(ps, k) ==> (#[trigger] ps[j]).0 != k,
        vkey_idx(ps, k) == -1 ==> forall|j: int|
            0 <= j < ps.len() ==> (#[trigger] ps[j]).0 != k,
    decreases ps,
{
    if ps.len() > 0 {
        lemma_vkey_idx(ps.drop_first(), k);
        if ps[0].0 != k {
            let rest = ps.drop_first();
            assert forall|j: int| 0 <= j < ps.len() && j < vkey_idx(ps, k) implies (
                #[trigger] ps[j]).0 != k by {
                if j > 0 {
                    assert(rest[j - 1] == ps[j]);
                }
            }
            if vkey_idx(rest, k) < 0 {
                assert forall|j: int| 0 <= j < ps.len() implies (#[trigger] ps[j]).0 != k by {
                    if j > 0 {
                        assert(rest[j - 1] == ps[j]);
                    }
                }
            } else {
                assert(ps[vkey_idx(rest, k) + 1] == rest[vkey_idx(rest, k)]);
            }
        }
    }
}

/// The map after binding `k` to `v`: the first entry with key `k` is
/// replaced, or a new entry is appended.
pub open spec fn map_put(ps: Seq<(Val, Val)>, k: Val, v: Val) -> Seq<(Val, Val)> {
    if vkey_idx(ps, k) >= 0 {
        ps.update(vkey_idx(ps, k), (k, v))
    } else {
        ps.push((k, v))
    }
}

/// Folds a flat key/value sequence into map entries, left to right; a key
/// bound twice keeps its later value.
pub open spec fn build_pairs(items: Seq<Val>, acc: Seq<(Val, Val)>) -> Result<
    Seq<(Val, Val)>,
    ErrV,
>
    decreases items.len(),
{
    if items.len() == 0 {
        Result::Ok(acc)
    } else if !is_map_key(items[0]) {
        Result::Err(ErrV::MapKey(items[0]))
    } else if items.len() == 1 {
        Result::Err(ErrV::MistmatchKeyValue)
    } else {
        build_pairs(items.skip(2), map_put(acc, items[0], items[1]))
    }
}

/// The collection a bracketed sequence builds: a list, a vector, or a map;
/// a map literal fails on an odd element count or a non-string key.
pub open spec fn collection_val(opener: char, items: Seq<Val>) -> Result<Val, ErrV> {
    if opener == '(' {
        Result::Ok(Val::List(items))
    } else if opener == '[' {
        Result::Ok(Val::Vector(items))
    } else {
        if items.len() % 2 == 1 {
            Result::Err(ErrV::MistmatchKeyValue)
        } else {
            match build_pairs(items, Seq::empty()) {
                Result::Ok(ps) => Result::Ok(Val::Hashmap(ps)),
                Result::Err(e) => Result::Err(e),
            }
        }
    }
}

/// What parsing one form from a token sequence yields.
pub enum PRes {
    Parsed { v: Val, rest: Seq<Seq<char>> },
    Fail(ErrV),
}

/// What parsing a bracketed sequence of forms yields.
pub enum SRes {
    Items { items: Seq<Val>, rest: Seq<Seq<char>> },
    Fail(ErrV),
}

/// `rest` if it is shorter than `bound`, else nothing.  A parse always
/// consumes tokens, so the clamp never binds; it only makes the recursion
/// below visibly terminating.
pub open spec fn shorter(rest: Seq<Seq<char>>, bound: int) -> Seq<Seq<char>> {
    if rest.len() < bound {
        rest
    } else {
        Seq::empty()
    }
}

/// Parses one form: a bracketed sequence, a reader-macro prefix desugared
/// to its quoting form, or an atom.  A bare closer fails.
pub open spec fn sp_form(ts: Seq<Seq<char>>) -> PRes
    decreases ts.len(), 0int,
{
    if ts.len() == 0 {
        PRes::Fail(ErrV::Peek)
    } else {
        let t = ts[0];
        if t.len() == 1 && (t[0] == '(' || t[0] == '[' || t[0] == '{') {
            match sp_seq(ts.drop_first(), closer_for(t[0])) {
                SRes::Items { items, rest } => match collection_val(t[0], items) {
                    Result::Ok(v) => PRes::Parsed { v, rest },
                    Result::Err(e) => PRes::Fail(e),
                },
                SRes::Fail(e) => PRes::Fail(e),
            }
        } else if t.len() == 1 && (t[0] == ')' || t[0] == ']' || t[0] == '}') {
            PRes::Fail(ErrV::Brace(t[0]))
        } else if t.len() == 1 && t[0] == '\'' {
            sp_wrap(quote_sym(), sp_form(ts.drop_first()))
        } else if t.len() == 1 && t[0] == '`' {
            sp_wrap(quasiquote_sym(), sp_form(ts.drop_first()))
        } else if t.len() == 1 && t[0] == '~' {
            sp_wrap(unquote_sym(), sp_form(ts.drop_first()))
        } else if t.len() == 2 && t[0] == '~' && t[1] == '@' {
            sp_wrap(splice_unquote_sym(), sp_form(ts.drop_first()))
        } else if t.len() == 1 && t[0] == '@' {
            sp_wrap(deref_sym(), sp_form(ts.drop_first()))
        } else if t.len() == 1 && t[0] == '^' {
            match sp_form(ts.drop_first()) {
                PRes::Parsed { v: meta, rest: r1 } => match sp_form(
                    shorter(r1, ts.len() as int),
                ) {
                    PRes::Parsed { v: target, rest: r2 } => PRes::Parsed {
                        v: Val::List(
                            seq![Val::Symbol(with_meta_sym()), target, meta],
                        ),
                        rest: r2,
                    },
                    PRes::Fail(e) => PRes::Fail(e),
                },
                PRes::Fail(e) => PRes::Fail(e),
            }
        } else {
            match atom_val(t) {
                Result::Ok(v) => PRes::Parsed { v, rest: ts.drop_first() },
                Result::Err(e) => PRes::Fail(e),
            }
        }
    }
}

/// Wraps a parsed form in a two-element quoting list.
pub open spec fn sp_wrap(name: Seq<char>, inner: PRes) -> PRes {
    match inner {
        PRes::Parsed { v, rest } => PRes::Parsed {
            v: Val::List(seq![Val::Symbol(name), v]),
            rest,
        },
        PRes::Fail(e) => PRes::Fail(e),
    }
}

/// Parses forms until the matching closer; running out of tokens first is
/// an end-of-input error naming the expected closer.
pub open spec fn sp_seq(ts: Seq<Seq<char>>, closer: char) -> SRes
    decreases ts.len(), 1int,
{
    if ts.len() == 0 {
        SRes::Fail(ErrV::Eof(seq![closer]))
    } else if ts[0].len() == 1 && ts[0][0] == closer {
        SRes::Items { items: Seq::empty(), rest: ts.drop_first() }
    } else {
        match sp_form(ts) {
            PRes::Parsed { v, rest } => match sp_seq(shorter(rest, ts.len() as int), closer) {
                SRes::Items { items, rest: r2 } => SRes::Items {
                    items: seq![v] + items,
                    rest: r2,
                },
                SRes::Fail(e) => SRes::Fail(e),
            },
            PRes::Fail(e) => seq_fail(e),
        }
    }
}

/// A form-level failure, as a sequence-level failure.
pub open spec fn seq_fail(e: ErrV) -> SRes {
    SRes::Fail(e)
}

/// What reading a whole text yields: its first form, or `Empty` when the
/// text holds no tokens at all.
pub open spec fn read_spec(s: Seq<char>) -> Result<Val, ErrV> {
    let ts = tokenize_spec(s);
    if ts.len() == 0 {
        Result::Err(ErrV::Empty)
    } else {
        match sp_form(ts) {
            PRes::Parsed { v, rest } => Result::Ok(v),
            PRes::Fail(e) => Result::Err(e),
        }
    }
}


/// Whether the value may serve as a map key, at run time.
fn is_map_key_exec(t: &Token) -> (r: bool)
    ensures
        r == is_map_key(t@),
{
    match t {
        Token::Str(_) => true,
        Token::Keyword(_) => true,
        _ => false,
    }
}

/// Equality of two map keys, at run time.
fn map_key_eq(a: &Token, b: &Token) -> (r: bool)
    requires
        is_map_key(a@),
        is_map_key(b@),
    ensures
        r == (a@ == b@),
{
    match (a, b) {
        (Token::Str(x), Token::Str(y)) => chars_eq(x, y),
        (Token::Keyword(x), Token::Keyword(y)) => chars_eq(x, y),
        _ => false,
    }
}

/// Binds `k` to `v` in a map under construction, replacing any earlier
/// entry with the same key.
fn map_put_exec(ps: &mut Vec<(Token, Token)>, k: Token, v: Token)
    requires
        is_map_key(k@),
        forall|i: int| 0 <= i < old(ps)@.len() ==> is_map_key((#[trigger] old(ps)@[i]).0@),
    ensures
        tv_pairs(final(ps)@) == map_put(tv_pairs(old(ps)@), k@, v@),
        forall|i: int| 0 <= i < final(ps)@.len() ==> is_map_key((#[trigger] final(ps)@[i]).0@),
{
    let ghost pv = tv_pairs(ps@);
    let ghost kk = k@;
    let ghost vv = v@;
    proof {
        crate::types::lemma_tv_pairs(ps@);
        lemma_vkey_idx(pv, kk);
    }
    let mut i: usize = 0;
    let n = ps.len();
    let mut found = false;
    while i < n && !found
        invariant
            n == ps@.len(),
            pv == tv_pairs(ps@),
            pv.len() == n,
            i <= n,
            kk == k@,
            is_map_key(kk),
            forall|j: int| 0 <= j < ps@.len() ==> is_map_key((#[trigger] ps@[j]).0@),
            forall|j: int| 0 <= j < pv.len() ==> (#[trigger] pv[j])
                == (tv(ps@[j].0), tv(ps@[j].1)),
            forall|j: int| 0 <= j < i ==> (#[trigger] pv[j]).0 != kk,
            found ==> i < n && pv[i as int].0 == kk,
        decreases n - i + (if found { 0int } else { 1int }),
    {
        if map_key_eq(&ps[i].0, &k) {
            found = true;
        } else {
            i = i + 1;
        }
    }
    if found {
        proof {
            lemma_vkey_idx(pv, kk);
            assert(vkey_idx(pv, kk) == i);
        }
        ps.set(i, (k, v));
        proof {
            crate::types::lemma_tv_pairs(ps@);
            assert(tv_pairs(ps@) =~= map_put(pv, kk, vv));
        }
    } else {
        proof {
            lemma_vkey_idx(pv, kk);
            assert(vkey_idx(pv, kk) == -1);
        }
        ps.push((k, v));
        proof {
            crate::types::lemma_tv_pairs(ps@);
            assert(tv_pairs(ps@) =~= map_put(pv, kk, vv));
        }
    }
}

/// Builds the collection a bracketed sequence stands for.
fn build_collection(opener: char, items: Vec<Token>) -> (r: MalRes<Token>)
    requires
        opener == '(' || opener == '[' || opener == '{',
    ensures
        res_view(r) == collection_val(opener, tvs(items@)),
{
    proof {
        lemma_tvs(items@);
    }
    if opener == '(' {
        return Result::Ok(Token::List(items));
    }
    if opener == '[' {
        return Result::Ok(Token::Vector(items));
    }
    if items.len() % 2 == 1 {
        return Result::Err(MalError::MistmatchKeyValue);
    }
    let ghost full = tvs(items@);
    let mut acc: Vec<(Token, Token)> = Vec::new();
    let mut i: usize = 0;
    proof {
        assert(full.skip(0) =~= full);
        assert(tv_pairs(acc@) =~= Seq::<(Val, Val)>::empty());
    }
    while i < items.len()
        invariant
            opener == '{',
            i <= items@.len(),
            i % 2 == 0,
            items@.len() % 2 == 0,
            full == tvs(items@),
            full.len() == items@.len(),
            forall|j: int| 0 <= j < full.len() ==> (#[trigger] full[j]) == tv(items@[j]),
            forall|j: int| 0 <= j < acc@.len() ==> is_map_key((#[trigger] acc@[j]).0@),
            build_pairs(full, Seq::empty()) == build_pairs(full.skip(i as int), tv_pairs(acc@)),
        decreases items@.len() - i,
    {
        let ghost rest = full.skip(i as int);
        proof {
            assert(rest[0] == full[i as int]);
            assert(rest[1] == full[i + 1]);
            assert(rest.len() >= 2);
        }
        let k = items[i].duplicate();
        if !is_map_key_exec(&k) {
            proof {
                assert(k@ == full[i as int]);
                assert(build_pairs(rest, tv_pairs(acc@)) == Result::<Seq<(Val, Val)>, ErrV>::Err(
                    ErrV::MapKey(full[i as int]),
                ));
                assert(build_pairs(full, Seq::empty()) == Result::<Seq<(Val, Val)>, ErrV>::Err(
                    ErrV::MapKey(k@),
                ));
                assert(collection_val(opener, tvs(items@)) == Result::<Val, ErrV>::Err(
                    ErrV::MapKey(k@),
                ));
            }
            return Result::Err(MalError::MapKey(k));
        }
        let v = items[i + 1].duplicate();
        let ghost accv = tv_pairs(acc@);
        map_put_exec(&mut acc, k, v);
        proof {
            assert(rest.skip(2) =~= full.skip(i + 2));
            assert(build_pairs(rest, accv) == build_pairs(
                full.skip(i + 2),
                map_put(accv, full[i as int], full[i + 1]),
            ));
        }
        i = i + 2;
    }
    proof {
        assert(full.skip(items@.len() as int).len() == 0);
        assert(build_pairs(full, Seq::empty()) == Result::<Seq<(Val, Val)>, ErrV>::Ok(
            tv_pairs(acc@),
        ));
    }
    Result::Ok(Token::Hashmap(acc))
}

/// The tokens not yet consumed, from position `pos` on.
pub open spec fn rem_toks(toks: Seq<Vec<char>>, pos: int) -> Seq<Seq<char>> {
    names_view(toks).skip(pos)
}

/// Builds the two-element quoting list around a parsed form.
fn wrap_quoting(name: Vec<char>, inner: Token) -> (r: Token)
    ensures
        r@ == Val::List(seq![Val::Symbol(name@), inner@]),
{
    let mut lst: Vec<Token> = Vec::new();
    lst.push(Token::Symbol(name));
    lst.push(inner);
    proof {
        lemma_tvs(lst@);
        assert(tvs(lst@) =~= seq![tv(lst@[0]), tv(lst@[1])]);
    }
    Token::List(lst)
}

/// Parses one form from the tokens, starting at `pos`; returns the result
/// and the position just past what was consumed.
fn parse_form(toks: &Vec<Vec<char>>, pos: usize) -> (r: (MalRes<Token>, usize))
    requires
        pos <= toks@.len(),
    ensures
        r.1 <= toks@.len(),
        match r.0 {
            Result::Ok(t) => pos < r.1 && sp_form(rem_toks(toks@, pos as int)) == (PRes::Parsed {
                v: t@,
                rest: rem_toks(toks@, r.1 as int),
            }),
            Result::Err(e) => sp_form(rem_toks(toks@, pos as int)) == PRes::Fail(e@),
        },
    decreases toks@.len() - pos, 0int,
{
    let ghost ts = rem_toks(toks@, pos as int);
    if pos == toks.len() {
        proof {
            assert(ts.len() == 0);
        }
        return (Result::Err(MalError::Peek), pos);
    }
    proof {
        assert(ts.len() == toks@.len() - pos);
        assert(ts[0] == toks@[pos as int]@);
        assert(ts.drop_first() =~= rem_toks(toks@, pos + 1));
    }
    let tok = &toks[pos];
    if tok.len() == 1 {
        let c = tok[0];
        if c == '(' || c == '[' || c == '{' {
            let closer = if c == '(' { ')' } else if c == '[' { ']' } else { '}' };
            proof {
                assert(closer == closer_for(c));
            }
            let (res, np) = parse_seq(toks, pos + 1, closer);
            match res {
                Result::Ok(items) => {
                    let built = build_collection(c, items);
                    match built {
                        Result::Ok(v) => {
                            return (Result::Ok(v), np);
                        },
                        Result::Err(e) => {
                            return (Result::Err(e), np);
                        },
                    }
                },
                Result::Err(e) => {
                    return (Result::Err(e), np);
                },
            }
        }
        if c == ')' || c == ']' || c == '}' {
            return (Result::Err(MalError::Brace(c)), pos);
        }
        if c == '\'' || c == '`' || c == '~' || c == '@' {
            let name: Vec<char> = if c == '\'' {
                vec!['q', 'u', 'o', 't', 'e']
            } else if c == '`' {
                vec!['q', 'u', 'a', 's', 'i', 'q', 'u', 'o', 't', 'e']
            } else if c == '~' {
                vec!['u', 'n', 'q', 'u', 'o', 't', 'e']
            } else {
                vec!['d', 'e', 'r', 'e', 'f']
            };
            proof {
                if c == '\'' {
                    assert(name@ =~= quote_sym());
                } else if c == '`' {
                    assert(name@ =~= quasiquote_sym());
                } else if c == '~' {
                    assert(name@ =~= unquote_sym());
                } else {
                    assert(name@ =~= deref_sym());
                }
            }
            let (res, np) = parse_form(toks, pos + 1);
            match res {
                Result::Ok(inner) => {
                    let out = wrap_quoting(name, inner);
                    return (Result::Ok(out), np);
                },
                Result::Err(e) => {
                    return (Result::Err(e), np);
                },
            }
        }
        if c == '^' {
            let (mres, p1) = parse_form(toks, pos + 1);
            match mres {
                Result::Ok(meta) => {
                    proof {
                        assert(rem_toks(toks@, p1 as int).len() < ts.len());
                        assert(shorter(rem_toks(toks@, p1 as int), ts.len() as int)
                            == rem_toks(toks@, p1 as int));
                    }
                    let (tres, p2) = parse_form(toks, p1);
                    match tres {
                        Result::Ok(target) => {
                            let name: Vec<char> = vec!['w', 'i', 't', 'h', '-', 'm', 'e', 't', 'a'];
                            proof {
                                assert(name@ =~= with_meta_sym());
                            }
                            let mut lst: Vec<Token> = Vec::new();
                            lst.push(Token::Symbol(name));
                            lst.push(target);
                            lst.push(meta);
                            proof {
                                lemma_tvs(lst@);
                                assert(tvs(lst@) =~= seq![tv(lst@[0]), tv(lst@[1]), tv(lst@[2])]);
                            }
                            return (Result::Ok(Token::List(lst)), p2);
                        },
                        Result::Err(e) => {
                            return (Result::Err(e), p2);
                        },
                    }
                },
                Result::Err(e) => {
                    return (Result::Err(e), p1);
                },
            }
        }
    }
    if tok.len() == 2 {
        let c0 = tok[0];
        let c1 = tok[1];
        if c0 == '~' && c1 == '@' {
            let name: Vec<char> = vec![
                's', 'p', 'l', 'i', 'c', 'e', '-', 'u', 'n', 'q', 'u', 'o', 't', 'e',
            ];
            proof {
                assert(name@ =~= splice_unquote_sym());
            }
            let (res, np) = parse_form(toks, pos + 1);
            match res {
                Result::Ok(inner) => {
                    let out = wrap_quoting(name, inner);
                    return (Result::Ok(out), np);
                },
                Result::Err(e) => {
                    return (Result::Err(e), np);
                },
            }
        }
    }
    let ares = read_atom(tok);
    match ares {
        Result::Ok(t) => (Result::Ok(t), pos + 1),
        Result::Err(e) => (Result::Err(e), pos),
    }
}

/// Parses forms until the matching closer, starting at `pos`.
fn parse_seq(toks: &Vec<Vec<char>>, pos: usize, closer: char) -> (r: (MalRes<Vec<Token>>, usize))
    requires
        pos <= toks@.len(),
    ensures
        r.1 <= toks@.len(),
        match r.0 {
            Result::Ok(items) => pos < r.1 && sp_seq(rem_toks(toks@, pos as int), closer)
                == (SRes::Items { items: tvs(items@), rest: rem_toks(toks@, r.1 as int) }),
            Result::Err(e) => sp_seq(rem_toks(toks@, pos as int), closer) == SRes::Fail(e@),
        },
    decreases toks@.len() - pos, 1int,
{
    let ghost ts = rem_toks(toks@, pos as int);
    if pos == toks.len() {
        let expected: Vec<char> = vec![closer];
        proof {
            assert(ts.len() == 0);
            assert(expected@ =~= seq![closer]);
        }
        return (Result::Err(MalError::Eof(expected)), pos);
    }
    proof {
        assert(ts.len() == toks@.len() - pos);
        assert(ts[0] == toks@[pos as int]@);
        assert(ts.drop_first() =~= rem_toks(toks@, pos + 1));
    }
    let tok = &toks[pos];
    if tok.len() == 1 && tok[0] == closer {
        let items: Vec<Token> = Vec::new();
        proof {
            lemma_tvs(items@);
            assert(tvs(items@) =~= Seq::<Val>::empty());
        }
        return (Result::Ok(items), pos + 1);
    }
    let (fres, p1) = parse_form(toks, pos);
    match fres {
        Result::Err(e) => (Result::Err(e), p1),
        Result::Ok(v) => {
            proof {
                assert(rem_toks(toks@, p1 as int).len() < ts.len());
                assert(shorter(rem_toks(toks@, p1 as int), ts.len() as int)
                    == rem_toks(toks@, p1 as int));
            }
            let (sres, p2) = parse_seq(toks, p1, closer);
            match sres {
                Result::Err(e) => (Result::Err(e), p2),
                Result::Ok(mut items) => {
                    let ghost pre = items@;
                    let ghost before = tvs(pre);
                    proof {
                        lemma_tvs(pre);
                    }
                    items.insert(0, v);
                    proof {
                        lemma_tvs(items@);
                        assert(items@ =~= seq![v] + pre);
                        assert(items@.len() == pre.len() + 1);
                        assert(items@[0] == v);
                        assert forall|j: int| 0 <= j < items@.len() implies tvs(items@)[j]
                            == (seq![v@] + before)[j] by {
                            if j > 0 {
                                assert(items@[j] == pre[j - 1]);
                            }
                        }
                        assert(tvs(items@) =~= seq![v@] + before);
                    }
                    (Result::Ok(items), p2)
                },
            }
        },
    }
}

/// Reads the first form of the text; fails with `Empty` when the text
/// holds no tokens at all.  Tokens after the first form are ignored.
pub fn read_str(input: &str) -> (res: MalRes<Token>)
    ensures
        res_view(res) == read_spec(input@),
{
    let toks = tokenize(input);
    if toks.len() == 0 {
        proof {
            assert(names_view(toks@).len() == 0);
        }
        return Result::Err(MalError::Empty);
    }
    proof {
        assert(rem_toks(toks@, 0) =~= names_view(toks@));
    }
    let (res, _np) = parse_form(&toks, 0);
    res
}

/// Reads the first form of the text, as `read_str` does.
pub fn read(input: &str) -> (res: MalRes<Token>)
    ensures
        res_view(res) == read_spec(input@),
{
    read_str(input)
}

/// A token stream with one token of lookahead.
pub struct Reader {
    pub tokens: Vec<Vec<char>>,
    pub index: usize,
}

impl Reader {
    /// The stream has not run past its end.
    pub open spec fn wf(&self) -> bool {
        self.index <= self.tokens@.len()
    }

    /// The tokens not yet consumed.
    pub open spec fn remaining(&self) -> Seq<Seq<char>> {
        rem_toks(self.tokens@, self.index as int)
    }

    /// Splits the text into a token stream.
    pub fn tokenize(text: &str) -> (r: Reader)
        ensures
            r.wf(),
            r.remaining() == tokenize_spec(text@),
            names_view(r.tokens@) == tokenize_spec(text@),
            r.index == 0,
    {
        let toks = tokenize(text);
        let r = Reader { tokens: toks, index: 0 };
        proof {
            assert(r.remaining() =~= names_view(r.tokens@));
        }
        r
    }

    /// The next token, without consuming it.
    pub fn peek(&self) -> (r: MalRes<Vec<char>>)
        requires
            self.wf(),
        ensures
            match r {
                Result::Ok(t) => self.remaining().len() > 0 && t@ == self.remaining()[0],
                Result::Err(e) => self.remaining().len() == 0 && e@ == ErrV::Peek,
            },
    {
        if self.index < self.tokens.len() {
            Result::Ok(clone_chars(&self.tokens[self.index]))
        } else {
            Result::Err(MalError::Peek)
        }
    }

    /// The next token, consuming it.
    pub fn next(&mut self) -> (r: MalRes<Vec<char>>)
        requires
            old(self).wf(),
        ensures
            final(self).wf(),
            final(self).tokens == old(self).tokens,
            match r {
                Result::Ok(t) => old(self).remaining().len() > 0 && t@ == old(self).remaining()[0]
                    && final(self).remaining() == old(self).remaining().drop_first(),
                Result::Err(e) => old(self).remaining().len() == 0
                    && final(self).index == old(self).index && e@ == ErrV::Peek,
            },
    {
        if self.index < self.tokens.len() {
            let t = clone_chars(&self.tokens[self.index]);
            self.index = self.index + 1;
            proof {
                assert(self.remaining() =~= old(self).remaining().drop_first());
            }
            Result::Ok(t)
        } else {
            Result::Err(MalError::Peek)
        }
    }
}

} // verus!
