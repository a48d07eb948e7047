//! The predicate mini-language: `field operator value` clauses joined by the
//! token `and`, or the wildcard `*` that matches every task.
//!
//! A predicate is tokenized on whitespace. The token list `*` alone matches
//! all tasks; otherwise the list is split on `and` tokens into clauses. A
//! clause has three or four tokens: a field (`name`, `date`, `category`,
//! `description`, `status`), an operator, and a value of one or two tokens
//! (two tokens are joined by a single space, as a date with a time of day is).
//! String fields take `=` (equality after quote stripping) and `like`
//! (substring containment); `date` takes `=`, `<`, `<=`, `>`, `>=` against a
//! value in the fixed date format; `status` takes `=` against `true` or
//! `false`. A clause that does not parse — wrong token count, unknown field,
//! an operator the field does not support, a malformed date — is false, and
//! with it the whole predicate, for that task. The empty predicate matches
//! nothing.

use vstd::prelude::*;

use crate::chars::{
    chars_eq, contains_sub, copy_chars, is_quote_char, is_space, is_space_char, is_substring,
    lemma_filter_all, lemma_filter_push, str_chars, unquote, unquoted,
};
use crate::date::{date_eq, date_le, date_lt, parse_date_chars, spec_parse_date, DateTime};
use crate::task::{Task, TaskView};

verus! {

/// The wildcard token `*`.
pub open spec fn wild_tok() -> Seq<char> {
    seq!['*']
}

/// The clause separator token `and`.
pub open spec fn and_tok() -> Seq<char> {
    seq!['a', 'n', 'd']
}

/// The header token `where` of the `* where ...` form.
pub open spec fn where_tok() -> Seq<char> {
    seq!['w', 'h', 'e', 'r', 'e']
}

/// The field token `name`.
pub open spec fn name_tok() -> Seq<char> {
    seq!['n', 'a', 'm', 'e']
}

/// The field token `date`.
pub open spec fn date_tok() -> Seq<char> {
    seq!['d', 'a', 't', 'e']
}

/// The field token `category`.
pub open spec fn category_tok() -> Seq<char> {
    seq!['c', 'a', 't', 'e', 'g', 'o', 'r', 'y']
}

/// The field token `description`.
pub open spec fn description_tok() -> Seq<char> {
    seq!['d', 'e', 's', 'c', 'r', 'i', 'p', 't', 'i', 'o', 'n']
}

/// The field token `status`.
pub open spec fn status_tok() -> Seq<char> {
    seq!['s', 't', 'a', 't', 'u', 's']
}

/// The operator token `=`.
pub open spec fn eq_tok() -> Seq<char> {
    seq!['=']
}

/// The operator token `like`.
pub open spec fn like_tok() -> Seq<char> {
    seq!['l', 'i', 'k', 'e']
}

/// The operator token `<`.
pub open spec fn lt_tok() -> Seq<char> {
    seq!['<']
}

/// The operator token `<=`.
pub open spec fn le_tok() -> Seq<char> {
    seq!['<', '=']
}

/// The operator token `>`.
pub open spec fn gt_tok() -> Seq<char> {
    seq!['>']
}

/// The operator token `>=`.
pub open spec fn ge_tok() -> Seq<char> {
    seq!['>', '=']
}

/// The status value token `true`.
pub open spec fn true_tok() -> Seq<char> {
    seq!['t', 'r', 'u', 'e']
}

/// The status value token `false`.
pub open spec fn false_tok() -> Seq<char> {
    seq!['f', 'a', 'l', 's', 'e']
}

/// Length of the run of non-whitespace characters starting at `i` in `s`.
pub open spec fn run_from(s: Seq<char>, i: int) -> nat
    decreases s.len() - i,
{
    if 0 <= i < s.len() && !is_space_char(s[i]) {
        1 + run_from(s, i + 1)
    } else {
        0
    }
}

/// A non-whitespace run never reaches past the end of the sequence.
proof fn lemma_run_from_le(s: Seq<char>, i: int)
    requires
        0 <= i <= s.len(),
    ensures
        i + run_from(s, i) <= s.len(),
    decreases s.len() - i,
{
    if i < s.len() && !is_space_char(s[i]) {
        lemma_run_from_le(s, i + 1);
    }
}

/// The whitespace-separated tokens of `s`, from position `i` on.
pub open spec fn tokens_from(s: Seq<char>, i: int) -> Seq<Seq<char>>
    decreases s.len() - i,
    via tokens_from_dec
{
    if !(0 <= i < s.len()) {
        Seq::empty()
    } else if is_space_char(s[i]) {
        tokens_from(s, i + 1)
    } else {
        let k = 1 + run_from(s, i + 1) as int;
        seq![s.subrange(i, i + k)] + tokens_from(s, i + k)
    }
}

#[via_fn]
proof fn tokens_from_dec(s: Seq<char>, i: int) {
    if 0 <= i < s.len() && !is_space_char(s[i]) {
        lemma_run_from_le(s, i + 1);
    }
}

/// The whitespace-separated tokens of `s`.
pub open spec fn tokens_of(s: Seq<char>) -> Seq<Seq<char>> {
    tokens_from(s, 0)
}

/// `run_from` is pinned down by its endpoints.
proof fn lemma_run_from_char(s: Seq<char>, i: int, j: int)
    requires
        0 <= i <= j <= s.len(),
        forall|m: int| i <= m < j ==> !is_space_char(s[m]),
        j == s.len() || is_space_char(s[j]),
    ensures
        run_from(s, i) == j - i,
    decreases j - i,
{
    if i < j {
        lemma_run_from_char(s, i + 1, j);
    }
}

/// Number of tokens belonging to the clause that starts at token `i`: the
/// distance to the next `and` token or to the end of the token list.
pub open spec fn clause_end(toks: Seq<Seq<char>>, i: int) -> nat
    decreases toks.len() - i,
{
    if 0 <= i < toks.len() && toks[i] != and_tok() {
        1 + clause_end(toks, i + 1)
    } else {
        0
    }
}

/// The clauses of the token list from token `i` on: segments between `and`
/// tokens. A missing segment (nothing before the first `and`, nothing
/// between two, nothing after the last) is an empty clause.
pub open spec fn clauses_from(toks: Seq<Seq<char>>, i: int) -> Seq<Seq<Seq<char>>>
    decreases toks.len() - i,
{
    if !(0 <= i <= toks.len()) {
        Seq::empty()
    } else {
        let k = clause_end(toks, i) as int;
        if i + k >= toks.len() {
            seq![toks.subrange(i, toks.len() as int)]
        } else {
            seq![toks.subrange(i, i + k)] + clauses_from(toks, i + k + 1)
        }
    }
}

/// `clause_end` is pinned down by its endpoints.
proof fn lemma_clause_end_char(toks: Seq<Seq<char>>, i: int, j: int)
    requires
        0 <= i <= j <= toks.len(),
        forall|m: int| i <= m < j ==> toks[m] != and_tok(),
        j == toks.len() || toks[j] == and_tok(),
    ensures
        clause_end(toks, i) == j - i,
    decreases j - i,
{
    if i < j {
        lemma_clause_end_char(toks, i + 1, j);
    }
}

/// The value of a clause: its third token, or its third and fourth joined by
/// one space.
pub open spec fn spec_value_of(c: Seq<Seq<char>>) -> Seq<char> {
    if c.len() == 3 {
        c[2]
    } else {
        c[2] + seq![' '] + c[3]
    }
}

/// A string field against an operator and a value: `=` is equality with the
/// quote-stripped value, `like` is substring containment of it; any other
/// operator is false.
pub open spec fn spec_str_match(field: Seq<char>, op: Seq<char>, value: Seq<char>) -> bool {
    if op == eq_tok() {
        field == unquoted(value)
    } else if op == like_tok() {
        is_substring(unquoted(value), field)
    } else {
        false
    }
}

/// The date field against an operator and a value: the value must spell a
/// date in the fixed format (quotes stripped), compared chronologically.
pub open spec fn spec_date_match(d: DateTime, op: Seq<char>, value: Seq<char>) -> bool {
    match spec_parse_date(unquoted(value)) {
        None => false,
        Some(v) => {
            if op == eq_tok() {
                d == v
            } else if op == lt_tok() {
                d.spec_lt(v)
            } else if op == le_tok() {
                d.spec_le(v)
            } else if op == gt_tok() {
                v.spec_lt(d)
            } else if op == ge_tok() {
                v.spec_le(d)
            } else {
                false
            }
        },
    }
}

/// The status field: only `=` against the quote-stripped literal `true` or
/// `false`.
pub open spec fn spec_status_match(status: bool, op: Seq<char>, value: Seq<char>) -> bool {
    op == eq_tok() && ((unquoted(value) == true_tok() && status) || (unquoted(value)
        == false_tok() && !status))
}

/// One clause against a task: three or four tokens, a known field, an
/// operator the field supports, a value that compares true.
pub open spec fn spec_clause_eval(t: TaskView, c: Seq<Seq<char>>) -> bool {
    if c.len() < 3 || c.len() > 4 {
        false
    } else {
        let field = c[0];
        let op = c[1];
        let value = spec_value_of(c);
        if field == name_tok() {
            spec_str_match(t.name, op, value)
        } else if field == date_tok() {
            spec_date_match(t.date, op, value)
        } else if field == category_tok() {
            spec_str_match(t.category, op, value)
        } else if field == description_tok() {
            spec_str_match(t.description, op, value)
        } else if field == status_tok() {
            spec_status_match(t.status, op, value)
        } else {
            false
        }
    }
}

/// The token list from token `i` on against a task: the single wildcard
/// token matches every task; otherwise every clause must hold.
pub open spec fn spec_eval_from(t: TaskView, toks: Seq<Seq<char>>, i: int) -> bool {
    if toks.len() - i == 1 && toks[i] == wild_tok() {
        true
    } else {
        let cs = clauses_from(toks, i);
        forall|j: int| 0 <= j < cs.len() ==> spec_clause_eval(t, #[trigger] cs[j])
    }
}

/// A predicate string against a task.
pub open spec fn spec_evaluate(t: TaskView, pred: Seq<char>) -> bool {
    spec_eval_from(t, tokens_of(pred), 0)
}

/// A selection input against a task: like a predicate, but the form
/// `* where <predicate>` evaluates the part after `where`.
pub open spec fn spec_selects(t: TaskView, input: Seq<char>) -> bool {
    let toks = tokens_of(input);
    if toks.len() >= 2 && toks[0] == wild_tok() && toks[1] == where_tok() {
        spec_eval_from(t, toks, 2)
    } else {
        spec_eval_from(t, toks, 0)
    }
}

/// The views of a sequence of character vectors.
pub open spec fn tok_views(s: Seq<Vec<char>>) -> Seq<Seq<char>> {
    s.map_values(|t: Vec<char>| t@)
}

/// End of the non-whitespace run starting at `i`.
fn scan_token(v: &Vec<char>, i: usize) -> (j: usize)
    requires
        i <= v@.len(),
    ensures
        i <= j <= v@.len(),
        run_from(v@, i as int) == j - i,
{
    let mut j = i;
    while j < v.len() && !is_space(v[j])
        invariant
            i <= j <= v@.len(),
            forall|m: int| i <= m < j ==> !is_space_char(v@[m]),
        decreases v@.len() - j,
    {
        j = j + 1;
    }
    proof {
        lemma_run_from_char(v@, i as int, j as int);
    }
    j
}

/// The whitespace-separated tokens of `v`.
fn tokenize(v: &Vec<char>) -> (r: Vec<Vec<char>>)
    ensures
        tok_views(r@) == tokens_of(v@),
{
    let mut r: Vec<Vec<char>> = Vec::new();
    let mut i: usize = 0;
    while i < v.len()
        invariant
            i <= v@.len(),
            tok_views(r@) + tokens_from(v@, i as int) =~= tokens_of(v@),
        decreases v@.len() - i,
    {
        if is_space(v[i]) {
            i = i + 1;
        } else {
            let j = scan_token(v, i);
            let mut tok: Vec<char> = Vec::new();
            let mut k = i;
            while k < j
                invariant
                    i <= k <= j <= v@.len(),
                    tok@ == v@.subrange(i as int, k as int),
                decreases j - k,
            {
                tok.push(v[k]);
                k = k + 1;
                proof {
                    assert(tok@ =~= v@.subrange(i as int, k as int));
                }
            }
            proof {
                assert(tokens_from(v@, i as int) == seq![v@.subrange(i as int, j as int)]
                    + tokens_from(v@, j as int));
                assert(tok_views(r@.push(tok)) =~= tok_views(r@).push(tok@));
            }
            r.push(tok);
            i = j;
            proof {
                assert(tok_views(r@) + tokens_from(v@, i as int) =~= tokens_of(v@));
            }
        }
    }
    proof {
        assert(tok_views(r@) =~= tokens_of(v@));
    }
    r
}

/// Whether token `t` is the clause separator `and`.
fn is_and(t: &Vec<char>) -> (r: bool)
    ensures
        r == (t@ == and_tok()),
{
    let r = t.len() == 3 && t[0] == 'a' && t[1] == 'n' && t[2] == 'd';
    proof {
        if r {
            assert(t@ =~= and_tok());
        } else {
            assert(t@ != and_tok());
        }
    }
    r
}

/// Whether token `t` is the wildcard `*`.
fn is_wild(t: &Vec<char>) -> (r: bool)
    ensures
        r == (t@ == wild_tok()),
{
    let r = t.len() == 1 && t[0] == '*';
    proof {
        if r {
            assert(t@ =~= wild_tok());
        } else {
            assert(t@ != wild_tok());
        }
    }
    r
}

/// Whether token `t` is the header word `where`.
fn is_where(t: &Vec<char>) -> (r: bool)
    ensures
        r == (t@ == where_tok()),
{
    let r = t.len() == 5 && t[0] == 'w' && t[1] == 'h' && t[2] == 'e' && t[3] == 'r' && t[4]
        == 'e';
    proof {
        if r {
            assert(t@ =~= where_tok());
        } else {
            assert(t@ != where_tok());
        }
    }
    r
}

/// A string field against an operator token and a value.
fn str_match(field: &Vec<char>, op: &Vec<char>, value: &Vec<char>) -> (r: bool)
    ensures
        r == spec_str_match(field@, op@, value@),
{
    if op.len() == 1 && op[0] == '=' {
        proof {
            assert(op@ =~= eq_tok());
        }
        let unq = unquote(value);
        chars_eq(field, &unq)
    } else if op.len() == 4 && op[0] == 'l' && op[1] == 'i' && op[2] == 'k' && op[3] == 'e' {
        proof {
            assert(op@ =~= like_tok());
        }
        let unq = unquote(value);
        contains_sub(field, &unq)
    } else {
        proof {
            assert(op@ != eq_tok());
            assert(op@ != like_tok());
        }
        false
    }
}

/// The date field against an operator token and a value.
fn date_match(d: &DateTime, op: &Vec<char>, value: &Vec<char>) -> (r: bool)
    ensures
        r == spec_date_match(*d, op@, value@),
{
    let unq = unquote(value);
    match parse_date_chars(&unq) {
        None => false,
        Some(v) => {
            if op.len() == 1 && op[0] == '=' {
                proof {
                    assert(op@ =~= eq_tok());
                }
                date_eq(d, &v)
            } else if op.len() == 1 && op[0] == '<' {
                proof {
                    assert(op@ =~= lt_tok());
                }
                date_lt(d, &v)
            } else if op.len() == 2 && op[0] == '<' && op[1] == '=' {
                proof {
                    assert(op@ =~= le_tok());
                }
                date_le(d, &v)
            } else if op.len() == 1 && op[0] == '>' {
                proof {
                    assert(op@ =~= gt_tok());
                }
                date_lt(&v, d)
            } else if op.len() == 2 && op[0] == '>' && op[1] == '=' {
                proof {
                    assert(op@ =~= ge_tok());
                }
                date_le(&v, d)
            } else {
                proof {
                    assert(op@ != eq_tok());
                    assert(op@ != lt_tok());
                    assert(op@ != le_tok());
                    assert(op@ != gt_tok());
                    assert(op@ != ge_tok());
                }
                false
            }
        },
    }
}

/// The status field against an operator token and a value.
fn status_match(status: bool, op: &Vec<char>, value: &Vec<char>) -> (r: bool)
    ensures
        r == spec_status_match(status, op@, value@),
{
    if op.len() == 1 && op[0] == '=' {
        proof {
            assert(op@ =~= eq_tok());
        }
        let unq = unquote(value);
        let is_true = unq.len() == 4 && unq[0] == 't' && unq[1] == 'r' && unq[2] == 'u'
            && unq[3] == 'e';
        let is_false = unq.len() == 5 && unq[0] == 'f' && unq[1] == 'a' && unq[2] == 'l'
            && unq[3] == 's' && unq[4] == 'e';
        proof {
            if is_true {
                assert(unq@ =~= true_tok());
            } else {
                assert(unq@ != true_tok());
            }
            if is_false {
                assert(unq@ =~= false_tok());
            } else {
                assert(unq@ != false_tok());
            }
        }
        (is_true && status) || (is_false && !status)
    } else {
        proof {
            assert(op@ != eq_tok());
        }
        false
    }
}

/// One clause, the tokens of `toks` from `start` to `end` (exclusive),
/// against a task.
fn eval_clause(task: &Task, toks: &Vec<Vec<char>>, start: usize, end: usize) -> (r: bool)
    requires
        start <= end <= toks@.len(),
    ensures
        r == spec_clause_eval(task@, tok_views(toks@).subrange(start as int, end as int)),
{
    let ghost c = tok_views(toks@).subrange(start as int, end as int);
    let len = end - start;
    if len < 3 || len > 4 {
        return false;
    }
    let field = &toks[start];
    let op = &toks[start + 1];
    let mut value = copy_chars(&toks[start + 2]);
    if len == 4 {
        value.push(' ');
        let fourth = &toks[start + 3];
        let mut k: usize = 0;
        while k < fourth.len()
            invariant
                k <= fourth@.len(),
                value@ == toks@[start + 2]@ + seq![' '] + fourth@.subrange(0, k as int),
                fourth@ == toks@[start + 3]@,
                start + 3 < toks@.len(),
            decreases fourth@.len() - k,
        {
            value.push(fourth[k]);
            k = k + 1;
            proof {
                assert(value@ =~= toks@[start + 2]@ + seq![' '] + fourth@.subrange(
                    0,
                    k as int,
                ));
            }
        }
    }
    proof {
        assert(c[0] == toks@[start as int]@);
        assert(c[1] == toks@[start + 1]@);
        assert(c[2] == toks@[start + 2]@);
        if len == 4 {
            assert(c[3] == toks@[start + 3]@);
            assert(toks@[start + 3]@.subrange(0, toks@[start + 3]@.len() as int) =~= toks@[start
                + 3]@);
            assert(value@ =~= spec_value_of(c));
        } else {
            assert(value@ =~= spec_value_of(c));
        }
    }
    if field.len() == 4 && field[0] == 'n' && field[1] == 'a' && field[2] == 'm' && field[3]
        == 'e' {
        proof {
            assert(field@ =~= name_tok());
        }
        let fc = str_chars(task.name.as_str());
        str_match(&fc, op, &value)
    } else if field.len() == 4 && field[0] == 'd' && field[1] == 'a' && field[2] == 't'
        && field[3] == 'e' {
        proof {
            assert(field@ =~= date_tok());
            assert(field@ != name_tok());
        }
        date_match(&task.date, op, &value)
    } else if field.len() == 8 && field[0] == 'c' && field[1] == 'a' && field[2] == 't'
        && field[3] == 'e' && field[4] == 'g' && field[5] == 'o' && field[6] == 'r' && field[7]
        == 'y' {
        proof {
            assert(field@ =~= category_tok());
            assert(field@ != name_tok());
            assert(field@ != date_tok());
        }
        let fc = str_chars(task.category.as_str());
        str_match(&fc, op, &value)
    } else if field.len() == 11 && field[0] == 'd' && field[1] == 'e' && field[2] == 's'
        && field[3] == 'c' && field[4] == 'r' && field[5] == 'i' && field[6] == 'p' && field[7]
        == 't' && field[8] == 'i' && field[9] == 'o' && field[10] == 'n' {
        proof {
            assert(field@ =~= description_tok());
            assert(field@ != name_tok());
            assert(field@ != date_tok());
            assert(field@ != category_tok());
        }
        let fc = str_chars(task.description.as_str());
        str_match(&fc, op, &value)
    } else if field.len() == 6 && field[0] == 's' && field[1] == 't' && field[2] == 'a'
        && field[3] == 't' && field[4] == 'u' && field[5] == 's' {
        proof {
            assert(field@ =~= status_tok());
            assert(field@ != name_tok());
            assert(field@ != date_tok());
            assert(field@ != category_tok());
            assert(field@ != description_tok());
        }
        status_match(task.status, op, &value)
    } else {
        proof {
            assert(field@ != name_tok());
            assert(field@ != date_tok());
            assert(field@ != category_tok());
            assert(field@ != description_tok());
            assert(field@ != status_tok());
        }
        false
    }
}

/// End of the clause starting at token `i`: the next `and` token or the end
/// of the token list.
fn scan_clause(toks: &Vec<Vec<char>>, i: usize) -> (j: usize)
    requires
        i <= toks@.len(),
    ensures
        i <= j <= toks@.len(),
        clause_end(tok_views(toks@), i as int) == j - i,
        j == toks@.len() || tok_views(toks@)[j as int] == and_tok(),
{
    let mut j = i;
    while j < toks.len() && !is_and(&toks[j])
        invariant
            i <= j <= toks@.len(),
            forall|m: int| i <= m < j ==> tok_views(toks@)[m] != and_tok(),
        decreases toks@.len() - j,
    {
        j = j + 1;
    }
    proof {
        lemma_clause_end_char(tok_views(toks@), i as int, j as int);
    }
    j
}

/// The token list from token `start` on, against a task: the wildcard alone
/// matches; otherwise every clause must hold.
fn eval_tokens_from(task: &Task, toks: &Vec<Vec<char>>, start: usize) -> (r: bool)
    requires
        start <= toks@.len(),
    ensures
        r == spec_eval_from(task@, tok_views(toks@), start as int),
{
    let ghost tv = tok_views(toks@);
    let n = toks.len();
    if n - start == 1 && is_wild(&toks[start]) {
        return true;
    }
    proof {
        assert(!(tv.len() - start == 1 && tv[start as int] == wild_tok()));
    }
    let mut i = start;
    let ghost mut done: Seq<Seq<Seq<char>>> = Seq::empty();
    loop
        invariant
            start <= i <= n,
            n == tv.len(),
            n == toks@.len(),
            tv == tok_views(toks@),
            clauses_from(tv, start as int) == done + clauses_from(tv, i as int),
            forall|j: int| 0 <= j < done.len() ==> spec_clause_eval(task@, #[trigger] done[j]),
            !(tv.len() - start == 1 && tv[start as int] == wild_tok()),
        decreases n - i,
    {
        let j = scan_clause(toks, i);
        let ok = eval_clause(task, toks, i, j);
        let ghost k = clause_end(tv, i as int) as int;
        proof {
            assert(k == j - i);
            if i + k >= n {
                assert(clauses_from(tv, i as int) == seq![tv.subrange(i as int, n as int)]);
                assert(j == n);
            } else {
                assert(clauses_from(tv, i as int) == seq![tv.subrange(i as int, i + k)]
                    + clauses_from(tv, i + k + 1));
            }
        }
        if !ok {
            proof {
                let cs = clauses_from(tv, start as int);
                assert(cs[done.len() as int] == tv.subrange(i as int, j as int));
                assert(!spec_clause_eval(task@, cs[done.len() as int]));
            }
            return false;
        }
        if j == n {
            proof {
                let cs = clauses_from(tv, start as int);
                assert(cs =~= done.push(tv.subrange(i as int, j as int)));
                assert(forall|m: int|
                    0 <= m < cs.len() ==> spec_clause_eval(task@, #[trigger] cs[m]));
            }
            return true;
        }
        proof {
            done = done + seq![tv.subrange(i as int, j as int)];
        }
        i = j + 1;
    }
}

/// The wildcard predicate matches every task, under `evaluate_predicate` and
/// under selection.
pub proof fn lemma_wildcard_matches_all(t: TaskView)
    ensures
        spec_evaluate(t, wild_tok()),
        spec_selects(t, wild_tok()),
{
    let s = wild_tok();
    assert(!is_space_char(s[0]));
    assert(run_from(s, 1) == 0);
    assert(tokens_from(s, 1) =~= Seq::<Seq<char>>::empty());
    assert(s.subrange(0, 1) =~= wild_tok());
    let toks = tokens_of(s);
    assert(toks =~= seq![s.subrange(0, 1)] + tokens_from(s, 1));
    assert(toks.len() == 1 && toks[0] == wild_tok());
}

/// Stripping quotes from `x` wrapped in double quotes yields `x` again, when
/// `x` itself holds no quote character.
proof fn lemma_unquoted_quoted(x: Seq<char>)
    requires
        forall|m: int| 0 <= m < x.len() ==> !is_quote_char(#[trigger] x[m]),
    ensures
        unquoted(seq!['"'] + x + seq!['"']) == x,
{
    let p = |c: char| !is_quote_char(c);
    let q: Seq<char> = seq!['"'];
    broadcast use Seq::filter_distributes_over_add;

    lemma_filter_all(Seq::<char>::empty(), p);
    assert(q =~= Seq::<char>::empty().push('"'));
    lemma_filter_push(Seq::<char>::empty(), p, '"');
    assert(q.filter(p) == Seq::<char>::empty());
    lemma_filter_all(x, p);
    assert((q + x + q).filter(p) =~= x);
}

/// Tokenizing `F O V`, three non-empty words of non-whitespace characters
/// separated by single spaces, yields exactly the three tokens.
proof fn lemma_three_tokens(f: Seq<char>, o: Seq<char>, v: Seq<char>)
    requires
        f.len() > 0 && o.len() > 0 && v.len() > 0,
        forall|m: int| 0 <= m < f.len() ==> !is_space_char(#[trigger] f[m]),
        forall|m: int| 0 <= m < o.len() ==> !is_space_char(#[trigger] o[m]),
        forall|m: int| 0 <= m < v.len() ==> !is_space_char(#[trigger] v[m]),
    ensures
        tokens_of(f + seq![' '] + o + seq![' '] + v) == seq![f, o, v],
{
    let s = f + seq![' '] + o + seq![' '] + v;
    let fl = f.len() as int;
    let ol = o.len() as int;
    let vl = v.len() as int;
    assert(s.len() == fl + 1 + ol + 1 + vl);
    assert forall|m: int| 0 <= m < fl implies !is_space_char(#[trigger] s[m]) by {
        assert(s[m] == f[m]);
    }
    assert(s[fl] == ' ');
    assert forall|m: int| fl + 1 <= m < fl + 1 + ol implies !is_space_char(#[trigger] s[m]) by {
        assert(s[m] == o[m - fl - 1]);
    }
    assert(s[fl + 1 + ol] == ' ');
    assert forall|m: int| fl + 1 + ol + 1 <= m < s.len() implies !is_space_char(
        #[trigger] s[m],
    ) by {
        assert(s[m] == v[m - fl - 1 - ol - 1]);
    }
    lemma_run_from_char(s, 0, fl);
    lemma_run_from_char(s, fl + 1, fl + 1 + ol);
    lemma_run_from_char(s, fl + 1 + ol + 1, s.len() as int);
    assert(tokens_from(s, s.len() as int) =~= Seq::<Seq<char>>::empty());
    assert(s.subrange(0, fl) =~= f);
    assert(s.subrange(fl + 1, fl + 1 + ol) =~= o);
    assert(s.subrange(fl + 1 + ol + 1, s.len() as int) =~= v);
    assert(tokens_from(s, fl + 1 + ol + 1) =~= seq![v]);
    assert(tokens_from(s, fl + 1 + ol) =~= seq![v]);
    assert(tokens_from(s, fl + 1) =~= seq![o, v]);
    assert(tokens_from(s, fl) =~= seq![o, v]);
    assert(tokens_of(s) =~= seq![f, o, v]);
}

/// A clause `F O V` of three tokens, no token the word `and`, evaluates by
/// the one clause alone.
proof fn lemma_single_clause(toks: Seq<Seq<char>>)
    requires
        toks.len() == 3,
        toks[0] != and_tok(),
        toks[1] != and_tok(),
        toks[2] != and_tok(),
    ensures
        clauses_from(toks, 0) == seq![toks],
{
    lemma_clause_end_char(toks, 0, 3);
    assert(toks.subrange(0, 3) =~= toks);
    assert(clauses_from(toks, 0) =~= seq![toks]);
}

/// The text of the predicate `category = "x"`.
pub open spec fn category_eq_pred(x: Seq<char>) -> Seq<char> {
    category_tok() + seq![' '] + eq_tok() + seq![' '] + (seq!['"'] + x + seq!['"'])
}

/// The text of the predicate `description like "x"`.
pub open spec fn description_like_pred(x: Seq<char>) -> Seq<char> {
    description_tok() + seq![' '] + like_tok() + seq![' '] + (seq!['"'] + x + seq!['"'])
}

proof fn lemma_quoted_value_tokens(x: Seq<char>)
    requires
        forall|m: int|
            0 <= m < x.len() ==> !is_space_char(#[trigger] x[m]) && !is_quote_char(x[m]),
    ensures
        (seq!['"'] + x + seq!['"']).len() == x.len() + 2,
        forall|m: int|
            0 <= m < x.len() + 2 ==> !is_space_char(#[trigger] (seq!['"'] + x + seq!['"'])[m]),
        (seq!['"'] + x + seq!['"'])[0] == '"',
        unquoted(seq!['"'] + x + seq!['"']) == x,
{
    let v = seq!['"'] + x + seq!['"'];
    assert forall|m: int| 0 <= m < x.len() + 2 implies !is_space_char(#[trigger] v[m]) by {
        if m == 0 || m == x.len() + 1 {
            assert(v[m] == '"');
        } else {
            assert(v[m] == x[m - 1]);
        }
    }
    lemma_unquoted_quoted(x);
}

proof fn lemma_clause_category(t: TaskView, v: Seq<char>)
    ensures
        spec_clause_eval(t, seq![category_tok(), eq_tok(), v]) == (t.category == unquoted(v)),
{
    let c = seq![category_tok(), eq_tok(), v];
    assert(c.len() == 3 && c[0] == category_tok() && c[1] == eq_tok() && c[2] == v);
    assert(category_tok() != name_tok()) by {
        assert(category_tok().len() == 8 && name_tok().len() == 4);
    }
    assert(category_tok() != date_tok()) by {
        assert(category_tok().len() == 8 && date_tok().len() == 4);
    }
    assert(spec_value_of(c) == v);
    assert(spec_clause_eval(t, c) == spec_str_match(t.category, eq_tok(), v));
}

proof fn lemma_clause_description_like(t: TaskView, v: Seq<char>)
    ensures
        spec_clause_eval(t, seq![description_tok(), like_tok(), v]) == is_substring(
            unquoted(v),
            t.description,
        ),
{
    let c = seq![description_tok(), like_tok(), v];
    assert(c.len() == 3 && c[0] == description_tok() && c[1] == like_tok() && c[2] == v);
    assert(description_tok() != name_tok()) by {
        assert(description_tok().len() == 11 && name_tok().len() == 4);
    }
    assert(description_tok() != date_tok()) by {
        assert(description_tok().len() == 11 && date_tok().len() == 4);
    }
    assert(description_tok() != category_tok()) by {
        assert(description_tok().len() == 11 && category_tok().len() == 8);
    }
    assert(like_tok() != eq_tok()) by {
        assert(like_tok().len() == 4 && eq_tok().len() == 1);
    }
    assert(spec_value_of(c) == v);
    assert(spec_clause_eval(t, c) == spec_str_match(t.description, like_tok(), v));
}

/// The predicate `category = "x"` holds of a task exactly when its category
/// is `x`, letter for letter — for any `x` free of whitespace and quotes.
#[verifier::rlimit(100)]
pub proof fn lemma_category_equality(t: TaskView, x: Seq<char>)
    requires
        forall|m: int|
            0 <= m < x.len() ==> !is_space_char(#[trigger] x[m]) && !is_quote_char(x[m]),
    ensures
        spec_evaluate(t, category_eq_pred(x)) == (t.category == x),
{
    let v = seq!['"'] + x + seq!['"'];
    lemma_quoted_value_tokens(x);
    assert forall|m: int| 0 <= m < category_tok().len() implies !is_space_char(
        #[trigger] category_tok()[m],
    ) by {
        if m == 0 {
            assert(category_tok()[m] == 'c');
        } else if m == 1 {
            assert(category_tok()[m] == 'a');
        } else if m == 2 {
            assert(category_tok()[m] == 't');
        } else if m == 3 {
            assert(category_tok()[m] == 'e');
        } else if m == 4 {
            assert(category_tok()[m] == 'g');
        } else if m == 5 {
            assert(category_tok()[m] == 'o');
        } else if m == 6 {
            assert(category_tok()[m] == 'r');
        } else {
            assert(category_tok()[m] == 'y');
        }
    }
    assert(!is_space_char(eq_tok()[0]));
    lemma_three_tokens(category_tok(), eq_tok(), v);
    let toks = seq![category_tok(), eq_tok(), v];
    assert(toks[0] != and_tok()) by {
        assert(category_tok().len() == 8 && and_tok().len() == 3);
    }
    assert(toks[1] != and_tok()) by {
        assert(eq_tok().len() == 1 && and_tok().len() == 3);
    }
    assert(toks[2] != and_tok()) by {
        assert(v[0] == '"' && and_tok()[0] == 'a');
    }
    lemma_single_clause(toks);
    lemma_clause_category(t, v);
    assert(spec_evaluate(t, category_eq_pred(x)) == spec_eval_from(t, toks, 0));
    assert(spec_eval_from(t, toks, 0) == spec_clause_eval(t, toks)) by {
        assert(toks.len() != 1);
        assert(clauses_from(toks, 0) == seq![toks]);
        assert(clauses_from(toks, 0)[0] == toks);
    }
}

/// The predicate `description like "x"` holds of a task exactly when `x` is
/// a substring of its description — for any `x` free of whitespace and
/// quotes.
#[verifier::rlimit(100)]
pub proof fn lemma_description_like(t: TaskView, x: Seq<char>)
    requires
        forall|m: int|
            0 <= m < x.len() ==> !is_space_char(#[trigger] x[m]) && !is_quote_char(x[m]),
    ensures
        spec_evaluate(t, description_like_pred(x)) == is_substring(x, t.description),
{
    let v = seq!['"'] + x + seq!['"'];
    lemma_quoted_value_tokens(x);
    assert forall|m: int| 0 <= m < description_tok().len() implies !is_space_char(
        #[trigger] description_tok()[m],
    ) by {
        if m == 0 {
            assert(description_tok()[m] == 'd');
        } else if m == 1 {
            assert(description_tok()[m] == 'e');
        } else if m == 2 {
            assert(description_tok()[m] == 's');
        } else if m == 3 {
            assert(description_tok()[m] == 'c');
        } else if m == 4 {
            assert(description_tok()[m] == 'r');
        } else if m == 5 {
            assert(description_tok()[m] == 'i');
        } else if m == 6 {
            assert(description_tok()[m] == 'p');
        } else if m == 7 {
            assert(description_tok()[m] == 't');
        } else if m == 8 {
            assert(description_tok()[m] == 'i');
        } else if m == 9 {
            assert(description_tok()[m] == 'o');
        } else {
            assert(description_tok()[m] == 'n');
        }
    }
    assert forall|m: int| 0 <= m < like_tok().len() implies !is_space_char(
        #[trigger] like_tok()[m],
    ) by {
        if m == 0 {
            assert(like_tok()[m] == 'l');
        } else if m == 1 {
            assert(like_tok()[m] == 'i');
        } else if m == 2 {
            assert(like_tok()[m] == 'k');
        } else {
            assert(like_tok()[m] == 'e');
        }
    }
    lemma_three_tokens(description_tok(), like_tok(), v);
    let toks = seq![description_tok(), like_tok(), v];
    assert(toks[0] != and_tok()) by {
        assert(description_tok().len() == 11 && and_tok().len() == 3);
    }
    assert(toks[1] != and_tok()) by {
        assert(like_tok().len() == 4 && and_tok().len() == 3);
    }
    assert(toks[2] != and_tok()) by {
        assert(v[0] == '"' && and_tok()[0] == 'a');
    }
    lemma_single_clause(toks);
    lemma_clause_description_like(t, v);
    assert(spec_evaluate(t, description_like_pred(x)) == spec_eval_from(t, toks, 0));
    assert(spec_eval_from(t, toks, 0) == spec_clause_eval(t, toks)) by {
        assert(toks.len() != 1);
        assert(clauses_from(toks, 0) == seq![toks]);
        assert(clauses_from(toks, 0)[0] == toks);
    }
}

/// Tokenizing `F O V1 V2`, four non-empty words of non-whitespace characters
/// separated by single spaces, yields exactly the four tokens.
proof fn lemma_four_tokens(f: Seq<char>, o: Seq<char>, v1: Seq<char>, v2: Seq<char>)
    requires
        f.len() > 0 && o.len() > 0 && v1.len() > 0 && v2.len() > 0,
        forall|m: int| 0 <= m < f.len() ==> !is_space_char(#[trigger] f[m]),
        forall|m: int| 0 <= m < o.len() ==> !is_space_char(#[trigger] o[m]),
        forall|m: int| 0 <= m < v1.len() ==> !is_space_char(#[trigger] v1[m]),
        forall|m: int| 0 <= m < v2.len() ==> !is_space_char(#[trigger] v2[m]),
    ensures
        tokens_of(f + seq![' '] + o + seq![' '] + v1 + seq![' '] + v2) == seq![f, o, v1, v2],
{
    let s = f + seq![' '] + o + seq![' '] + v1 + seq![' '] + v2;
    let fl = f.len() as int;
    let ol = o.len() as int;
    let wl = v1.len() as int;
    let p1 = fl + 1;
    let p2 = fl + 1 + ol + 1;
    let p3 = fl + 1 + ol + 1 + wl + 1;
    assert(s.len() == p3 + v2.len());
    assert forall|m: int| 0 <= m < fl implies !is_space_char(#[trigger] s[m]) by {
        assert(s[m] == f[m]);
    }
    assert(s[fl] == ' ');
    assert forall|m: int| p1 <= m < p1 + ol implies !is_space_char(#[trigger] s[m]) by {
        assert(s[m] == o[m - p1]);
    }
    assert(s[p1 + ol] == ' ');
    assert forall|m: int| p2 <= m < p2 + wl implies !is_space_char(#[trigger] s[m]) by {
        assert(s[m] == v1[m - p2]);
    }
    assert(s[p2 + wl] == ' ');
    assert forall|m: int| p3 <= m < s.len() implies !is_space_char(#[trigger] s[m]) by {
        assert(s[m] == v2[m - p3]);
    }
    lemma_run_from_char(s, 0, fl);
    lemma_run_from_char(s, p1, p1 + ol);
    lemma_run_from_char(s, p2, p2 + wl);
    lemma_run_from_char(s, p3, s.len() as int);
    assert(tokens_from(s, s.len() as int) =~= Seq::<Seq<char>>::empty());
    assert(s.subrange(0, fl) =~= f);
    assert(s.subrange(p1, p1 + ol) =~= o);
    assert(s.subrange(p2, p2 + wl) =~= v1);
    assert(s.subrange(p3, s.len() as int) =~= v2);
    assert(tokens_from(s, p3) =~= seq![v2]);
    assert(tokens_from(s, p3 - 1) =~= seq![v2]);
    assert(tokens_from(s, p2) =~= seq![v1, v2]);
    assert(tokens_from(s, p2 - 1) =~= seq![v1, v2]);
    assert(tokens_from(s, p1) =~= seq![o, v1, v2]);
    assert(tokens_from(s, p1 - 1) =~= seq![o, v1, v2]);
    assert(tokens_of(s) =~= seq![f, o, v1, v2]);
}

/// The text of the predicate `date < D1 D2` (a date value is two words, the
/// day part and the time part).
pub open spec fn date_before_pred(d1: Seq<char>, d2: Seq<char>) -> Seq<char> {
    date_tok() + seq![' '] + lt_tok() + seq![' '] + d1 + seq![' '] + d2
}

proof fn lemma_clause_date_before(t: TaskView, v1: Seq<char>, v2: Seq<char>)
    ensures
        spec_clause_eval(t, seq![date_tok(), lt_tok(), v1, v2]) == spec_date_match(
            t.date,
            lt_tok(),
            v1 + seq![' '] + v2,
        ),
{
    let c = seq![date_tok(), lt_tok(), v1, v2];
    assert(c.len() == 4 && c[0] == date_tok() && c[1] == lt_tok() && c[2] == v1 && c[3] == v2);
    assert(date_tok() != name_tok()) by {
        assert(date_tok()[0] == 'd' && name_tok()[0] == 'n');
    }
    assert(spec_value_of(c) == v1 + seq![' '] + v2);
    assert(spec_clause_eval(t, c) == spec_date_match(t.date, lt_tok(), v1 + seq![' '] + v2));
}

/// The predicate `date < D1 D2` holds of a task exactly when the value
/// spells a date in the fixed format and the task's date lies strictly
/// before it — for any two value words free of whitespace, neither the word
/// `and`.
#[verifier::rlimit(100)]
pub proof fn lemma_date_before(t: TaskView, d1: Seq<char>, d2: Seq<char>)
    requires
        d1.len() > 0 && d2.len() > 0,
        forall|m: int| 0 <= m < d1.len() ==> !is_space_char(#[trigger] d1[m]),
        forall|m: int| 0 <= m < d2.len() ==> !is_space_char(#[trigger] d2[m]),
        d1 != and_tok(),
        d2 != and_tok(),
    ensures
        spec_evaluate(t, date_before_pred(d1, d2)) == match spec_parse_date(
            unquoted(d1 + seq![' '] + d2),
        ) {
            None => false,
            Some(v) => t.date.spec_lt(v),
        },
{
    assert forall|m: int| 0 <= m < date_tok().len() implies !is_space_char(
        #[trigger] date_tok()[m],
    ) by {
        if m == 0 {
            assert(date_tok()[m] == 'd');
        } else if m == 1 {
            assert(date_tok()[m] == 'a');
        } else if m == 2 {
            assert(date_tok()[m] == 't');
        } else {
            assert(date_tok()[m] == 'e');
        }
    }
    assert(!is_space_char(lt_tok()[0]));
    lemma_four_tokens(date_tok(), lt_tok(), d1, d2);
    let toks = seq![date_tok(), lt_tok(), d1, d2];
    assert(toks[0] != and_tok()) by {
        assert(date_tok()[1] == 'a' && date_tok()[0] == 'd' && and_tok()[0] == 'a');
    }
    assert(toks[1] != and_tok()) by {
        assert(lt_tok().len() == 1 && and_tok().len() == 3);
    }
    lemma_clause_end_char(toks, 0, 4);
    assert(toks.subrange(0, 4) =~= toks);
    assert(clauses_from(toks, 0) =~= seq![toks]);
    lemma_clause_date_before(t, d1, d2);
    assert(spec_evaluate(t, date_before_pred(d1, d2)) == spec_eval_from(t, toks, 0));
    assert(spec_eval_from(t, toks, 0) == spec_clause_eval(t, toks)) by {
        assert(toks.len() != 1);
        assert(clauses_from(toks, 0)[0] == toks);
    }
}

/// Evaluates a predicate string against a task: the wildcard `*` is true for
/// every task; otherwise every `field operator value` clause must hold.
pub fn evaluate_predicate(task: &Task, predicate: &str) -> (r: bool)
    ensures
        r == spec_evaluate(task@, predicate@),
{
    let cs = str_chars(predicate);
    let toks = tokenize(&cs);
    eval_tokens_from(task, &toks, 0)
}

/// Evaluates a selection input against a task: a predicate string, where the
/// form `* where <predicate>` evaluates the part after `where`.
pub fn matches_input(task: &Task, input: &str) -> (r: bool)
    ensures
        r == spec_selects(task@, input@),
{
    let cs = str_chars(input);
    let toks = tokenize(&cs);
    if toks.len() >= 2 && is_wild(&toks[0]) && is_where(&toks[1]) {
        proof {
            assert(tok_views(toks@)[0] == toks@[0]@);
            assert(tok_views(toks@)[1] == toks@[1]@);
        }
        eval_tokens_from(task, &toks, 2)
    } else {
        eval_tokens_from(task, &toks, 0)
    }
}

} // verus!
