//! The journal document encoding and its verified encoder and decoder.
//!
//! A journal document is a JSON-style array of task objects,
//! `[{"text":"...","created_at":N},...]`, with `"` and `\` escaped inside
//! the text and the creation time written in canonical decimal. The
//! encoder produces exactly this canonical form; the decoder accepts a
//! document if and only if it is the canonical encoding of some task
//! sequence, and then returns exactly that sequence.

use crate::task::{tasks_view, Task, TaskView};
use vstd::prelude::*;
use vstd::string::{StrSliceExecFns, StringExecFns};

verus! {

broadcast use vstd::string::group_string_axioms;

/// Relies on std's `String::push`: it appends the given character to the
/// end of the string.
pub assume_specification[ String::push ](s: &mut String, c: char)
    ensures
        final(s)@ == old(s)@.push(c),
;

// ---------------------------------------------------------------------------
// Decimal numbers
// ---------------------------------------------------------------------------

pub open spec fn is_digit(c: char) -> bool {
    c == '0' || c == '1' || c == '2' || c == '3' || c == '4' || c == '5' || c == '6' || c == '7'
        || c == '8' || c == '9'
}

pub open spec fn digit_char(d: nat) -> char {
    if d == 0 {
        '0'
    } else if d == 1 {
        '1'
    } else if d == 2 {
        '2'
    } else if d == 3 {
        '3'
    } else if d == 4 {
        '4'
    } else if d == 5 {
        '5'
    } else if d == 6 {
        '6'
    } else if d == 7 {
        '7'
    } else if d == 8 {
        '8'
    } else {
        '9'
    }
}

pub open spec fn digit_val(c: char) -> nat {
    if c == '0' {
        0
    } else if c == '1' {
        1
    } else if c == '2' {
        2
    } else if c == '3' {
        3
    } else if c == '4' {
        4
    } else if c == '5' {
        5
    } else if c == '6' {
        6
    } else if c == '7' {
        7
    } else if c == '8' {
        8
    } else {
        9
    }
}

/// The canonical decimal digits of `n`: no sign, no leading zeros.
pub open spec fn dec_digits(n: nat) -> Seq<char>
    decreases n,
{
    if n < 10 {
        seq![digit_char(n)]
    } else {
        dec_digits(n / 10).push(digit_char(n % 10))
    }
}

/// The value of a digit run, most significant digit first.
pub open spec fn digits_val(ds: Seq<char>) -> nat
    decreases ds.len(),
{
    if ds.len() == 0 {
        0
    } else {
        digits_val(ds.drop_last()) * 10 + digit_val(ds.last())
    }
}

// ---------------------------------------------------------------------------
// Text escaping
// ---------------------------------------------------------------------------

/// How one character of a task text appears inside the document: `"` and
/// `\` carry a backslash escape, every other character stands for itself.
pub open spec fn escape_char(c: char) -> Seq<char> {
    if c == '"' {
        seq!['\\', '"']
    } else if c == '\\' {
        seq!['\\', '\\']
    } else {
        seq![c]
    }
}

/// The escaped form of a whole task text.
pub open spec fn escape_seq(s: Seq<char>) -> Seq<char>
    decreases s.len(),
{
    if s.len() == 0 {
        Seq::empty()
    } else {
        escape_char(s.first()) + escape_seq(s.drop_first())
    }
}

// ---------------------------------------------------------------------------
// The document grammar
// ---------------------------------------------------------------------------

/// The opening of a task object, through the quote that starts the text.
pub open spec fn lit_text_key() -> Seq<char> {
    seq!['{', '"', 't', 'e', 'x', 't', '"', ':', '"']
}

/// The middle of a task object: from after the quote that closes the text
/// to the colon before the creation time.
pub open spec fn lit_created_key() -> Seq<char> {
    seq![',', '"', 'c', 'r', 'e', 'a', 't', 'e', 'd', '_', 'a', 't', '"', ':']
}

/// The canonical encoding of one task.
pub open spec fn enc_task(t: TaskView) -> Seq<char> {
    lit_text_key() + escape_seq(t.text) + seq!['"'] + lit_created_key() + dec_digits(
        t.created_at as nat,
    ) + seq!['}']
}

/// The canonical encoding of a task sequence, comma separated, without the
/// surrounding brackets.
pub open spec fn enc_tasks(ts: Seq<TaskView>) -> Seq<char>
    decreases ts.len(),
{
    if ts.len() == 0 {
        Seq::empty()
    } else if ts.len() == 1 {
        enc_task(ts.first())
    } else {
        enc_task(ts.first()) + seq![','] + enc_tasks(ts.drop_first())
    }
}

/// The canonical encoding of a whole journal document.
pub open spec fn encode_spec(ts: Seq<TaskView>) -> Seq<char> {
    seq!['['] + enc_tasks(ts) + seq![']']
}

// ---------------------------------------------------------------------------
// The parser, as a mathematical function
// ---------------------------------------------------------------------------

/// Whether `p` occurs in `s` starting at position `i`.
pub open spec fn begins_with(s: Seq<char>, i: int, p: Seq<char>) -> bool {
    0 <= i && i + p.len() <= s.len() && s.subrange(i, i + p.len()) == p
}

/// Parses an escaped text from position `i` (just after the opening quote)
/// through its closing quote. Returns the unescaped text and the position
/// after the closing quote.
pub open spec fn parse_text(s: Seq<char>, i: int) -> Option<(Seq<char>, int)>
    decreases s.len() - i,
{
    if i < 0 || i >= s.len() {
        None
    } else if s[i] == '"' {
        Some((Seq::empty(), i + 1))
    } else if s[i] == '\\' {
        if i + 1 >= s.len() {
            None
        } else if s[i + 1] == '"' || s[i + 1] == '\\' {
            match parse_text(s, i + 2) {
                None => None,
                Some((v, j)) => Some((seq![s[i + 1]] + v, j)),
            }
        } else {
            None
        }
    } else {
        match parse_text(s, i + 1) {
            None => None,
            Some((v, j)) => Some((seq![s[i]] + v, j)),
        }
    }
}

/// The first position at or after `i` that does not hold a decimal digit.
pub open spec fn digits_end(s: Seq<char>, i: int) -> int
    decreases s.len() - i,
{
    if 0 <= i < s.len() && is_digit(s[i]) {
        digits_end(s, i + 1)
    } else {
        i
    }
}

/// Parses a canonical decimal number from position `i`: at least one digit,
/// no leading zero, and a value that fits in a `u64`.
pub open spec fn parse_num(s: Seq<char>, i: int) -> Option<(u64, int)> {
    let j = digits_end(s, i);
    if i < 0 || j == i {
        None
    } else if s[i] == '0' && j > i + 1 {
        None
    } else if digits_val(s.subrange(i, j)) > u64::MAX {
        None
    } else {
        Some((digits_val(s.subrange(i, j)) as u64, j))
    }
}

/// Parses one task object from position `i`.
pub open spec fn parse_task(s: Seq<char>, i: int) -> Option<(TaskView, int)> {
    if !begins_with(s, i, lit_text_key()) {
        None
    } else {
        match parse_text(s, i + 9) {
            None => None,
            Some((txt, j)) => if !begins_with(s, j, lit_created_key()) {
                None
            } else {
                match parse_num(s, j + 14) {
                    None => None,
                    Some((n, k)) => if k < s.len() && s[k] == '}' {
                        Some((TaskView { text: txt, created_at: n }, k + 1))
                    } else {
                        None
                    },
                }
            },
        }
    }
}

/// Parses a nonempty comma-separated task list from position `i` (just
/// after the opening bracket or a comma) through the closing bracket.
pub open spec fn parse_tasks(s: Seq<char>, i: int) -> Option<(Seq<TaskView>, int)>
    decreases s.len() - i,
{
    match parse_task(s, i) {
        None => None,
        Some((t, j)) => if j < s.len() && s[j] == ']' {
            Some((seq![t], j + 1))
        } else if i < j && j < s.len() && s[j] == ',' {
            match parse_tasks(s, j + 1) {
                None => None,
                Some((ts, k)) => Some((seq![t] + ts, k)),
            }
        } else {
            None
        },
    }
}

/// Parses a whole journal document. Accepts exactly the canonical
/// encodings: `Some(ts)` if and only if `s == encode_spec(ts)`.
pub open spec fn parse_doc(s: Seq<char>) -> Option<Seq<TaskView>> {
    if s.len() >= 2 && s[0] == '[' {
        if s[1] == ']' {
            if s.len() == 2 {
                Some(Seq::empty())
            } else {
                None
            }
        } else {
            match parse_tasks(s, 1) {
                None => None,
                Some((ts, k)) => if k == s.len() {
                    Some(ts)
                } else {
                    None
                },
            }
        }
    } else {
        None
    }
}

// ---------------------------------------------------------------------------
// Decimal lemmas
// ---------------------------------------------------------------------------

proof fn lemma_dec_digits_shape(n: nat)
    ensures
        dec_digits(n).len() >= 1,
        forall|k: int| 0 <= k < dec_digits(n).len() ==> is_digit(#[trigger] dec_digits(n)[k]),
        dec_digits(n)[0] == '0' ==> n == 0,
        n == 0 ==> dec_digits(n) == seq!['0'],
    decreases n,
{
    if n < 10 {
        assert(dec_digits(n) == seq![digit_char(n)]);
        assert(is_digit(digit_char(n)));
        assert(digit_char(n) == '0' ==> n == 0);
    } else {
        lemma_dec_digits_shape(n / 10);
        let x = dec_digits(n / 10);
        assert(dec_digits(n) == x.push(digit_char((n % 10) as nat)));
        assert(dec_digits(n)[0] == x[0]);
        assert(is_digit(digit_char((n % 10) as nat)));
        assert(forall|k: int|
            0 <= k < dec_digits(n).len() ==> is_digit(#[trigger] dec_digits(n)[k]));
    }
}

proof fn lemma_digits_val_dec(n: nat)
    ensures
        digits_val(dec_digits(n)) == n,
    decreases n,
{
    if n < 10 {
        let ds = seq![digit_char(n)];
        assert(ds.drop_last() =~= Seq::<char>::empty());
        assert(ds.last() == digit_char(n));
        assert(digits_val(Seq::<char>::empty()) == 0);
        assert(digits_val(ds) == 0 * 10 + digit_val(digit_char(n)));
        assert(digit_val(digit_char(n)) == n);
    } else {
        lemma_digits_val_dec(n / 10);
        let x = dec_digits(n / 10);
        let d = digit_char((n % 10) as nat);
        assert(x.push(d).drop_last() =~= x);
        assert(x.push(d).last() == d);
        assert(digits_val(dec_digits(n)) == digits_val(x) * 10 + digit_val(d));
        assert(digit_val(d) == n % 10);
        assert((n / 10) * 10 + n % 10 == n);
    }
}

proof fn lemma_digits_val_ge_first(ds: Seq<char>)
    requires
        ds.len() >= 1,
    ensures
        digits_val(ds) >= digit_val(ds[0]),
    decreases ds.len(),
{
    if ds.len() > 1 {
        lemma_digits_val_ge_first(ds.drop_last());
        assert(ds.drop_last()[0] == ds[0]);
        assert(digits_val(ds) == digits_val(ds.drop_last()) * 10 + digit_val(ds.last()));
        assert(digits_val(ds.drop_last()) * 10 >= digits_val(ds.drop_last()));
    }
}

/// A nonempty digit run without a leading zero is the canonical rendering
/// of its own value.
proof fn lemma_digits_val_canonical(ds: Seq<char>)
    requires
        ds.len() >= 1,
        forall|k: int| 0 <= k < ds.len() ==> is_digit(#[trigger] ds[k]),
        ds[0] == '0' ==> ds.len() == 1,
    ensures
        dec_digits(digits_val(ds)) == ds,
    decreases ds.len(),
{
    if ds.len() == 1 {
        assert(ds.drop_last() =~= Seq::<char>::empty());
        assert(ds.last() == ds[0]);
        assert(digits_val(Seq::<char>::empty()) == 0);
        assert(digits_val(ds) == 0 * 10 + digit_val(ds[0]));
        assert(digit_val(ds[0]) < 10);
        assert(digit_char(digit_val(ds[0])) == ds[0]);
        assert(dec_digits(digits_val(ds)) =~= ds);
    } else {
        let x = ds.drop_last();
        let d = ds.last();
        assert(x[0] == ds[0]);
        assert(forall|k: int| 0 <= k < x.len() ==> is_digit(#[trigger] x[k]));
        lemma_digits_val_canonical(x);
        lemma_digits_val_ge_first(x);
        assert(digit_val(x[0]) >= 1);
        let v = digits_val(ds);
        assert(v == digits_val(x) * 10 + digit_val(d));
        assert(digits_val(x) >= 1);
        assert(v >= 10) by (nonlinear_arith)
            requires
                v == digits_val(x) * 10 + digit_val(d),
                digits_val(x) >= 1,
        ;
        assert(v / 10 == digits_val(x) && v % 10 == digit_val(d)) by (nonlinear_arith)
            requires
                v == digits_val(x) * 10 + digit_val(d),
                digit_val(d) < 10,
        ;
        assert(dec_digits(v) == dec_digits(digits_val(x)).push(digit_char(digit_val(d))));
        assert(digit_char(digit_val(d)) == d);
        assert(dec_digits(v) =~= ds);
    }
}

// ---------------------------------------------------------------------------
// Soundness: whatever parses is the canonical encoding of its value
// ---------------------------------------------------------------------------

proof fn lemma_parse_text_sound(s: Seq<char>, i: int)
    requires
        parse_text(s, i) is Some,
    ensures
        ({
            let (v, j) = parse_text(s, i)->Some_0;
            &&& 0 <= i < j <= s.len()
            &&& s.subrange(i, j) == escape_seq(v) + seq!['"']
        }),
    decreases s.len() - i,
{
    let (v, j) = parse_text(s, i)->Some_0;
    if s[i] == '"' {
        assert(v =~= Seq::<char>::empty());
        assert(escape_seq(v) + seq!['"'] =~= seq![s[i]]);
        assert(s.subrange(i, i + 1) =~= seq![s[i]]);
    } else if s[i] == '\\' {
        lemma_parse_text_sound(s, i + 2);
        let (v2, j2) = parse_text(s, i + 2)->Some_0;
        assert(v == seq![s[i + 1]] + v2);
        assert(v.first() == s[i + 1]);
        assert(v.drop_first() =~= v2);
        assert(escape_char(s[i + 1]) == seq!['\\', s[i + 1]]);
        assert(s.subrange(i, j) =~= seq![s[i], s[i + 1]] + s.subrange(i + 2, j));
        assert(seq![s[i], s[i + 1]] + (escape_seq(v2) + seq!['"']) =~= (seq!['\\', s[i + 1]]
            + escape_seq(v2)) + seq!['"']);
        assert(s.subrange(i, j) =~= escape_seq(v) + seq!['"']);
    } else {
        lemma_parse_text_sound(s, i + 1);
        let (v2, j2) = parse_text(s, i + 1)->Some_0;
        assert(v == seq![s[i]] + v2);
        assert(v.first() == s[i]);
        assert(v.drop_first() =~= v2);
        assert(escape_char(s[i]) == seq![s[i]]);
        assert(s.subrange(i, j) =~= seq![s[i]] + s.subrange(i + 1, j));
        assert(seq![s[i]] + (escape_seq(v2) + seq!['"']) =~= (seq![s[i]] + escape_seq(v2))
            + seq!['"']);
        assert(s.subrange(i, j) =~= escape_seq(v) + seq!['"']);
    }
}

proof fn lemma_digits_end_bounds(s: Seq<char>, i: int)
    requires
        0 <= i <= s.len(),
    ensures
        i <= digits_end(s, i) <= s.len(),
        forall|k: int| i <= k < digits_end(s, i) ==> is_digit(#[trigger] s[k]),
        digits_end(s, i) == s.len() || !is_digit(s[digits_end(s, i)]),
    decreases s.len() - i,
{
    if i < s.len() && is_digit(s[i]) {
        lemma_digits_end_bounds(s, i + 1);
    }
}

proof fn lemma_parse_num_sound(s: Seq<char>, i: int)
    requires
        parse_num(s, i) is Some,
    ensures
        ({
            let (n, j) = parse_num(s, i)->Some_0;
            &&& 0 <= i < j <= s.len()
            &&& s.subrange(i, j) == dec_digits(n as nat)
            &&& (j == s.len() || !is_digit(s[j]))
        }),
{
    let j = digits_end(s, i);
    let (n, j2) = parse_num(s, i)->Some_0;
    if i > s.len() {
        assert(digits_end(s, i) == i);
    }
    lemma_digits_end_bounds(s, i);
    let ds = s.subrange(i, j);
    assert(forall|k: int| 0 <= k < ds.len() ==> is_digit(#[trigger] ds[k]));
    assert(ds[0] == s[i]);
    lemma_digits_val_canonical(ds);
}

proof fn lemma_parse_task_sound(s: Seq<char>, i: int)
    requires
        parse_task(s, i) is Some,
    ensures
        ({
            let (t, j) = parse_task(s, i)->Some_0;
            &&& 0 <= i < j <= s.len()
            &&& s.subrange(i, j) == enc_task(t)
        }),
{
    let (t, j) = parse_task(s, i)->Some_0;
    let (txt, j1) = parse_text(s, i + 9)->Some_0;
    lemma_parse_text_sound(s, i + 9);
    let (n, j2) = parse_num(s, j1 + 14)->Some_0;
    lemma_parse_num_sound(s, j1 + 14);
    assert(t == TaskView { text: txt, created_at: n });
    assert(j == j2 + 1);
    assert(s.subrange(i, i + 9) == lit_text_key());
    assert(s.subrange(i + 9, j1) == escape_seq(txt) + seq!['"']);
    assert(s.subrange(j1, j1 + 14) == lit_created_key());
    assert(s.subrange(j1 + 14, j2) == dec_digits(n as nat));
    assert(s[j2] == '}');
    assert(s.subrange(j2, j) =~= seq!['}']);
    assert(s.subrange(i, j) =~= s.subrange(i, i + 9) + s.subrange(i + 9, j1) + s.subrange(
        j1,
        j1 + 14,
    ) + s.subrange(j1 + 14, j2) + s.subrange(j2, j));
    assert(lit_text_key() + (escape_seq(txt) + seq!['"']) + lit_created_key() + dec_digits(
        n as nat,
    ) + seq!['}'] =~= enc_task(t));
}

proof fn lemma_parse_tasks_sound(s: Seq<char>, i: int)
    requires
        parse_tasks(s, i) is Some,
    ensures
        ({
            let (ts, k) = parse_tasks(s, i)->Some_0;
            &&& 0 <= i < k <= s.len()
            &&& ts.len() >= 1
            &&& s.subrange(i, k) == enc_tasks(ts) + seq![']']
        }),
    decreases s.len() - i,
{
    let (ts, k) = parse_tasks(s, i)->Some_0;
    let (t, j) = parse_task(s, i)->Some_0;
    lemma_parse_task_sound(s, i);
    if j < s.len() && s[j] == ']' {
        assert(ts =~= seq![t]);
        assert(enc_tasks(seq![t]) == enc_task(t));
        assert(s.subrange(j, k) =~= seq![']']);
        assert(s.subrange(i, k) =~= s.subrange(i, j) + s.subrange(j, k));
        assert(s.subrange(i, k) =~= enc_tasks(ts) + seq![']']);
    } else {
        lemma_parse_tasks_sound(s, j + 1);
        let (ts2, k2) = parse_tasks(s, j + 1)->Some_0;
        assert(ts == seq![t] + ts2);
        assert(ts.first() == t);
        assert(ts.drop_first() =~= ts2);
        assert(ts.len() >= 2);
        assert(enc_tasks(ts) == enc_task(t) + seq![','] + enc_tasks(ts2));
        assert(s.subrange(j, j + 1) =~= seq![',']);
        assert(s.subrange(i, k) =~= s.subrange(i, j) + s.subrange(j, j + 1) + s.subrange(
            j + 1,
            k,
        ));
        assert(enc_task(t) + seq![','] + (enc_tasks(ts2) + seq![']']) =~= (enc_task(t) + seq![',']
            + enc_tasks(ts2)) + seq![']']);
        assert(s.subrange(i, k) =~= enc_tasks(ts) + seq![']']);
    }
}

/// Soundness of the document parser: whatever it accepts is the canonical
/// encoding of the tasks it returns.
pub proof fn lemma_parse_doc_sound(s: Seq<char>)
    requires
        parse_doc(s) is Some,
    ensures
        s == encode_spec(parse_doc(s)->Some_0),
{
    let ts = parse_doc(s)->Some_0;
    if s[1] == ']' {
        assert(ts =~= Seq::<TaskView>::empty());
        assert(encode_spec(ts) =~= seq!['[', ']']);
        assert(s =~= seq!['[', ']']);
    } else {
        lemma_parse_tasks_sound(s, 1);
        let (ts2, k) = parse_tasks(s, 1)->Some_0;
        assert(s.subrange(1, s.len() as int) == enc_tasks(ts2) + seq![']']);
        assert(s =~= seq![s[0]] + s.subrange(1, s.len() as int));
        assert(seq!['['] + (enc_tasks(ts) + seq![']']) =~= encode_spec(ts));
        assert(s =~= encode_spec(ts));
    }
}

// ---------------------------------------------------------------------------
// Completeness: every canonical encoding parses back to its value
// ---------------------------------------------------------------------------

proof fn lemma_parse_text_complete(s: Seq<char>, i: int, v: Seq<char>)
    requires
        begins_with(s, i, escape_seq(v) + seq!['"']),
    ensures
        parse_text(s, i) == Some((v, i + escape_seq(v).len() + 1)),
    decreases v.len(),
{
    let e = escape_seq(v) + seq!['"'];
    assert forall|m: int| i <= m < i + e.len() implies #[trigger] s[m] == e[m - i] by {
        assert(s.subrange(i, i + e.len() as int)[m - i] == e[m - i]);
    }
    assert(s[i] == e[0]);
    if v.len() == 0 {
        assert(e =~= seq!['"']);
        assert(s[i] == '"');
        assert(parse_text(s, i) == Some((Seq::<char>::empty(), i + 1)));
        assert(Seq::<char>::empty() =~= v);
    } else {
        let c = v.first();
        let v2 = v.drop_first();
        let e2 = escape_seq(v2) + seq!['"'];
        assert(escape_seq(v) == escape_char(c) + escape_seq(v2));
        if c == '"' || c == '\\' {
            assert(escape_char(c) == seq!['\\', c]);
            assert(e[0] == '\\');
            assert(e[1] == c);
            assert(s[i] == '\\');
            assert(s[i + 1] == c);
            assert(forall|m: int| 2 <= m < e.len() ==> #[trigger] e[m] == e2[m - 2]);
            assert(s.subrange(i + 2, i + 2 + e2.len() as int) =~= e2);
            lemma_parse_text_complete(s, i + 2, v2);
            assert(seq![s[i + 1]] + v2 =~= v);
        } else {
            assert(escape_char(c) == seq![c]);
            assert(e[0] == c);
            assert(s[i] == c);
            assert(s[i] != '"' && s[i] != '\\');
            assert(forall|m: int| 1 <= m < e.len() ==> #[trigger] e[m] == e2[m - 1]);
            assert(s.subrange(i + 1, i + 1 + e2.len() as int) =~= e2);
            lemma_parse_text_complete(s, i + 1, v2);
            assert(seq![s[i]] + v2 =~= v);
        }
    }
}

proof fn lemma_digits_end_complete(s: Seq<char>, i: int, m: int)
    requires
        0 <= i,
        i + m <= s.len(),
        0 <= m,
        forall|k: int| i <= k < i + m ==> is_digit(#[trigger] s[k]),
        i + m == s.len() || !is_digit(s[i + m]),
    ensures
        digits_end(s, i) == i + m,
    decreases m,
{
    if m == 0 {
    } else {
        lemma_digits_end_complete(s, i + 1, m - 1);
    }
}

proof fn lemma_parse_num_complete(s: Seq<char>, i: int, n: u64)
    requires
        begins_with(s, i, dec_digits(n as nat)),
        i + dec_digits(n as nat).len() == s.len() || !is_digit(
            s[i + dec_digits(n as nat).len()],
        ),
    ensures
        parse_num(s, i) == Some((n, i + dec_digits(n as nat).len())),
{
    let ds = dec_digits(n as nat);
    lemma_dec_digits_shape(n as nat);
    assert(forall|k: int| i <= k < i + ds.len() ==> is_digit(#[trigger] s[k])) by {
        assert(forall|k: int| i <= k < i + ds.len() ==> #[trigger] s[k] == ds[k - i]);
    }
    lemma_digits_end_complete(s, i, ds.len() as int);
    let j = digits_end(s, i);
    assert(j == i + ds.len());
    assert(s.subrange(i, j) =~= ds);
    lemma_digits_val_dec(n as nat);
    assert(digits_val(ds) == n as nat);
    assert(s[i] == ds[0]);
    if s[i] == '0' {
        assert(ds[0] == '0');
        assert(n == 0);
        assert(ds.len() == 1);
    }
}

proof fn lemma_parse_task_complete(s: Seq<char>, i: int, t: TaskView)
    requires
        begins_with(s, i, enc_task(t)),
    ensures
        parse_task(s, i) == Some((t, i + enc_task(t).len())),
{
    let et = enc_task(t);
    let txt = escape_seq(t.text) + seq!['"'];
    let el = escape_seq(t.text).len() as int;
    let num = dec_digits(t.created_at as nat);
    let dl = num.len() as int;
    lemma_dec_digits_shape(t.created_at as nat);
    assert(et.len() == 9 + el + 1 + 14 + dl + 1);
    assert forall|m: int| i <= m < i + et.len() implies #[trigger] s[m] == et[m - i] by {
        assert(s.subrange(i, i + et.len() as int)[m - i] == et[m - i]);
    }
    // the opening literal
    assert(forall|m: int| 0 <= m < 9 ==> #[trigger] et[m] == lit_text_key()[m]);
    assert(s.subrange(i, i + 9) =~= lit_text_key());
    assert(begins_with(s, i, lit_text_key()));
    // the escaped text and its closing quote
    assert(forall|m: int| 9 <= m < 9 + el + 1 ==> #[trigger] et[m] == txt[m - 9]);
    assert(s.subrange(i + 9, i + 9 + txt.len() as int) =~= txt);
    lemma_parse_text_complete(s, i + 9, t.text);
    let j = i + 9 + el + 1;
    assert(parse_text(s, i + 9) == Some((t.text, j)));
    // the middle literal
    assert(forall|m: int|
        9 + el + 1 <= m < 9 + el + 1 + 14 ==> #[trigger] et[m] == lit_created_key()[m - (9 + el
            + 1)]);
    assert(s.subrange(j, j + 14) =~= lit_created_key());
    assert(begins_with(s, j, lit_created_key()));
    // the number and the closing brace
    assert(forall|m: int|
        9 + el + 1 + 14 <= m < 9 + el + 1 + 14 + dl ==> #[trigger] et[m] == num[m - (9 + el + 1
            + 14)]);
    assert(s.subrange(j + 14, j + 14 + dl) =~= num);
    assert(begins_with(s, j + 14, num));
    assert(et[9 + el + 1 + 14 + dl] == '}');
    assert(s[j + 14 + dl] == '}');
    assert(!is_digit('}'));
    lemma_parse_num_complete(s, j + 14, t.created_at);
    assert(parse_num(s, j + 14) == Some((t.created_at, j + 14 + dl)));
}

#[verifier::rlimit(50)]
proof fn lemma_parse_tasks_complete(s: Seq<char>, i: int, ts: Seq<TaskView>)
    requires
        ts.len() >= 1,
        begins_with(s, i, enc_tasks(ts) + seq![']']),
    ensures
        parse_tasks(s, i) == Some((ts, i + enc_tasks(ts).len() + 1)),
    decreases ts.len(),
{
    let whole = enc_tasks(ts) + seq![']'];
    assert forall|m: int| i <= m < i + whole.len() implies #[trigger] s[m] == whole[m - i] by {
        assert(s.subrange(i, i + whole.len() as int)[m - i] == whole[m - i]);
    }
    let t = ts.first();
    let et = enc_task(t);
    let etl = et.len() as int;
    if ts.len() == 1 {
        assert(enc_tasks(ts) == et);
        assert(forall|m: int| 0 <= m < etl ==> #[trigger] whole[m] == et[m]);
        assert(s.subrange(i, i + etl) =~= et);
        lemma_parse_task_complete(s, i, t);
        let j = i + etl;
        assert(s[j] == whole[etl]);
        assert(whole[etl] == ']');
        assert(parse_tasks(s, i) == Some((seq![t], j + 1)));
        assert(seq![t] =~= ts);
    } else {
        let ts2 = ts.drop_first();
        assert(enc_tasks(ts) == et + seq![','] + enc_tasks(ts2));
        assert(forall|m: int| 0 <= m < etl ==> #[trigger] whole[m] == et[m]);
        assert(s.subrange(i, i + etl) =~= et);
        lemma_parse_task_complete(s, i, t);
        let j = i + etl;
        assert(s[j] == whole[etl]);
        assert(whole[etl] == ',');
        assert(s[j] == ',');
        assert(s[j] != ']');
        let rest = enc_tasks(ts2) + seq![']'];
        assert(forall|m: int| etl + 1 <= m < whole.len() ==> #[trigger] whole[m] == rest[m - (etl
            + 1)]);
        assert(s.subrange(j + 1, j + 1 + rest.len() as int) =~= rest);
        lemma_parse_tasks_complete(s, j + 1, ts2);
        assert(parse_tasks(s, j + 1) == Some((ts2, j + 1 + enc_tasks(ts2).len() + 1)));
        assert(seq![t] + ts2 =~= ts);
    }
}

/// Completeness of the document parser: every canonical encoding is
/// accepted and yields back exactly the tasks that were encoded.
pub proof fn lemma_encode_parses(ts: Seq<TaskView>)
    ensures
        parse_doc(encode_spec(ts)) == Some(ts),
{
    let s = encode_spec(ts);
    assert(s[0] == '[');
    if ts.len() == 0 {
        assert(enc_tasks(ts) =~= Seq::<char>::empty());
        assert(s =~= seq!['[', ']']);
        assert(parse_doc(s) == Some(Seq::<TaskView>::empty()));
        assert(Seq::<TaskView>::empty() =~= ts);
    } else {
        let t = ts.first();
        assert(enc_tasks(ts)[0] == enc_task(t)[0]) by {
            if ts.len() > 1 {
                assert(enc_tasks(ts) == enc_task(t) + seq![','] + enc_tasks(ts.drop_first()));
                assert(enc_task(t).len() > 0);
            }
        }
        assert(enc_task(t)[0] == '{');
        assert(s[1] == enc_tasks(ts)[0]);
        assert(s[1] != ']');
        let rest = enc_tasks(ts) + seq![']'];
        assert(s.subrange(1, 1 + rest.len() as int) =~= rest);
        lemma_parse_tasks_complete(s, 1, ts);
        assert(parse_tasks(s, 1) == Some((ts, s.len() as int)));
    }
}

/// The canonical encoding is injective: distinct task sequences have
/// distinct documents.
pub proof fn lemma_encode_injective(a: Seq<TaskView>, b: Seq<TaskView>)
    requires
        encode_spec(a) == encode_spec(b),
    ensures
        a == b,
{
    lemma_encode_parses(a);
    lemma_encode_parses(b);
}

// ---------------------------------------------------------------------------
// Encoder
// ---------------------------------------------------------------------------

fn digit_char_exec(d: u64) -> (c: char)
    requires
        d < 10,
    ensures
        c == digit_char(d as nat),
{
    if d == 0 {
        '0'
    } else if d == 1 {
        '1'
    } else if d == 2 {
        '2'
    } else if d == 3 {
        '3'
    } else if d == 4 {
        '4'
    } else if d == 5 {
        '5'
    } else if d == 6 {
        '6'
    } else if d == 7 {
        '7'
    } else if d == 8 {
        '8'
    } else {
        '9'
    }
}

/// The canonical decimal rendering of `n`.
pub fn u64_to_dec(n: u64) -> (r: String)
    ensures
        r@ == dec_digits(n as nat),
    decreases n,
{
    if n < 10 {
        let mut s = String::new();
        s.push(digit_char_exec(n));
        proof {
            assert(s@ =~= dec_digits(n as nat));
        }
        s
    } else {
        let mut s = u64_to_dec(n / 10);
        s.push(digit_char_exec(n % 10));
        s
    }
}

proof fn lemma_escape_snoc(s: Seq<char>, c: char)
    ensures
        escape_seq(s.push(c)) == escape_seq(s) + escape_char(c),
    decreases s.len(),
{
    if s.len() == 0 {
        assert(s.push(c).first() == c);
        assert(s.push(c).drop_first() =~= Seq::<char>::empty());
        assert(escape_seq(s.push(c)) == escape_char(c) + escape_seq(Seq::<char>::empty()));
        assert(escape_char(c) + escape_seq(Seq::<char>::empty()) =~= escape_char(c));
        assert(escape_seq(s) + escape_char(c) =~= escape_char(c));
    } else {
        lemma_escape_snoc(s.drop_first(), c);
        assert(s.push(c).first() == s.first());
        assert(s.push(c).drop_first() =~= s.drop_first().push(c));
        assert(escape_seq(s.push(c)) == escape_char(s.first()) + (escape_seq(s.drop_first())
            + escape_char(c)));
        assert(escape_char(s.first()) + (escape_seq(s.drop_first()) + escape_char(c)) =~= (
        escape_char(s.first()) + escape_seq(s.drop_first())) + escape_char(c));
    }
}

/// Appends the escaped form of `text` to `out`.
fn append_escaped(out: &mut String, text: &str)
    ensures
        final(out)@ == old(out)@ + escape_seq(text@),
{
    let len = text.unicode_len();
    let mut i: usize = 0;
    proof {
        assert(text@.subrange(0, 0) =~= Seq::<char>::empty());
        assert(out@ + escape_seq(text@.subrange(0, 0)) =~= out@);
    }
    while i < len
        invariant
            len == text@.len(),
            i <= len,
            out@ == old(out)@ + escape_seq(text@.subrange(0, i as int)),
        decreases len - i,
    {
        let ghost pre = text@.subrange(0, i as int);
        let c = text.get_char(i);
        if c == '"' || c == '\\' {
            out.push('\\');
            out.push(c);
        } else {
            out.push(c);
        }
        proof {
            lemma_escape_snoc(pre, c);
            assert(text@.subrange(0, i + 1) =~= pre.push(c));
            assert(out@ =~= old(out)@ + escape_seq(text@.subrange(0, i + 1)));
        }
        i += 1;
    }
    proof {
        assert(text@.subrange(0, len as int) =~= text@);
    }
}

/// Appends the canonical encoding of one task to `out`.
fn append_task(out: &mut String, t: &Task)
    ensures
        final(out)@ == old(out)@ + enc_task(t@),
{
    proof {
        reveal_strlit("{\"text\":\"");
        assert("{\"text\":\""@ =~= lit_text_key());
        reveal_strlit("\",\"created_at\":");
        assert("\",\"created_at\":"@ =~= seq!['"'] + lit_created_key());
    }
    out.append("{\"text\":\"");
    append_escaped(out, t.text.as_str());
    out.append("\",\"created_at\":");
    let num = u64_to_dec(t.created_at);
    out.append(num.as_str());
    out.push('}');
    proof {
        assert(out@ =~= old(out)@ + enc_task(t@));
    }
}

proof fn lemma_enc_tasks_snoc(ts: Seq<TaskView>, t: TaskView)
    requires
        ts.len() >= 1,
    ensures
        enc_tasks(ts.push(t)) == enc_tasks(ts) + seq![','] + enc_task(t),
    decreases ts.len(),
{
    if ts.len() == 1 {
        assert(ts.push(t).drop_first() =~= seq![t]);
        assert(enc_tasks(seq![t]) == enc_task(t));
        assert(enc_tasks(ts.push(t)) =~= enc_tasks(ts) + seq![','] + enc_task(t));
    } else {
        lemma_enc_tasks_snoc(ts.drop_first(), t);
        assert(ts.push(t).drop_first() =~= ts.drop_first().push(t));
        assert(enc_tasks(ts.push(t)) =~= enc_tasks(ts) + seq![','] + enc_task(t));
    }
}

/// Encodes a task sequence as the canonical journal document.
pub fn encode(tasks: &Vec<Task>) -> (r: String)
    ensures
        r@ == encode_spec(tasks_view(tasks@)),
{
    let mut out = String::new();
    out.push('[');
    let n = tasks.len();
    let mut k: usize = 0;
    proof {
        assert(tasks_view(tasks@).subrange(0, 0) =~= Seq::<TaskView>::empty());
        assert(out@ =~= seq!['['] + enc_tasks(tasks_view(tasks@).subrange(0, 0)));
    }
    while k < n
        invariant
            n == tasks@.len(),
            k <= n,
            out@ == seq!['['] + enc_tasks(tasks_view(tasks@).subrange(0, k as int)),
        decreases n - k,
    {
        let ghost pre = tasks_view(tasks@).subrange(0, k as int);
        if k > 0 {
            proof {
                lemma_enc_tasks_snoc(pre, tasks@[k as int]@);
            }
            out.push(',');
        }
        append_task(&mut out, &tasks[k]);
        proof {
            assert(tasks_view(tasks@).subrange(0, k + 1) =~= pre.push(tasks@[k as int]@));
            if k == 0 {
                assert(pre.push(tasks@[0]@) =~= seq![tasks@[0]@]);
                assert(enc_tasks(seq![tasks@[0]@]) == enc_task(tasks@[0]@));
            }
            assert(out@ =~= seq!['['] + enc_tasks(tasks_view(tasks@).subrange(0, k + 1)));
        }
        k += 1;
    }
    out.push(']');
    proof {
        assert(tasks_view(tasks@).subrange(0, n as int) =~= tasks_view(tasks@));
        assert(out@ =~= encode_spec(tasks_view(tasks@)));
    }
    out
}


// ---------------------------------------------------------------------------
// Decoder
// ---------------------------------------------------------------------------

fn is_digit_exec(c: char) -> (r: bool)
    ensures
        r == is_digit(c),
{
    c == '0' || c == '1' || c == '2' || c == '3' || c == '4' || c == '5' || c == '6' || c == '7'
        || c == '8' || c == '9'
}

fn digit_val_exec(c: char) -> (r: u64)
    requires
        is_digit(c),
    ensures
        r == digit_val(c),
{
    if c == '0' {
        0
    } else if c == '1' {
        1
    } else if c == '2' {
        2
    } else if c == '3' {
        3
    } else if c == '4' {
        4
    } else if c == '5' {
        5
    } else if c == '6' {
        6
    } else if c == '7' {
        7
    } else if c == '8' {
        8
    } else {
        9
    }
}

/// Whether `p` occurs in `s` starting at position `i`.
fn expect_lit(s: &str, len: usize, i: usize, p: &str, plen: usize) -> (r: bool)
    requires
        len == s@.len(),
        plen == p@.len(),
        i <= len,
    ensures
        r == begins_with(s@, i as int, p@),
{
    if plen > len - i {
        return false;
    }
    let mut k: usize = 0;
    while k < plen
        invariant
            len == s@.len(),
            plen == p@.len(),
            i + plen <= len,
            k <= plen,
            forall|m: int| 0 <= m < k ==> s@[i + m] == p@[m],
        decreases plen - k,
    {
        if s.get_char(i + k) != p.get_char(k) {
            proof {
                assert(s@.subrange(i as int, i + plen as int)[k as int] == s@[i + k]);
            }
            return false;
        }
        k += 1;
    }
    proof {
        assert(s@.subrange(i as int, i + plen as int) =~= p@);
    }
    true
}

/// What the rest of a text parse adds to what is already accumulated.
spec fn text_cont(s: Seq<char>, start: int, i: int, acc: Seq<char>) -> bool {
    parse_text(s, start) == (match parse_text(s, i) {
        None => None::<(Seq<char>, int)>,
        Some((v, j)) => Some((acc + v, j)),
    })
}

fn parse_text_exec(s: &str, len: usize, start: usize) -> (r: Option<(String, usize)>)
    requires
        len == s@.len(),
        start <= len,
    ensures
        match r {
            Some((v, j)) => parse_text(s@, start as int) == Some((v@, j as int)) && start < j
                <= len,
            None => parse_text(s@, start as int) is None,
        },
{
    let mut acc = String::new();
    let mut i: usize = start;
    proof {
        match parse_text(s@, start as int) {
            Some((v, j)) => {
                assert(Seq::<char>::empty() + v =~= v);
            },
            None => {},
        }
    }
    loop
        invariant
            len == s@.len(),
            start <= i <= len,
            text_cont(s@, start as int, i as int, acc@),
        decreases len - i,
    {
        if i >= len {
            return None;
        }
        let ghost acc_old = acc@;
        let c = s.get_char(i);
        if c == '"' {
            proof {
                assert(acc_old + Seq::<char>::empty() =~= acc_old);
            }
            return Some((acc, i + 1));
        } else if c == '\\' {
            if i + 1 >= len {
                return None;
            }
            let e = s.get_char(i + 1);
            if e == '"' || e == '\\' {
                acc.push(e);
                proof {
                    match parse_text(s@, i + 2) {
                        Some((v2, j2)) => {
                            assert(acc_old.push(e) + v2 =~= acc_old + (seq![e] + v2));
                        },
                        None => {},
                    }
                }
                i = i + 2;
            } else {
                return None;
            }
        } else {
            acc.push(c);
            proof {
                match parse_text(s@, i + 1) {
                    Some((v2, j2)) => {
                        assert(acc_old.push(c) + v2 =~= acc_old + (seq![c] + v2));
                    },
                    None => {},
                }
            }
            i = i + 1;
        }
    }
}

fn parse_num_exec(s: &str, len: usize, start: usize) -> (r: Option<(u64, usize)>)
    requires
        len == s@.len(),
        start <= len,
    ensures
        match r {
            Some((n, j)) => parse_num(s@, start as int) == Some((n, j as int)) && start < j <= len,
            None => parse_num(s@, start as int) is None,
        },
{
    let mut i: usize = start;
    let mut acc: u64 = 0;
    let mut overflow = false;
    proof {
        assert(s@.subrange(start as int, start as int) =~= Seq::<char>::empty());
    }
    loop
        invariant
            len == s@.len(),
            start <= i <= len,
            digits_end(s@, start as int) == digits_end(s@, i as int),
            forall|k: int| start <= k < i ==> is_digit(#[trigger] s@[k]),
            !overflow ==> acc == digits_val(s@.subrange(start as int, i as int)),
            overflow ==> digits_val(s@.subrange(start as int, i as int)) > u64::MAX,
        ensures
            start <= i <= len,
            len == s@.len(),
            digits_end(s@, start as int) == digits_end(s@, i as int),
            i == len || !is_digit(s@[i as int]),
            !overflow ==> acc == digits_val(s@.subrange(start as int, i as int)),
            overflow ==> digits_val(s@.subrange(start as int, i as int)) > u64::MAX,
        decreases len - i,
    {
        if i >= len {
            break ;
        }
        let c = s.get_char(i);
        if !is_digit_exec(c) {
            break ;
        }
        let d = digit_val_exec(c);
        let ghost pre = s@.subrange(start as int, i as int);
        proof {
            assert(s@.subrange(start as int, i + 1) =~= pre.push(c));
            assert(pre.push(c).drop_last() =~= pre);
            assert(pre.push(c).last() == c);
            assert(digits_val(pre.push(c)) == digits_val(pre) * 10 + digit_val(c));
        }
        if !overflow {
            match acc.checked_mul(10) {
                Some(m) => {
                    match m.checked_add(d) {
                        Some(v) => {
                            acc = v;
                        },
                        None => {
                            overflow = true;
                        },
                    }
                },
                None => {
                    proof {
                        assert(digits_val(pre) * 10 + digit_val(c) > u64::MAX);
                    }
                    overflow = true;
                },
            }
        } else {
            proof {
                assert(digits_val(pre) * 10 >= digits_val(pre));
            }
        }
        i += 1;
    }
    proof {
        assert(digits_end(s@, i as int) == i as int);
    }
    if i == start {
        return None;
    }
    if s.get_char(start) == '0' && i > start + 1 {
        return None;
    }
    if overflow {
        return None;
    }
    Some((acc, i))
}

fn parse_task_exec(s: &str, len: usize, start: usize) -> (r: Option<(Task, usize)>)
    requires
        len == s@.len(),
        start <= len,
    ensures
        match r {
            Some((t, j)) => parse_task(s@, start as int) == Some((t@, j as int)) && start < j
                <= len,
            None => parse_task(s@, start as int) is None,
        },
{
    proof {
        reveal_strlit("{\"text\":\"");
        assert("{\"text\":\""@ =~= lit_text_key());
        reveal_strlit(",\"created_at\":");
        assert(",\"created_at\":"@ =~= lit_created_key());
    }
    if !expect_lit(s, len, start, "{\"text\":\"", 9) {
        return None;
    }
    let (txt, j) = match parse_text_exec(s, len, start + 9) {
        None => {
            return None;
        },
        Some(p) => p,
    };
    if !expect_lit(s, len, j, ",\"created_at\":", 14) {
        return None;
    }
    let (n, k) = match parse_num_exec(s, len, j + 14) {
        None => {
            return None;
        },
        Some(p) => p,
    };
    if k < len && s.get_char(k) == '}' {
        Some((Task { text: txt, created_at: n }, k + 1))
    } else {
        None
    }
}

/// What the rest of a task-list parse adds to what is already accumulated.
spec fn tasks_cont(s: Seq<char>, start: int, i: int, accv: Seq<TaskView>) -> bool {
    parse_tasks(s, start) == (match parse_tasks(s, i) {
        None => None::<(Seq<TaskView>, int)>,
        Some((ts, k)) => Some((accv + ts, k)),
    })
}

fn parse_tasks_exec(s: &str, len: usize, start: usize) -> (r: Option<(Vec<Task>, usize)>)
    requires
        len == s@.len(),
        start <= len,
    ensures
        match r {
            Some((ts, k)) => parse_tasks(s@, start as int) == Some((tasks_view(ts@), k as int))
                && k <= len,
            None => parse_tasks(s@, start as int) is None,
        },
{
    let mut acc: Vec<Task> = Vec::new();
    let mut i: usize = start;
    proof {
        assert(tasks_view(acc@) =~= Seq::<TaskView>::empty());
        match parse_tasks(s@, start as int) {
            Some((ts, k)) => {
                assert(Seq::<TaskView>::empty() + ts =~= ts);
            },
            None => {},
        }
    }
    loop
        invariant
            len == s@.len(),
            start <= i <= len,
            tasks_cont(s@, start as int, i as int, tasks_view(acc@)),
        decreases len - i,
    {
        let (t, j) = match parse_task_exec(s, len, i) {
            None => {
                return None;
            },
            Some(p) => p,
        };
        let ghost accv_old = tasks_view(acc@);
        let ghost tv = t@;
        acc.push(t);
        proof {
            assert(tasks_view(acc@) =~= accv_old.push(tv));
        }
        if j < len && s.get_char(j) == ']' {
            proof {
                assert(accv_old + seq![tv] =~= accv_old.push(tv));
            }
            return Some((acc, j + 1));
        } else if j < len && s.get_char(j) == ',' {
            proof {
                match parse_tasks(s@, j + 1) {
                    Some((ts2, k2)) => {
                        assert(accv_old.push(tv) + ts2 =~= accv_old + (seq![tv] + ts2));
                    },
                    None => {},
                }
            }
            i = j + 1;
        } else {
            return None;
        }
    }
}

/// Decodes a journal document. Returns `Some` exactly on the canonical
/// encodings, and then yields exactly the encoded tasks.
pub fn decode(s: &str) -> (r: Option<Vec<Task>>)
    ensures
        match r {
            Some(ts) => parse_doc(s@) == Some(tasks_view(ts@)),
            None => parse_doc(s@) is None,
        },
{
    let len = s.unicode_len();
    if len < 2 {
        return None;
    }
    if s.get_char(0) != '[' {
        return None;
    }
    if s.get_char(1) == ']' {
        if len == 2 {
            let ts: Vec<Task> = Vec::new();
            proof {
                assert(tasks_view(ts@) =~= Seq::<TaskView>::empty());
            }
            return Some(ts);
        } else {
            return None;
        }
    }
    match parse_tasks_exec(s, len, 1) {
        None => None,
        Some((ts, k)) => {
            if k == len {
                Some(ts)
            } else {
                None
            }
        },
    }
}

} // verus!
