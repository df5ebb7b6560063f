use vstd::prelude::*;
use crate::tree::{Tree, Value};
use serde_json::Value as Json;

verus! {

/// The decimal value of a run of ASCII digits.
pub open spec fn digits_value(d: Seq<char>) -> int
    decreases d.len(),
{
    if d.len() == 0 {
        0
    } else {
        digits_value(d.drop_last()) * 10 + (d.last() as u32 - '0' as u32)
    }
}

/// One or more ASCII digits.
pub open spec fn all_digits(d: Seq<char>) -> bool {
    d.len() > 0 && forall|i: int| 0 <= i < d.len() ==> '0' <= #[trigger] d[i] <= '9'
}

/// The integer that `s` writes: an optional sign, then decimal digits.
pub open spec fn int_literal(s: Seq<char>) -> Option<int> {
    if s.len() > 0 && s[0] == '-' && all_digits(s.drop_first()) {
        Some(-digits_value(s.drop_first()))
    } else if s.len() > 0 && s[0] == '+' && all_digits(s.drop_first()) {
        Some(digits_value(s.drop_first()))
    } else if all_digits(s) {
        Some(digits_value(s))
    } else {
        None
    }
}

/// The 64-bit integer that `s` writes, where it fits.
pub open spec fn i64_literal(s: Seq<char>) -> Option<i64> {
    match int_literal(s) {
        Some(n) => if i64::MIN <= n <= i64::MAX {
            Some(n as i64)
        } else {
            None
        },
        None => None,
    }
}

pub open spec fn is_digit(c: char) -> bool {
    '0' <= c <= '9'
}

/// Zero or more ASCII digits.
pub open spec fn digit_run(s: Seq<char>) -> bool {
    forall|i: int| 0 <= i < s.len() ==> is_digit(#[trigger] s[i])
}

/// Position of the first `a` or `b` in `s`, or -1.
pub open spec fn first_of(s: Seq<char>, a: char, b: char) -> int
    decreases s.len(),
{
    if s.len() == 0 {
        -1
    } else {
        let p = first_of(s.drop_last(), a, b);
        if p >= 0 {
            p
        } else if s.last() == a || s.last() == b {
            s.len() - 1
        } else {
            -1
        }
    }
}

/// Digits with at most one decimal point, and at least one digit.
pub open spec fn mantissa(s: Seq<char>) -> bool {
    let d = first_of(s, '.', '.');
    if d < 0 {
        s.len() > 0 && digit_run(s)
    } else {
        s.len() >= 2 && digit_run(s.subrange(0, d)) && digit_run(s.subrange(d + 1, s.len() as int))
    }
}

/// `s` without one leading `+` or `-`.
pub open spec fn unsigned(s: Seq<char>) -> Seq<char> {
    if s.len() > 0 && (s[0] == '+' || s[0] == '-') {
        s.drop_first()
    } else {
        s
    }
}

/// A mantissa, then optionally `e` or `E` and a signed run of digits.
pub open spec fn unsigned_float(s: Seq<char>) -> bool {
    let e = first_of(s, 'e', 'E');
    if e < 0 {
        mantissa(s)
    } else {
        let x = unsigned(s.subrange(e + 1, s.len() as int));
        mantissa(s.subrange(0, e)) && x.len() > 0 && digit_run(x)
    }
}

/// `s` spells `lower`, each letter in either case.
pub open spec fn spells(s: Seq<char>, lower: Seq<char>, upper: Seq<char>) -> bool {
    s.len() == lower.len() && forall|i: int| 0 <= i < s.len() ==> (#[trigger] s[i] == lower[i] || s[i] == upper[i])
}

/// Whether `s` is a float literal as Rust's `f64` parser reads one: an optional
/// sign, then `inf`, `infinity` or `nan` in any case, or a decimal number with
/// an optional exponent.
pub open spec fn float_literal(s: Seq<char>) -> bool {
    let u = unsigned(s);
    spells(u, seq!['i', 'n', 'f'], seq!['I', 'N', 'F']) || spells(
        u,
        seq!['i', 'n', 'f', 'i', 'n', 'i', 't', 'y'],
        seq!['I', 'N', 'F', 'I', 'N', 'I', 'T', 'Y'],
    ) || spells(u, seq!['n', 'a', 'n'], seq!['N', 'A', 'N']) || unsigned_float(u)
}

/// The tree that `serde_json` decodes from `s`, if `s` is one JSON document.
pub uninterp spec fn json_tree(s: Seq<char>) -> Option<Tree>;

proof fn lemma_digits_grow(d: Seq<char>, k: int)
    requires
        0 <= k <= d.len(),
        forall|i: int| 0 <= i < d.len() ==> '0' <= #[trigger] d[i] <= '9',
    ensures
        digits_value(d.subrange(0, k)) <= digits_value(d),
        digits_value(d) >= 0,
    decreases d.len(),
{
    if d.len() > 0 {
        let pre = d.drop_last();
        assert forall|i: int| 0 <= i < pre.len() implies '0' <= #[trigger] pre[i] <= '9' by {
            assert(pre[i] == d[i]);
        }
        if k == d.len() {
            assert(d.subrange(0, k) =~= d);
            lemma_digits_grow(pre, 0);
        } else {
            assert(d.subrange(0, k) =~= pre.subrange(0, k));
            lemma_digits_grow(pre, k);
        }
        assert('0' <= d[d.len() - 1]);
        assert(digits_value(d) >= digits_value(pre)) by (nonlinear_arith)
            requires
                digits_value(d) == digits_value(pre) * 10 + (d.last() as u32 - '0' as u32),
                digits_value(pre) >= 0,
                d.last() as u32 >= '0' as u32,
        ;
    } else {
        assert(d.subrange(0, k) =~= d);
    }
}

/// Reads a 64-bit integer written in decimal (see `i64_literal`).
fn parse_i64(s: &Vec<char>) -> (r: Option<i64>)
    ensures
        r == i64_literal(s@),
{
    let n = s.len();
    let neg = n > 0 && s[0] == '-';
    let start: usize = if n > 0 && (s[0] == '-' || s[0] == '+') { 1 } else { 0 };
    let ghost d = s@.subrange(start as int, n as int);
    proof {
        if start == 1 {
            assert(d =~= s@.drop_first());
            assert(!all_digits(s@)) by {
                assert(!('0' <= s@[0] <= '9'));
            }
        } else {
            assert(d =~= s@);
        }
    }
    assert(int_literal(s@) == (if all_digits(d) {
        Some(if neg { -digits_value(d) } else { digits_value(d) })
    } else {
        None::<int>
    }));
    if start == n {
        assert(!all_digits(d));
        return None;
    }
    let limit: u64 = if neg { 9223372036854775808 } else { 9223372036854775807 };
    let mut acc: u64 = 0;
    let mut i: usize = start;
    assert(d.subrange(0, 0).len() == 0);
    while i < n
        invariant
            start <= i <= n,
            n == s.len(),
            start <= 1,
            d == s@.subrange(start as int, n as int),
            limit == (if neg { 9223372036854775808u64 } else { 9223372036854775807u64 }),
            int_literal(s@) == (if all_digits(d) {
                Some(if neg { -digits_value(d) } else { digits_value(d) })
            } else {
                None::<int>
            }),
            acc <= limit,
            acc as int == digits_value(d.subrange(0, i - start)),
            forall|j: int| 0 <= j < i - start ==> '0' <= #[trigger] d[j] <= '9',
        decreases n - i,
    {
        let c = s[i];
        assert(d[i - start] == c);
        if !(c >= '0' && c <= '9') {
            assert(!all_digits(d)) by {
                assert(!('0' <= d[i - start] <= '9'));
            }
            return None;
        }
        let dv = (c as u32 - '0' as u32) as u64;
        assert(d.subrange(0, i - start + 1).drop_last() =~= d.subrange(0, i - start));
        assert(d.subrange(0, i - start + 1).last() == c);
        if acc > (limit - dv) / 10 {
            assert(acc * 10 + dv > limit) by (nonlinear_arith)
                requires
                    acc > (limit - dv) / 10,
                    dv <= limit,
            ;
            proof {
                if all_digits(d) {
                    lemma_digits_grow(d, i - start + 1);
                    assert(digits_value(d) > limit);
                }
            }
            return None;
        }
        assert(acc * 10 + dv <= limit) by (nonlinear_arith)
            requires
                acc <= (limit - dv) / 10,
                dv <= limit,
        ;
        acc = acc * 10 + dv;
        i = i + 1;
    }
    assert(d.subrange(0, n - start) =~= d);
    assert(all_digits(d));
    if neg {
        if acc == 9223372036854775808 {
            Some(i64::MIN)
        } else {
            Some(-(acc as i64))
        }
    } else {
        Some(acc as i64)
    }
}

pub proof fn lemma_first_of(s: Seq<char>, a: char, b: char)
    ensures
        -1 <= first_of(s, a, b) < s.len(),
        first_of(s, a, b) >= 0 ==> (s[first_of(s, a, b)] == a || s[first_of(s, a, b)] == b),
        forall|j: int|
            #![trigger s[j]]
            0 <= j < s.len() && (first_of(s, a, b) < 0 || j < first_of(s, a, b)) ==> s[j] != a && s[j]
                != b,
    decreases s.len(),
{
    if s.len() > 0 {
        lemma_first_of(s.drop_last(), a, b);
        assert(forall|j: int| 0 <= j < s.len() - 1 ==> s.drop_last()[j] == s[j]);
    }
}

/// Position of the first `a` or `b` in `s[lo..hi]`, counted from `lo`, or -1.
fn first_of_exec(s: &Vec<char>, lo: usize, hi: usize, a: char, b: char) -> (r: Option<usize>)
    requires
        lo <= hi <= s.len(),
    ensures
        match r {
            Some(p) => p == first_of(s@.subrange(lo as int, hi as int), a, b),
            None => first_of(s@.subrange(lo as int, hi as int), a, b) < 0,
        },
{
    let ghost t = s@.subrange(lo as int, hi as int);
    let mut i: usize = lo;
    while i < hi
        invariant
            lo <= i <= hi <= s.len(),
            t == s@.subrange(lo as int, hi as int),
            forall|j: int| 0 <= j < i - lo ==> t[j] != a && t[j] != b,
        decreases hi - i,
    {
        proof {
            lemma_first_of(t, a, b);
        }
        if s[i] == a || s[i] == b {
            let ghost q = first_of(t, a, b);
            assert(t[i - lo] == s@[i as int]);
            assert(q == i - lo) by {
                if q < 0 || q > i - lo {
                    assert(t[i - lo] != a && t[i - lo] != b);
                } else if q < i - lo {
                    assert(t[q] != a && t[q] != b);
                }
            }
            return Some(i - lo);
        }
        assert(t[i - lo] == s@[i as int]);
        i = i + 1;
    }
    proof {
        lemma_first_of(t, a, b);
        let q = first_of(t, a, b);
        if q >= 0 {
            assert(t[q] != a && t[q] != b);
        }
    }
    None
}

/// Whether `s[lo..hi]` is all digits.
fn digit_run_exec(s: &Vec<char>, lo: usize, hi: usize) -> (r: bool)
    requires
        lo <= hi <= s.len(),
    ensures
        r == digit_run(s@.subrange(lo as int, hi as int)),
{
    let ghost t = s@.subrange(lo as int, hi as int);
    let mut i: usize = lo;
    while i < hi
        invariant
            lo <= i <= hi <= s.len(),
            t == s@.subrange(lo as int, hi as int),
            forall|j: int| 0 <= j < i - lo ==> is_digit(#[trigger] t[j]),
        decreases hi - i,
    {
        assert(t[i - lo] == s@[i as int]);
        if !(s[i] >= '0' && s[i] <= '9') {
            return false;
        }
        i = i + 1;
    }
    true
}

/// Whether `s[lo..hi]` is a mantissa (see `mantissa`).
fn mantissa_exec(s: &Vec<char>, lo: usize, hi: usize) -> (r: bool)
    requires
        lo <= hi <= s.len(),
    ensures
        r == mantissa(s@.subrange(lo as int, hi as int)),
{
    let ghost t = s@.subrange(lo as int, hi as int);
    let d = first_of_exec(s, lo, hi, '.', '.');
    proof {
        lemma_first_of(t, '.', '.');
    }
    match d {
        None => hi > lo && digit_run_exec(s, lo, hi),
        Some(d) => {
        let m = lo + d;
        assert(t.subrange(0, d as int) =~= s@.subrange(lo as int, m as int));
        assert(t.subrange(d + 1, t.len() as int) =~= s@.subrange(m + 1, hi as int));
        hi - lo >= 2 && digit_run_exec(s, lo, m) && digit_run_exec(s, m + 1, hi)
        },
    }
}

/// Whether `s[lo..hi]` spells a word in either case (see `spells`).
fn spells_exec(s: &Vec<char>, lo: usize, hi: usize, lower: &str, upper: &str) -> (r: bool)
    requires
        lo <= hi <= s.len(),
        lower@.len() == upper@.len(),
    ensures
        r == spells(s@.subrange(lo as int, hi as int), lower@, upper@),
{
    let ghost t = s@.subrange(lo as int, hi as int);
    let l = crate::text::chars_of(lower);
    let u = crate::text::chars_of(upper);
    if hi - lo != l.len() {
        return false;
    }
    let mut i: usize = 0;
    while i < l.len()
        invariant
            i <= l.len() == u.len() == hi - lo,
            lo <= hi <= s.len(),
            t == s@.subrange(lo as int, hi as int),
            l@ == lower@,
            u@ == upper@,
            forall|j: int| 0 <= j < i ==> (#[trigger] t[j] == l@[j] || t[j] == u@[j]),
        decreases l.len() - i,
    {
        assert(t[i as int] == s@[lo + i]);
        if s[lo + i] != l[i] && s[lo + i] != u[i] {
            return false;
        }
        i = i + 1;
    }
    true
}

/// Whether `s` is a float literal (see `float_literal`).
fn is_float_literal(s: &Vec<char>) -> (r: bool)
    ensures
        r == float_literal(s@),
{
    let n = s.len();
    let lo: usize = if n > 0 && (s[0] == '+' || s[0] == '-') { 1 } else { 0 };
    let ghost u = unsigned(s@);
    assert(u =~= s@.subrange(lo as int, n as int));
    proof {
        reveal_strlit("inf");
        reveal_strlit("INF");
        reveal_strlit("infinity");
        reveal_strlit("INFINITY");
        reveal_strlit("nan");
        reveal_strlit("NAN");
        assert("inf"@ =~= seq!['i', 'n', 'f']);
        assert("INF"@ =~= seq!['I', 'N', 'F']);
        assert("infinity"@ =~= seq!['i', 'n', 'f', 'i', 'n', 'i', 't', 'y']);
        assert("INFINITY"@ =~= seq!['I', 'N', 'F', 'I', 'N', 'I', 'T', 'Y']);
        assert("nan"@ =~= seq!['n', 'a', 'n']);
        assert("NAN"@ =~= seq!['N', 'A', 'N']);
        lemma_first_of(u, 'e', 'E');
    }
    if spells_exec(s, lo, n, "inf", "INF") || spells_exec(s, lo, n, "infinity", "INFINITY")
        || spells_exec(s, lo, n, "nan", "NAN") {
        return true;
    }
    let e = first_of_exec(s, lo, n, 'e', 'E');
    match e {
        None => mantissa_exec(s, lo, n),
        Some(e) => {
        let m = lo + e;
        assert(u.subrange(0, e as int) =~= s@.subrange(lo as int, m as int));
        let x0: usize = m + 1;
        let xl: usize = if x0 < n && (s[x0] == '+' || s[x0] == '-') { x0 + 1 } else { x0 };
        assert(unsigned(u.subrange(e + 1, u.len() as int)) =~= s@.subrange(xl as int, n as int));
        mantissa_exec(s, lo, m) && xl < n && digit_run_exec(s, xl, n)
        },
    }
}

/// Relies on `serde_json::from_str`: decodes one JSON document; an integer that
/// fits in 64 bits becomes `Int`, another number `Float` with its text. Nested
/// values are decoded again from their own JSON text.
#[verifier::external_body]
pub(crate) fn decode_json(s: &str) -> (r: Option<Value>)
    ensures
        match r {
            Some(v) => json_tree(s@) == Some(v@),
            None => json_tree(s@) is None,
        },
{
    let each = |x: &Json| decode_json(&x.to_string()).unwrap_or(Value::Null);
    Some(match serde_json::from_str(s).ok()? {
        Json::Bool(b) => Value::Bool(b),
        Json::Number(n) => n.as_i64().map_or(Value::Float(n.to_string()), Value::Int),
        Json::String(t) => Value::Str(t),
        Json::Array(a) => Value::Array(a.iter().map(each).collect()),
        Json::Object(m) => Value::Object(m.into_iter().map(|(k, x)| (k, each(&x))).collect()),
        Json::Null => Value::Null,
    })
}

/// `s` begins with `open` and ends with `close`.
pub open spec fn delimited(s: Seq<char>, open: char, close: char) -> bool {
    s.len() > 0 && s[0] == open && s.last() == close
}

/// The value that a raw environment string stands for: the first of boolean,
/// 64-bit integer, float, JSON array (between brackets), JSON object (between
/// braces) that accepts the whole string, else the string itself.
pub open spec fn coerce(s: Seq<char>) -> Tree {
    if s == seq!['t', 'r', 'u', 'e'] {
        Tree::Bool(true)
    } else if s == seq!['f', 'a', 'l', 's', 'e'] {
        Tree::Bool(false)
    } else if i64_literal(s) is Some {
        Tree::Int(i64_literal(s)->Some_0 as int)
    } else if float_literal(s) {
        Tree::Float(s)
    } else if delimited(s, '[', ']') && json_tree(s) is Some && json_tree(s)->Some_0 is Array {
        json_tree(s)->Some_0
    } else if delimited(s, '{', '}') && json_tree(s) is Some {
        json_tree(s)->Some_0
    } else {
        Tree::Str(s)
    }
}

fn is_word(s: &Vec<char>, w: &str) -> (r: bool)
    ensures
        r == (s@ == w@),
{
    let c = crate::text::chars_of(w);
    if c.len() != s.len() {
        return false;
    }
    let mut i: usize = 0;
    while i < c.len()
        invariant
            i <= c.len() == s.len(),
            c@ == w@,
            forall|j: int| 0 <= j < i ==> s@[j] == c@[j],
        decreases c.len() - i,
    {
        if s[i] != c[i] {
            return false;
        }
        i = i + 1;
    }
    assert(s@ =~= c@);
    true
}

/// Reinterprets a raw environment string (see `coerce`).
pub fn parse_env_value(value: &str) -> (r: Value)
    ensures
        r@ == coerce(value@),
{
    let c = crate::text::chars_of(value);
    proof {
        reveal_strlit("true");
        reveal_strlit("false");
        assert("true"@ =~= seq!['t', 'r', 'u', 'e']);
        assert("false"@ =~= seq!['f', 'a', 'l', 's', 'e']);
    }
    if is_word(&c, "true") {
        return Value::Bool(true);
    }
    if is_word(&c, "false") {
        return Value::Bool(false);
    }
    if let Some(n) = parse_i64(&c) {
        return Value::Int(n);
    }
    if is_float_literal(&c) {
        return Value::Float(crate::text::string_of(&c));
    }
    let n = c.len();
    if n > 0 && c[0] == '[' && c[n - 1] == ']' {
        if let Some(v) = decode_json(value) {
            if let Value::Array(_) = v {
                return v;
            }
        }
    }
    if n > 0 && c[0] == '{' && c[n - 1] == '}' {
        if let Some(v) = decode_json(value) {
            return v;
        }
    }
    Value::Str(crate::text::string_of(&c))
}

}
