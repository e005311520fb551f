//! Character-level text primitives for the store codec: decimal numerals,
//! string escaping, and their parsers, each proved to invert its printer.

use vstd::prelude::*;
use vstd::string::*;

verus! {

// ---------------------------------------------------------------------------
// Decimal numerals
// ---------------------------------------------------------------------------

pub open spec fn is_digit(c: char) -> bool {
    c == '0' || c == '1' || c == '2' || c == '3' || c == '4' || c == '5' || c == '6' || c == '7'
        || c == '8' || c == '9'
}

pub open spec fn digit_char(d: nat) -> char {
    if d == 0 {
        '0'
    } else if d == 1 {
        '1'
    } else if d == 2 {
        '2'
    } else if d == 3 {
        '3'
    } else if d == 4 {
        '4'
    } else if d == 5 {
        '5'
    } else if d == 6 {
        '6'
    } else if d == 7 {
        '7'
    } else if d == 8 {
        '8'
    } else {
        '9'
    }
}

pub open spec fn char_val(c: char) -> nat {
    if c == '0' {
        0
    } else if c == '1' {
        1
    } else if c == '2' {
        2
    } else if c == '3' {
        3
    } else if c == '4' {
        4
    } else if c == '5' {
        5
    } else if c == '6' {
        6
    } else if c == '7' {
        7
    } else if c == '8' {
        8
    } else {
        9
    }
}

/// The canonical decimal numeral of `n`: no leading zeros, `"0"` for zero.
pub open spec fn dec_rep(n: nat) -> Seq<char>
    decreases n,
{
    if n < 10 {
        seq![digit_char(n)]
    } else {
        dec_rep(n / 10).push(digit_char(n % 10))
    }
}

/// The value of a digit string, most significant digit first.
pub open spec fn val_of_digits(d: Seq<char>) -> nat
    decreases d.len(),
{
    if d.len() == 0 {
        0
    } else {
        val_of_digits(d.drop_last()) * 10 + char_val(d.last())
    }
}

/// The longest prefix of `s` made of decimal digits.
pub open spec fn digits_prefix(s: Seq<char>) -> Seq<char>
    decreases s.len(),
{
    if s.len() > 0 && is_digit(s[0]) {
        seq![s[0]] + digits_prefix(s.drop_first())
    } else {
        Seq::empty()
    }
}

/// Parses a canonical decimal numeral at the head of `s`: fails on an empty
/// digit run and on a leading zero in a multi-digit run.
pub open spec fn parse_num(s: Seq<char>) -> Option<(nat, Seq<char>)> {
    let d = digits_prefix(s);
    if d.len() == 0 {
        None
    } else if d.len() > 1 && d[0] == '0' {
        None
    } else {
        Some((val_of_digits(d), s.subrange(d.len() as int, s.len() as int)))
    }
}

pub proof fn lemma_dec_rep_digits(n: nat)
    ensures
        dec_rep(n).len() >= 1,
        forall|i: int| 0 <= i < dec_rep(n).len() ==> is_digit(#[trigger] dec_rep(n)[i]),
        n >= 1 ==> dec_rep(n)[0] != '0',
        val_of_digits(dec_rep(n)) == n,
    decreases n,
{
    if n < 10 {
        assert(dec_rep(n) == seq![digit_char(n)]);
        assert(dec_rep(n).drop_last() =~= Seq::<char>::empty());
        assert(dec_rep(n).last() == digit_char(n));
        assert(val_of_digits(Seq::<char>::empty()) == 0);
        assert(val_of_digits(dec_rep(n)) == 0 * 10 + char_val(digit_char(n)));
    } else {
        lemma_dec_rep_digits(n / 10);
        let d = dec_rep(n / 10).push(digit_char(n % 10));
        assert(dec_rep(n) == d);
        assert(d.drop_last() == dec_rep(n / 10));
        assert(d.last() == digit_char(n % 10));
        assert(char_val(digit_char(n % 10)) == n % 10);
        assert(val_of_digits(d) == (n / 10) * 10 + n % 10);
        assert((n / 10) * 10 + n % 10 == n) by {
            vstd::arithmetic::div_mod::lemma_fundamental_div_mod(n as int, 10);
        }
        assert(n / 10 >= 1);
        assert(d[0] == dec_rep(n / 10)[0]);
        assert(forall|i: int| 0 <= i < d.len() ==> is_digit(#[trigger] d[i]));
    }
}

pub proof fn lemma_digits_prefix_of_digits(d: Seq<char>, rest: Seq<char>)
    requires
        forall|i: int| 0 <= i < d.len() ==> is_digit(#[trigger] d[i]),
        rest.len() == 0 || !is_digit(rest[0]),
    ensures
        digits_prefix(d + rest) == d,
    decreases d.len(),
{
    if d.len() == 0 {
        assert(d + rest == rest);
        if rest.len() > 0 {
            assert(digits_prefix(rest) == Seq::<char>::empty());
        }
        assert(digits_prefix(d + rest) =~= d);
    } else {
        let s = d + rest;
        assert(s[0] == d[0]);
        assert(s.drop_first() =~= d.drop_first() + rest);
        lemma_digits_prefix_of_digits(d.drop_first(), rest);
        assert(digits_prefix(s) == seq![d[0]] + d.drop_first());
        assert(seq![d[0]] + d.drop_first() =~= d);
    }
}

/// Structure of the digit prefix: it is a true prefix of `s`, all digits,
/// and the first character past it (if any) is not a digit.
pub proof fn lemma_digits_prefix_struct(s: Seq<char>)
    ensures
        digits_prefix(s).len() <= s.len(),
        digits_prefix(s) == s.subrange(0, digits_prefix(s).len() as int),
        forall|i: int| 0 <= i < digits_prefix(s).len() ==> is_digit(#[trigger] digits_prefix(s)[i]),
        digits_prefix(s).len() < s.len() ==> !is_digit(s[digits_prefix(s).len() as int]),
        forall|i: int| 0 <= i < digits_prefix(s).len() ==> digits_prefix(s)[i] == s[i],
    decreases s.len(),
{
    if s.len() > 0 && is_digit(s[0]) {
        lemma_digits_prefix_struct(s.drop_first());
        let p = digits_prefix(s);
        let q = digits_prefix(s.drop_first());
        assert(p == seq![s[0]] + q);
        assert(forall|i: int| 0 <= i < q.len() ==> #[trigger] q[i] == s.drop_first()[i]);
        assert(p =~= s.subrange(0, p.len() as int));
        if p.len() < s.len() {
            assert(s[p.len() as int] == s.drop_first()[q.len() as int]);
        }
    } else {
        assert(digits_prefix(s) == Seq::<char>::empty());
        assert(digits_prefix(s) =~= s.subrange(0, 0));
    }
}

pub proof fn lemma_val_pos(d: Seq<char>)
    requires
        d.len() >= 1,
        forall|i: int| 0 <= i < d.len() ==> is_digit(#[trigger] d[i]),
        d[0] != '0',
    ensures
        val_of_digits(d) >= 1,
    decreases d.len(),
{
    if d.len() == 1 {
        assert(d.last() == d[0]);
        assert(char_val(d[0]) >= 1);
    } else {
        assert(d.drop_last()[0] == d[0]);
        lemma_val_pos(d.drop_last());
    }
}

/// A nonempty digit string without a leading zero is the canonical numeral
/// of its own value.
pub proof fn lemma_val_canonical(d: Seq<char>)
    requires
        d.len() >= 1,
        forall|i: int| 0 <= i < d.len() ==> is_digit(#[trigger] d[i]),
        d.len() == 1 || d[0] != '0',
    ensures
        dec_rep(val_of_digits(d)) == d,
    decreases d.len(),
{
    let v = val_of_digits(d);
    if d.len() == 1 {
        assert(d.drop_last().len() == 0);
        assert(d.drop_last() =~= Seq::<char>::empty());
        assert(val_of_digits(Seq::<char>::empty()) == 0);
        assert(v == 0 * 10 + char_val(d.last()));
        assert(v == char_val(d.last()));
        assert(v < 10);
        assert(digit_char(char_val(d[0])) == d[0]);
        assert(dec_rep(v) =~= d);
    } else {
        let dl = d.drop_last();
        let c = d.last();
        assert(dl[0] == d[0]);
        assert(forall|i: int| 0 <= i < dl.len() ==> is_digit(#[trigger] dl[i]));
        lemma_val_pos(dl);
        let w = val_of_digits(dl);
        assert(v == w * 10 + char_val(c));
        assert(char_val(c) < 10);
        assert(v >= 10) by (nonlinear_arith)
            requires
                v == w * 10 + char_val(c),
                w >= 1,
        ;
        assert(v / 10 == w && v % 10 == char_val(c)) by (nonlinear_arith)
            requires
                v == w * 10 + char_val(c),
                char_val(c) < 10,
        ;
        lemma_val_canonical(dl);
        assert(digit_char(char_val(c)) == c);
        assert(dec_rep(v) == dl.push(c));
        assert(dl.push(c) =~= d);
    }
}

/// Printing then parsing a numeral gives the value back, whatever follows,
/// as long as what follows does not begin with a digit.
pub proof fn lemma_parse_num_roundtrip(n: nat, rest: Seq<char>)
    requires
        rest.len() == 0 || !is_digit(rest[0]),
    ensures
        parse_num(dec_rep(n) + rest) == Some((n, rest)),
{
    lemma_dec_rep_digits(n);
    lemma_digits_prefix_of_digits(dec_rep(n), rest);
    let s = dec_rep(n) + rest;
    let d = digits_prefix(s);
    assert(d == dec_rep(n));
    if n == 0 {
        assert(dec_rep(0) == seq![digit_char(0)]);
        assert(d.len() == 1);
    }
    assert(!(d.len() > 1 && d[0] == '0'));
    assert(s.subrange(d.len() as int, s.len() as int) =~= rest);
}

/// A successful numeral parse splits the input into the canonical numeral
/// of the value and the rest.
pub proof fn lemma_parse_num_sound(s: Seq<char>)
    requires
        parse_num(s) is Some,
    ensures
        s == dec_rep(parse_num(s)->Some_0.0) + parse_num(s)->Some_0.1,
        parse_num(s)->Some_0.1.len() < s.len(),
        parse_num(s)->Some_0.1.len() == 0 || !is_digit(parse_num(s)->Some_0.1[0]),
{
    lemma_digits_prefix_struct(s);
    let d = digits_prefix(s);
    let (v, rest) = parse_num(s)->Some_0;
    lemma_val_canonical(d);
    assert(dec_rep(v) == d);
    assert(s =~= d + s.subrange(d.len() as int, s.len() as int));
    if rest.len() > 0 {
        assert(rest[0] == s[d.len() as int]);
    }
}

// ---------------------------------------------------------------------------
// String escaping
// ---------------------------------------------------------------------------

/// How one character is written inside a quoted string: backslash and
/// double-quote get a backslash prefix, everything else stands as itself.
pub open spec fn esc_char(c: char) -> Seq<char> {
    if c == '\\' || c == '"' {
        seq!['\\', c]
    } else {
        seq![c]
    }
}

/// The escaped form of a whole string.
pub open spec fn escape_seq(s: Seq<char>) -> Seq<char>
    decreases s.len(),
{
    if s.len() == 0 {
        Seq::empty()
    } else {
        esc_char(s[0]) + escape_seq(s.drop_first())
    }
}

pub proof fn lemma_escape_concat(a: Seq<char>, b: Seq<char>)
    ensures
        escape_seq(a + b) == escape_seq(a) + escape_seq(b),
    decreases a.len(),
{
    if a.len() == 0 {
        assert(a + b == b);
        assert(escape_seq(a) + escape_seq(b) =~= escape_seq(b));
    } else {
        let s = a + b;
        assert(s[0] == a[0]);
        assert(s.drop_first() =~= a.drop_first() + b);
        lemma_escape_concat(a.drop_first(), b);
        assert(escape_seq(a) == esc_char(a[0]) + escape_seq(a.drop_first()));
        assert(escape_seq(s) =~= escape_seq(a) + escape_seq(b));
    }
}

pub proof fn lemma_escape_push(a: Seq<char>, c: char)
    ensures
        escape_seq(a.push(c)) == escape_seq(a) + esc_char(c),
{
    assert(a.push(c) =~= a + seq![c]);
    lemma_escape_concat(a, seq![c]);
    assert(seq![c].drop_first() =~= Seq::<char>::empty());
    assert(escape_seq(Seq::<char>::empty()) == Seq::<char>::empty());
    assert(escape_seq(seq![c]) == esc_char(c) + Seq::<char>::empty());
    assert(esc_char(c) + Seq::<char>::empty() =~= esc_char(c));
}

/// Parses an escaped string body up to and including its closing quote,
/// returning the unescaped text and what follows the quote.
pub open spec fn parse_str_body(s: Seq<char>) -> Option<(Seq<char>, Seq<char>)>
    decreases s.len(),
{
    if s.len() == 0 {
        None
    } else if s[0] == '"' {
        Some((Seq::empty(), s.drop_first()))
    } else if s[0] == '\\' {
        if s.len() >= 2 && (s[1] == '\\' || s[1] == '"') {
            match parse_str_body(s.subrange(2, s.len() as int)) {
                Some((p, r)) => Some((seq![s[1]] + p, r)),
                None => None,
            }
        } else {
            None
        }
    } else {
        match parse_str_body(s.drop_first()) {
            Some((p, r)) => Some((seq![s[0]] + p, r)),
            None => None,
        }
    }
}

/// Escaping, closing the quote, then parsing gives the string back.
pub proof fn lemma_parse_str_roundtrip(p: Seq<char>, rest: Seq<char>)
    ensures
        parse_str_body(escape_seq(p) + seq!['"'] + rest) == Some((p, rest)),
    decreases p.len(),
{
    let s = escape_seq(p) + seq!['"'] + rest;
    if p.len() == 0 {
        assert(escape_seq(p) == Seq::<char>::empty());
        assert(s =~= seq!['"'] + rest);
        assert(s[0] == '"');
        assert(s.drop_first() =~= rest);
    } else {
        let c = p[0];
        assert(escape_seq(p) == esc_char(c) + escape_seq(p.drop_first()));
        lemma_parse_str_roundtrip(p.drop_first(), rest);
        let s2 = escape_seq(p.drop_first()) + seq!['"'] + rest;
        if c == '\\' || c == '"' {
            assert(s[0] == '\\');
            assert(s.len() >= 2 && s[1] == c);
            assert(s.subrange(2, s.len() as int) =~= s2);
            assert(seq![c] + p.drop_first() =~= p);
        } else {
            assert(s[0] == c);
            assert(c != '"' && c != '\\');
            assert(s.drop_first() =~= s2);
            assert(seq![c] + p.drop_first() =~= p);
        }
    }
}

/// A successful string parse splits the input into the escaped text, the
/// closing quote, and the rest.
pub proof fn lemma_parse_str_sound(s: Seq<char>)
    requires
        parse_str_body(s) is Some,
    ensures
        s == escape_seq(parse_str_body(s)->Some_0.0) + seq!['"'] + parse_str_body(s)->Some_0.1,
        parse_str_body(s)->Some_0.1.len() < s.len(),
    decreases s.len(),
{
    let (p, r) = parse_str_body(s)->Some_0;
    if s[0] == '"' {
        assert(s =~= escape_seq(p) + seq!['"'] + r);
    } else if s[0] == '\\' {
        let s2 = s.subrange(2, s.len() as int);
        lemma_parse_str_sound(s2);
        let (p2, r2) = parse_str_body(s2)->Some_0;
        assert(p == seq![s[1]] + p2 && r == r2);
        assert(p[0] == s[1]);
        assert(p.drop_first() =~= p2);
        assert(escape_seq(p) == esc_char(s[1]) + escape_seq(p2));
        assert(esc_char(s[1]) == seq!['\\', s[1]]);
        assert(s2 == escape_seq(p2) + seq!['"'] + r2);
        assert(s =~= seq!['\\', s[1]] + s2);
        assert(seq!['\\', s[1]] + (escape_seq(p2) + seq!['"'] + r2) =~= (seq!['\\', s[1]]
            + escape_seq(p2)) + seq!['"'] + r2);
        assert(s == escape_seq(p) + seq!['"'] + r);
    } else {
        let s2 = s.drop_first();
        lemma_parse_str_sound(s2);
        let (p2, r2) = parse_str_body(s2)->Some_0;
        assert(p == seq![s[0]] + p2 && r == r2);
        assert(p[0] == s[0]);
        assert(p.drop_first() =~= p2);
        assert(escape_seq(p) == esc_char(s[0]) + escape_seq(p2));
        assert(esc_char(s[0]) == seq![s[0]]);
        assert(s2 == escape_seq(p2) + seq!['"'] + r2);
        assert(s =~= seq![s[0]] + s2);
        assert(seq![s[0]] + (escape_seq(p2) + seq!['"'] + r2) =~= (seq![s[0]] + escape_seq(p2))
            + seq!['"'] + r2);
        assert(s == escape_seq(p) + seq!['"'] + r);
    }
}

// ---------------------------------------------------------------------------
// Executable helpers
// ---------------------------------------------------------------------------

/// Relies on std's String::push: appends exactly the one character.
#[verifier::external_body]
pub(crate) fn push_char(out: &mut String, c: char)
    ensures
        final(out)@ == old(out)@.push(c),
{
    out.push(c);
}

/// Collects the characters of a string slice into a vector.
pub(crate) fn str_to_chars(s: &str) -> (r: Vec<char>)
    ensures
        r@ == s@,
{
    let n = s.unicode_len();
    let mut v: Vec<char> = Vec::new();
    let mut i: usize = 0;
    while i < n
        invariant
            n == s@.len(),
            i <= n,
            v@ == s@.subrange(0, i as int),
        decreases n - i,
    {
        let c = s.get_char(i);
        v.push(c);
        i = i + 1;
        assert(v@ =~= s@.subrange(0, i as int));
    }
    assert(v@ =~= s@);
    v
}

/// Character-wise equality of two string slices.
pub(crate) fn str_eq(a: &str, b: &str) -> (r: bool)
    ensures
        r == (a@ == b@),
{
    let na = a.unicode_len();
    let nb = b.unicode_len();
    if na != nb {
        return false;
    }
    let mut i: usize = 0;
    while i < na
        invariant
            na == a@.len(),
            na == b@.len(),
            i <= na,
            forall|k: int| 0 <= k < i ==> a@[k] == b@[k],
        decreases na - i,
    {
        if a.get_char(i) != b.get_char(i) {
            return false;
        }
        i = i + 1;
    }
    assert(a@ =~= b@);
    true
}

/// Builds a string out of a vector of characters.
pub(crate) fn chars_to_string(v: &Vec<char>) -> (r: String)
    ensures
        r@ == v@,
{
    let mut s = String::new();
    let mut i: usize = 0;
    while i < v.len()
        invariant
            i <= v.len(),
            s@ == v@.subrange(0, i as int),
        decreases v.len() - i,
    {
        push_char(&mut s, v[i]);
        i = i + 1;
        assert(s@ =~= v@.subrange(0, i as int));
    }
    assert(s@ =~= v@);
    s
}

fn digit_to_char(d: u64) -> (c: char)
    requires
        d < 10,
    ensures
        c == digit_char(d as nat),
{
    if d == 0 {
        '0'
    } else if d == 1 {
        '1'
    } else if d == 2 {
        '2'
    } else if d == 3 {
        '3'
    } else if d == 4 {
        '4'
    } else if d == 5 {
        '5'
    } else if d == 6 {
        '6'
    } else if d == 7 {
        '7'
    } else if d == 8 {
        '8'
    } else {
        '9'
    }
}

fn char_to_digit(c: char) -> (d: u64)
    requires
        is_digit(c),
    ensures
        d == char_val(c),
        d < 10,
{
    if c == '0' {
        0
    } else if c == '1' {
        1
    } else if c == '2' {
        2
    } else if c == '3' {
        3
    } else if c == '4' {
        4
    } else if c == '5' {
        5
    } else if c == '6' {
        6
    } else if c == '7' {
        7
    } else if c == '8' {
        8
    } else {
        9
    }
}

fn is_digit_exec(c: char) -> (r: bool)
    ensures
        r == is_digit(c),
{
    c == '0' || c == '1' || c == '2' || c == '3' || c == '4' || c == '5' || c == '6' || c == '7'
        || c == '8' || c == '9'
}

/// Appends the canonical decimal numeral of `n`.
pub(crate) fn push_u64(out: &mut String, n: u64)
    ensures
        final(out)@ == old(out)@ + dec_rep(n as nat),
    decreases n,
{
    if n < 10 {
        push_char(out, digit_to_char(n));
        assert(old(out)@.push(digit_char(n as nat)) =~= old(out)@ + seq![digit_char(n as nat)]);
    } else {
        push_u64(out, n / 10);
        let d = n % 10;
        push_char(out, digit_to_char(d));
        proof {
            assert(dec_rep(n as nat) == dec_rep((n as nat) / 10).push(digit_char((n as nat) % 10)));
            assert((n / 10) as nat == (n as nat) / 10);
            assert((n % 10) as nat == (n as nat) % 10);
            assert((old(out)@ + dec_rep((n as nat) / 10)).push(digit_char((n as nat) % 10)) =~= old(
                out,
            )@ + dec_rep(n as nat));
        }
    }
}

/// Appends the escaped form of `p`.
pub(crate) fn push_escaped(out: &mut String, p: &str)
    ensures
        final(out)@ == old(out)@ + escape_seq(p@),
{
    let cs = str_to_chars(p);
    let mut i: usize = 0;
    while i < cs.len()
        invariant
            cs@ == p@,
            i <= cs.len(),
            out@ == old(out)@ + escape_seq(p@.subrange(0, i as int)),
        decreases cs.len() - i,
    {
        let c = cs[i];
        if c == '\\' || c == '"' {
            push_char(out, '\\');
            push_char(out, c);
        } else {
            push_char(out, c);
        }
        proof {
            let pre = p@.subrange(0, i as int);
            lemma_escape_push(pre, c);
            assert(pre.push(c) =~= p@.subrange(0, i + 1 as int));
            if c == '\\' || c == '"' {
                assert((old(out)@ + escape_seq(pre)).push('\\').push(c) =~= old(out)@ + escape_seq(
                    pre,
                ) + esc_char(c));
            } else {
                assert((old(out)@ + escape_seq(pre)).push(c) =~= old(out)@ + escape_seq(pre)
                    + esc_char(c));
            }
        }
        i = i + 1;
    }
    assert(p@.subrange(0, cs.len() as int) =~= p@);
}

/// Helper: the value of a digit-string prefix never exceeds the whole.
proof fn lemma_val_mono(d: Seq<char>, m: int)
    requires
        0 <= m <= d.len(),
    ensures
        val_of_digits(d.subrange(0, m)) <= val_of_digits(d),
    decreases d.len() - m,
{
    if m == d.len() {
        assert(d.subrange(0, m) =~= d);
    } else {
        let a = d.subrange(0, m);
        let b = d.subrange(0, m + 1);
        assert(b.drop_last() =~= a);
        assert(val_of_digits(b) == val_of_digits(a) * 10 + char_val(b.last()));
        lemma_val_mono(d, m + 1);
    }
}

/// Parses a canonical decimal numeral at index `i`, as a `u64`. Fails
/// exactly where the numeral grammar fails or the value does not fit.
pub(crate) fn take_num(v: &Vec<char>, i: usize) -> (r: Option<(u64, usize)>)
    requires
        i <= v.len(),
    ensures
        match r {
            Some(pair) => {
                &&& i < pair.1 <= v@.len()
                &&& parse_num(v@.subrange(i as int, v@.len() as int)) == Some(
                    (pair.0 as nat, v@.subrange(pair.1 as int, v@.len() as int)),
                )
            },
            None => {
                let pr = parse_num(v@.subrange(i as int, v@.len() as int));
                pr is None || pr->Some_0.0 > u64::MAX
            },
        },
{
    let ghost s = v@.subrange(i as int, v@.len() as int);
    let mut j: usize = i;
    while j < v.len() && is_digit_exec(v[j])
        invariant
            i <= j <= v.len(),
            forall|k: int| i <= k < j ==> is_digit(#[trigger] v@[k]),
        decreases v.len() - j,
    {
        j = j + 1;
    }
    let ghost d = v@.subrange(i as int, j as int);
    proof {
        assert(forall|k: int| 0 <= k < d.len() ==> is_digit(#[trigger] d[k]));
        let tail = v@.subrange(j as int, v@.len() as int);
        if j < v.len() {
            assert(tail[0] == v@[j as int]);
            assert(!is_digit(tail[0]));
        }
        lemma_digits_prefix_of_digits(d, tail);
        assert(s =~= d + tail);
        assert(digits_prefix(s) == d);
    }
    if j == i {
        assert(digits_prefix(s).len() == 0);
        return None;
    }
    if j - i > 1 && v[i] == '0' {
        assert(digits_prefix(s)[0] == '0');
        return None;
    }
    let mut acc: u64 = 0;
    let mut k: usize = i;
    while k < j
        invariant
            i <= k <= j <= v.len(),
            v@.subrange(i as int, j as int) == d,
            s == v@.subrange(i as int, v@.len() as int),
            digits_prefix(s) == d,
            d.len() == j - i,
            d.len() == 1 || d[0] != '0',
            forall|m: int| i <= m < j ==> is_digit(#[trigger] v@[m]),
            acc as nat == val_of_digits(v@.subrange(i as int, k as int)),
        decreases j - k,
    {
        let c = v[k];
        let dv = char_to_digit(c);
        proof {
            let a = v@.subrange(i as int, k as int);
            let b = v@.subrange(i as int, k + 1 as int);
            assert(b.drop_last() =~= a);
            assert(b.last() == v@[k as int]);
            assert(val_of_digits(b) == val_of_digits(a) * 10 + char_val(v@[k as int]));
        }
        if acc > (u64::MAX - dv) / 10 {
            proof {
                let b = v@.subrange(i as int, k + 1 as int);
                assert(val_of_digits(b) > u64::MAX) by (nonlinear_arith)
                    requires
                        val_of_digits(b) == (acc as nat) * 10 + (dv as nat),
                        acc > (u64::MAX - dv) / 10,
                        dv < 10,
                ;
                assert(b =~= d.subrange(0, (k + 1 - i) as int));
                lemma_val_mono(d, (k + 1 - i) as int);
                assert(val_of_digits(d) > u64::MAX);
            }
            return None;
        }
        acc = acc * 10 + dv;
        k = k + 1;
    }
    assert(v@.subrange(i as int, k as int) =~= d);
    assert(acc as nat == val_of_digits(d));
    proof {
        assert(digits_prefix(s) == d);
        assert(d.len() == j - i);
        assert(d[0] == v@[i as int]);
        assert(!(d.len() > 1 && d[0] == '0'));
        assert(parse_num(s) == Some(
            (val_of_digits(d), s.subrange(d.len() as int, s.len() as int)),
        ));
        assert(s.subrange(d.len() as int, s.len() as int) =~= v@.subrange(
            j as int,
            v@.len() as int,
        ));
    }
    Some((acc, j))
}

/// Parses an escaped string body at index `i`, up to and including the
/// closing quote.
pub(crate) fn take_str_body(v: &Vec<char>, i: usize) -> (r: Option<(Vec<char>, usize)>)
    requires
        i <= v.len(),
    ensures
        match r {
            Some(pair) => {
                &&& i < pair.1 <= v@.len()
                &&& parse_str_body(v@.subrange(i as int, v@.len() as int)) == Some(
                    (pair.0@, v@.subrange(pair.1 as int, v@.len() as int)),
                )
            },
            None => parse_str_body(v@.subrange(i as int, v@.len() as int)) is None,
        },
    decreases v.len() - i,
{
    let ghost s = v@.subrange(i as int, v@.len() as int);
    if i == v.len() {
        return None;
    }
    let c = v[i];
    assert(s[0] == c);
    if c == '"' {
        assert(s.drop_first() =~= v@.subrange(i + 1 as int, v@.len() as int));
        Some((Vec::new(), i + 1))
    } else if c == '\\' {
        if i + 1 < v.len() && (v[i + 1] == '\\' || v[i + 1] == '"') {
            let e = v[i + 1];
            assert(s.len() >= 2 && s[1] == e);
            assert(s.subrange(2, s.len() as int) =~= v@.subrange(i + 2 as int, v@.len() as int));
            match take_str_body(v, i + 2) {
                Some((mut p, j)) => {
                    let ghost p0 = p@;
                    p.insert(0, e);
                    assert(p@ =~= seq![s[1]] + p0);
                    Some((p, j))
                },
                None => None,
            }
        } else {
            if i + 1 < v.len() {
                assert(s.len() >= 2 && s[1] == v@[i + 1]);
            } else {
                assert(s.len() == 1);
            }
            None
        }
    } else {
        assert(s.drop_first() =~= v@.subrange(i + 1 as int, v@.len() as int));
        match take_str_body(v, i + 1) {
            Some((mut p, j)) => {
                let ghost p0 = p@;
                p.insert(0, c);
                assert(p@ =~= seq![s[0]] + p0);
                Some((p, j))
            },
            None => None,
        }
    }
}

} // verus!
