//! Character-level text utilities: searching, splitting and trimming for the
//! schema tokenizer, lexicographic ordering for the catalog, and decimal
//! rendering for the query executor's output.

use vstd::prelude::*;
use vstd::string::StrSliceExecFns;

verus! {

// ------------------------------------------------------------------
// Searching
// ------------------------------------------------------------------
/// The first index at or after `from` holding `c`, or the length of `s`.
pub open spec fn spec_find_char(s: Seq<char>, c: char, from: int) -> int
    decreases s.len() - from,
{
    if from >= s.len() {
        s.len() as int
    } else if s[from] == c {
        from
    } else {
        spec_find_char(s, c, from + 1)
    }
}

pub proof fn lemma_find_char(s: Seq<char>, c: char, from: int, i: int)
    requires
        0 <= from <= i <= s.len(),
        forall|j: int| from <= j < i ==> s[j] != c,
        i < s.len() ==> s[i] == c,
    ensures
        spec_find_char(s, c, from) == i,
    decreases i - from,
{
    if from < i {
        lemma_find_char(s, c, from + 1, i);
    }
}

/// The executable mirror of `spec_find_char`.
pub fn find_char(v: &Vec<char>, c: char, from: usize) -> (r: usize)
    requires
        from <= v@.len(),
    ensures
        r as int == spec_find_char(v@, c, from as int),
        from <= r <= v@.len(),
{
    let mut i: usize = from;
    while i < v.len()
        invariant
            from <= i <= v@.len(),
            forall|j: int| from <= j < i ==> v@[j] != c,
        decreases v@.len() - i,
    {
        if v[i] == c {
            proof {
                lemma_find_char(v@, c, from as int, i as int);
            }
            return i;
        }
        i = i + 1;
    }
    proof {
        lemma_find_char(v@, c, from as int, i as int);
    }
    i
}

/// The last index holding `c`, or -1.
pub open spec fn spec_rfind_char(s: Seq<char>, c: char, upto: int) -> int
    decreases upto,
{
    if upto <= 0 {
        -1
    } else if s[upto - 1] == c {
        upto - 1
    } else {
        spec_rfind_char(s, c, upto - 1)
    }
}

pub proof fn lemma_rfind_char(s: Seq<char>, c: char, upto: int, i: int)
    requires
        -1 <= i < upto,
        forall|j: int| i < j < upto ==> s[j] != c,
        i >= 0 ==> s[i] == c,
    ensures
        spec_rfind_char(s, c, upto) == i,
    decreases upto - i,
{
    if i < upto - 1 {
        lemma_rfind_char(s, c, upto - 1, i);
    }
}

/// The executable mirror of `spec_rfind_char`: the last index holding `c`,
/// or the length of `v` to mean "not found".
pub fn rfind_char(v: &Vec<char>, c: char) -> (r: usize)
    ensures
        spec_rfind_char(v@, c, v@.len() as int) >= 0 ==> r as int == spec_rfind_char(
            v@,
            c,
            v@.len() as int,
        ),
        spec_rfind_char(v@, c, v@.len() as int) < 0 ==> r == v@.len(),
        spec_rfind_char(v@, c, v@.len() as int) < v@.len(),
        r <= v@.len(),
{
    let mut i: usize = v.len();
    while i > 0
        invariant
            i <= v@.len(),
            forall|j: int| i <= j < v@.len() ==> v@[j] != c,
        decreases i,
    {
        i = i - 1;
        if v[i] == c {
            proof {
                lemma_rfind_char(v@, c, v@.len() as int, i as int);
            }
            return i;
        }
    }
    proof {
        lemma_rfind_char(v@, c, v@.len() as int, -1);
    }
    v.len()
}

// ------------------------------------------------------------------
// Trimming
// ------------------------------------------------------------------
/// Whitespace as the schema tokenizer understands it.
pub open spec fn spec_is_ws(c: char) -> bool {
    c == ' ' || c == '\n' || c == '\t' || c == '\r'
}

/// The first index at or after `from` holding a non-whitespace character.
pub open spec fn spec_skip_ws(s: Seq<char>, from: int) -> int
    decreases s.len() - from,
{
    if from >= s.len() {
        s.len() as int
    } else if spec_is_ws(s[from]) {
        spec_skip_ws(s, from + 1)
    } else {
        from
    }
}

proof fn lemma_skip_ws(s: Seq<char>, from: int, i: int)
    requires
        0 <= from <= i <= s.len(),
        forall|j: int| from <= j < i ==> spec_is_ws(s[j]),
        i < s.len() ==> !spec_is_ws(s[i]),
    ensures
        spec_skip_ws(s, from) == i,
    decreases i - from,
{
    if from < i {
        lemma_skip_ws(s, from + 1, i);
    }
}

/// The index just past the last non-whitespace character before `upto`.
pub open spec fn spec_ws_end(s: Seq<char>, upto: int) -> int
    decreases upto,
{
    if upto <= 0 {
        0
    } else if spec_is_ws(s[upto - 1]) {
        spec_ws_end(s, upto - 1)
    } else {
        upto
    }
}

proof fn lemma_ws_end(s: Seq<char>, upto: int, i: int)
    requires
        0 <= i <= upto,
        forall|j: int| i <= j < upto ==> spec_is_ws(s[j]),
        i > 0 ==> !spec_is_ws(s[i - 1]),
    ensures
        spec_ws_end(s, upto) == i,
    decreases upto - i,
{
    if i < upto {
        lemma_ws_end(s, upto - 1, i);
    }
}

/// `s` with leading and trailing whitespace removed.
pub open spec fn spec_trim(s: Seq<char>) -> Seq<char> {
    let a = spec_skip_ws(s, 0);
    let b = spec_ws_end(s, s.len() as int);
    if a <= b {
        s.subrange(a, b)
    } else {
        Seq::empty()
    }
}

/// Copy of the characters `a..b` of `v`.
pub fn subvec(v: &Vec<char>, a: usize, b: usize) -> (r: Vec<char>)
    requires
        a <= b <= v@.len(),
    ensures
        r@ == v@.subrange(a as int, b as int),
{
    let mut r: Vec<char> = Vec::new();
    let mut i: usize = a;
    while i < b
        invariant
            a <= i <= b <= v@.len(),
            r@ == v@.subrange(a as int, i as int),
        decreases b - i,
    {
        r.push(v[i]);
        proof {
            assert(r@ =~= v@.subrange(a as int, i as int + 1));
        }
        i = i + 1;
    }
    r
}

/// The executable mirror of `spec_trim`.
pub fn trim_chars(v: &Vec<char>) -> (r: Vec<char>)
    ensures
        r@ == spec_trim(v@),
{
    let n = v.len();
    let mut a: usize = 0;
    loop
        invariant
            a <= n,
            n == v@.len(),
            forall|j: int| 0 <= j < a ==> spec_is_ws(v@[j]),
        ensures
            a <= n,
            forall|j: int| 0 <= j < a ==> spec_is_ws(v@[j]),
            a < n ==> !spec_is_ws(v@[a as int]),
        decreases n - a,
    {
        if a >= n {
            break ;
        }
        let c = v[a];
        if !(c == ' ' || c == '\n' || c == '\t' || c == '\r') {
            break ;
        }
        a = a + 1;
    }
    proof {
        lemma_skip_ws(v@, 0, a as int);
    }
    let mut b: usize = n;
    loop
        invariant
            b <= n,
            n == v@.len(),
            forall|j: int| b <= j < n ==> spec_is_ws(v@[j]),
        ensures
            b <= n,
            forall|j: int| b <= j < n ==> spec_is_ws(v@[j]),
            b > 0 ==> !spec_is_ws(v@[b - 1]),
        decreases b,
    {
        if b == 0 {
            break ;
        }
        let c = v[b - 1];
        if !(c == ' ' || c == '\n' || c == '\t' || c == '\r') {
            break ;
        }
        b = b - 1;
    }
    proof {
        lemma_ws_end(v@, n as int, b as int);
    }
    if a <= b {
        subvec(v, a, b)
    } else {
        let r: Vec<char> = Vec::new();
        proof {
            assert(r@ =~= spec_trim(v@));
        }
        r
    }
}

// ------------------------------------------------------------------
// Splitting
// ------------------------------------------------------------------
/// The pieces of `s[from..]` between occurrences of `sep`: always at least
/// one piece, and no piece holds `sep`.
pub open spec fn spec_split_from(s: Seq<char>, from: int, sep: char) -> Seq<Seq<char>>
    decreases s.len() - from,
    via spec_split_from_dec
{
    let i = spec_find_char(s, sep, from);
    if i >= s.len() {
        seq![s.subrange(if from <= s.len() { from } else { s.len() as int }, s.len() as int)]
    } else {
        seq![s.subrange(if from <= i { from } else { i }, i)] + spec_split_from(s, i + 1, sep)
    }
}

proof fn lemma_find_char_range(s: Seq<char>, c: char, from: int)
    requires
        from <= s.len(),
    ensures
        from <= spec_find_char(s, c, from) <= s.len(),
    decreases s.len() - from,
{
    if from < s.len() && s[from] != c {
        lemma_find_char_range(s, c, from + 1);
    }
}

#[via_fn]
proof fn spec_split_from_dec(s: Seq<char>, from: int, sep: char) {
    if from <= s.len() {
        lemma_find_char_range(s, sep, from);
    }
}

/// The executable mirror of `spec_split_from`.
pub fn split_from(v: &Vec<char>, from: usize, sep: char) -> (r: Vec<Vec<char>>)
    requires
        from <= v@.len(),
    ensures
        r.deep_view() == spec_split_from(v@, from as int, sep),
    decreases v@.len() - from,
{
    let i = find_char(v, sep, from);
    if i >= v.len() {
        let piece = subvec(v, from, v.len());
        let ghost pv = piece@;
        let mut r: Vec<Vec<char>> = Vec::new();
        r.push(piece);
        proof {
            assert(r.deep_view() =~~= seq![pv]);
        }
        r
    } else {
        let piece = subvec(v, from, i);
        let ghost pv = piece@;
        let mut rest = split_from(v, i + 1, sep);
        let ghost restv = rest.deep_view();
        let mut r: Vec<Vec<char>> = Vec::new();
        r.push(piece);
        r.append(&mut rest);
        proof {
            assert(r.deep_view() =~~= seq![pv] + restv);
        }
        r
    }
}

// ------------------------------------------------------------------
// Lexicographic order
// ------------------------------------------------------------------
/// Strict lexicographic order on character sequences, by code point.
pub open spec fn spec_chars_lt(a: Seq<char>, b: Seq<char>) -> bool
    decreases a.len(),
{
    if b.len() == 0 {
        false
    } else if a.len() == 0 {
        true
    } else if a[0] != b[0] {
        (a[0] as u32) < (b[0] as u32)
    } else {
        spec_chars_lt(a.drop_first(), b.drop_first())
    }
}

/// The order is total: two character sequences compare one way, the other,
/// or are equal.
pub proof fn lemma_chars_lt_trichotomy(a: Seq<char>, b: Seq<char>)
    ensures
        spec_chars_lt(a, b) || spec_chars_lt(b, a) || a == b,
    decreases a.len(),
{
    if a.len() > 0 && b.len() > 0 && a[0] == b[0] {
        lemma_chars_lt_trichotomy(a.drop_first(), b.drop_first());
        if !spec_chars_lt(a, b) && !spec_chars_lt(b, a) {
            assert(a.drop_first() == b.drop_first());
            assert(a =~= b) by {
                assert(forall|i: int| 1 <= i < a.len() ==> a[i] == a.drop_first()[i - 1]
                    && b[i] == b.drop_first()[i - 1]);
            }
        }
    } else if a.len() > 0 && b.len() > 0 && a[0] != b[0] {
        assert((a[0] as u32) != (b[0] as u32)) by {
            if a[0] as u32 == b[0] as u32 {
                assert(a[0] == b[0]) by {
                    vstd::utf8::char_u32_cast(a[0], b[0] as u32);
                    vstd::utf8::char_u32_cast(b[0], b[0] as u32);
                }
            }
        }
    } else if a.len() == 0 && b.len() == 0 {
        assert(a =~= b);
    }
}

/// The order is transitive.
pub proof fn lemma_chars_lt_trans(a: Seq<char>, b: Seq<char>, c: Seq<char>)
    requires
        spec_chars_lt(a, b),
        spec_chars_lt(b, c),
    ensures
        spec_chars_lt(a, c),
    decreases a.len(),
{
    if a.len() > 0 && b.len() > 0 && c.len() > 0 {
        let au = a[0] as u32;
        let bu = b[0] as u32;
        let cu = c[0] as u32;
        assert(a[0] == b[0] ==> au == bu);
        assert(b[0] == c[0] ==> bu == cu);
        if a[0] == b[0] && b[0] == c[0] {
            lemma_chars_lt_trans(a.drop_first(), b.drop_first(), c.drop_first());
        } else {
            assert(au < cu);
            assert(a[0] != c[0]) by {
                if a[0] == c[0] {
                    vstd::utf8::char_u32_cast(a[0], au);
                    vstd::utf8::char_u32_cast(c[0], cu);
                }
            }
        }
    }
}

/// The executable mirror of `spec_chars_lt` on vectors of characters.
pub fn chars_lt(a: &Vec<char>, b: &Vec<char>) -> (r: bool)
    ensures
        r == spec_chars_lt(a@, b@),
{
    let mut i: usize = 0;
    proof {
        assert(a@.subrange(0, a@.len() as int) =~= a@);
        assert(b@.subrange(0, b@.len() as int) =~= b@);
    }
    loop
        invariant
            i <= a@.len(),
            i <= b@.len(),
            forall|j: int| 0 <= j < i ==> a@[j] == b@[j],
            spec_chars_lt(a@, b@) == spec_chars_lt(
                a@.subrange(i as int, a@.len() as int),
                b@.subrange(i as int, b@.len() as int),
            ),
        decreases a@.len() - i,
    {
        let ghost sa = a@.subrange(i as int, a@.len() as int);
        let ghost sb = b@.subrange(i as int, b@.len() as int);
        if i >= b.len() {
            assert(sb.len() == 0);
            return false;
        }
        if i >= a.len() {
            assert(sa.len() == 0 && sb.len() > 0);
            return true;
        }
        let ca = a[i];
        let cb = b[i];
        if ca != cb {
            assert(sa[0] == ca && sb[0] == cb);
            return (ca as u32) < (cb as u32);
        }
        proof {
            assert(sa[0] == sb[0]);
            assert(sa.drop_first() =~= a@.subrange(i as int + 1, a@.len() as int));
            assert(sb.drop_first() =~= b@.subrange(i as int + 1, b@.len() as int));
        }
        i = i + 1;
    }
}

// ------------------------------------------------------------------
// Conversions between String and Vec<char>
// ------------------------------------------------------------------
/// The characters of `s`, one per element.
pub fn str_to_chars(s: &str) -> (r: Vec<char>)
    ensures
        r@ == s@,
{
    let n = s.unicode_len();
    let mut r: Vec<char> = Vec::new();
    let mut i: usize = 0;
    while i < n
        invariant
            i <= n,
            n == s@.len(),
            r@ == s@.subrange(0, i as int),
        decreases n - i,
    {
        let c = s.get_char(i);
        r.push(c);
        proof {
            assert(r@ =~= s@.subrange(0, i as int + 1));
        }
        i = i + 1;
    }
    proof {
        assert(r@ =~= s@);
    }
    r
}

/// Relies on String's FromIterator over characters: collecting the
/// characters of `v` yields the string holding exactly those characters.
#[verifier::external_body]
pub fn chars_to_string(v: &Vec<char>) -> (r: String)
    ensures
        r@ == v@,
{
    v.iter().collect()
}

// ------------------------------------------------------------------
// Decimal rendering
// ------------------------------------------------------------------
/// The decimal digit character for a value below ten.
pub open spec fn spec_digit(d: int) -> char {
    if d == 0 {
        '0'
    } else if d == 1 {
        '1'
    } else if d == 2 {
        '2'
    } else if d == 3 {
        '3'
    } else if d == 4 {
        '4'
    } else if d == 5 {
        '5'
    } else if d == 6 {
        '6'
    } else if d == 7 {
        '7'
    } else if d == 8 {
        '8'
    } else {
        '9'
    }
}

/// The decimal digits of a non-negative value, most significant first.
pub open spec fn spec_dec_digits(n: int) -> Seq<char>
    decreases n,
{
    if n < 10 {
        seq![spec_digit(n)]
    } else {
        spec_dec_digits(n / 10).push(spec_digit(n % 10))
    }
}

/// The decimal rendering of a signed value: a minus sign and the digits of
/// its magnitude, or just the digits.
pub open spec fn spec_dec_i64(v: int) -> Seq<char> {
    if v < 0 {
        seq!['-'] + spec_dec_digits(-v)
    } else {
        spec_dec_digits(v)
    }
}

fn dec_digits_u64(n: u64) -> (r: Vec<char>)
    ensures
        r@ == spec_dec_digits(n as int),
    decreases n,
{
    if n < 10 {
        let r = vec![digit_char((n % 10) as u8)];
        proof {
            assert(r@ =~= seq![spec_digit(n as int)]);
        }
        r
    } else {
        let mut r = dec_digits_u64(n / 10);
        r.push(digit_char((n % 10) as u8));
        r
    }
}

fn digit_char(d: u8) -> (c: char)
    requires
        d < 10,
    ensures
        c == spec_digit(d as int),
{
    match d {
        0 => '0',
        1 => '1',
        2 => '2',
        3 => '3',
        4 => '4',
        5 => '5',
        6 => '6',
        7 => '7',
        8 => '8',
        _ => '9',
    }
}

/// Render a signed 64-bit value in decimal.
pub fn i64_to_string(v: i64) -> (r: String)
    ensures
        r@ == spec_dec_i64(v as int),
{
    if v >= 0 {
        let digits = dec_digits_u64(v as u64);
        chars_to_string(&digits)
    } else {
        // -(v + 1) avoids overflow at the smallest value.
        let m: u64 = (-(v + 1)) as u64 + 1;
        let digits = dec_digits_u64(m);
        let mut chars: Vec<char> = vec!['-'];
        let ghost dv = digits@;
        let mut dmut = digits;
        chars.append(&mut dmut);
        proof {
            assert(chars@ =~= seq!['-'] + dv);
        }
        chars_to_string(&chars)
    }
}

} // verus!
