//! Character-level text handling shared by the metric parser and the report
//! renderer: whitespace trimming, searching, decimal rendering and number
//! parsing, all over sequences of `char`.
use vstd::prelude::*;

verus! {

broadcast use vstd::string::group_string_axioms;

// ---------------------------------------------------------------------------
// Conversions between `str`/`String` and `Vec<char>`
// ---------------------------------------------------------------------------

/// The characters of `s`, in order.
pub fn chars_of(s: &str) -> (v: Vec<char>)
    ensures
        v@ == s@,
{
    let mut v: Vec<char> = Vec::new();
    for c in it: s.chars()
        invariant
            v@ == it.seq().take(it.index() as int),
    {
        v.push(c);
    }
    v
}

/// Builds a `String` out of a run of characters (std's
/// `FromIterator<char> for String`). The contract claims that the string
/// holds exactly the given characters, in order.
#[verifier::external_body]
pub fn string_from_chars(cs: &[char]) -> (s: String)
    ensures
        s@ == cs@,
{
    cs.iter().collect::<String>()
}

/// Appends the characters of `s` to `out`.
pub fn push_str(out: &mut Vec<char>, s: &str)
    ensures
        final(out)@ == old(out)@ + s@,
{
    let cs = chars_of(s);
    let ghost start = out@;
    let mut i: usize = 0;
    while i < cs.len()
        invariant
            i <= cs@.len(),
            cs@ == s@,
            out@ == start + cs@.take(i as int),
        decreases cs@.len() - i,
    {
        out.push(cs[i]);
        i = i + 1;
        assert(cs@.take(i as int) =~= cs@.take(i - 1 as int).push(cs@[i - 1]));
    }
    assert(cs@.take(cs@.len() as int) =~= cs@);
}

/// Appends a run of characters to `out`.
pub fn push_chars(out: &mut Vec<char>, cs: &Vec<char>)
    ensures
        final(out)@ == old(out)@ + cs@,
{
    let ghost start = out@;
    let mut i: usize = 0;
    while i < cs.len()
        invariant
            i <= cs@.len(),
            out@ == start + cs@.take(i as int),
        decreases cs@.len() - i,
    {
        out.push(cs[i]);
        i = i + 1;
        assert(cs@.take(i as int) =~= cs@.take(i - 1 as int).push(cs@[i - 1]));
    }
    assert(cs@.take(cs@.len() as int) =~= cs@);
}

/// Whether the characters `v[lo..hi]` are exactly those of `lit`.
pub fn range_eq_str(v: &Vec<char>, lo: usize, hi: usize, lit: &str) -> (b: bool)
    requires
        lo <= hi <= v@.len(),
    ensures
        b == (v@.subrange(lo as int, hi as int) == lit@),
{
    let l = chars_of(lit);
    if hi - lo != l.len() {
        return false;
    }
    let mut i: usize = 0;
    while i < l.len()
        invariant
            l@ == lit@,
            hi - lo == l@.len(),
            lo <= hi <= v@.len(),
            i <= l@.len(),
            forall|j: int| 0 <= j < i ==> v@[lo + j] == l@[j],
        decreases l@.len() - i,
    {
        if v[lo + i] != l[i] {
            assert(v@.subrange(lo as int, hi as int)[i as int] != l@[i as int]);
            return false;
        }
        i = i + 1;
    }
    assert(v@.subrange(lo as int, hi as int) =~= l@);
    true
}

/// Copies `v[lo..hi]` into a fresh vector.
pub fn copy_range(v: &Vec<char>, lo: usize, hi: usize) -> (r: Vec<char>)
    requires
        lo <= hi <= v@.len(),
    ensures
        r@ == v@.subrange(lo as int, hi as int),
{
    let mut r: Vec<char> = Vec::new();
    let mut i = lo;
    while i < hi
        invariant
            lo <= i <= hi <= v@.len(),
            r@ == v@.subrange(lo as int, i as int),
        decreases hi - i,
    {
        r.push(v[i]);
        i = i + 1;
        assert(r@ =~= v@.subrange(lo as int, i as int));
    }
    r
}

// ---------------------------------------------------------------------------
// Whitespace and trimming (the semantics of `str::trim`)
// ---------------------------------------------------------------------------

/// Unicode `White_Space`, the property that `char::is_whitespace` tests.
pub open spec fn is_ws(c: char) -> bool {
    let u = c as u32;
    ||| 0x9 <= u <= 0xd
    ||| u == 0x20
    ||| u == 0x85
    ||| u == 0xa0
    ||| u == 0x1680
    ||| 0x2000 <= u <= 0x200a
    ||| u == 0x2028
    ||| u == 0x2029
    ||| u == 0x202f
    ||| u == 0x205f
    ||| u == 0x3000
}

pub fn is_whitespace(c: char) -> (b: bool)
    ensures
        b == is_ws(c),
{
    let u = c as u32;
    (0x9 <= u && u <= 0xd) || u == 0x20 || u == 0x85 || u == 0xa0 || u == 0x1680 || (0x2000 <= u
        && u <= 0x200a) || u == 0x2028 || u == 0x2029 || u == 0x202f || u == 0x205f || u == 0x3000
}

/// `s` without its leading whitespace.
pub open spec fn trim_start(s: Seq<char>) -> Seq<char>
    decreases s.len(),
{
    if s.len() > 0 && is_ws(s[0]) {
        trim_start(s.drop_first())
    } else {
        s
    }
}

/// `s` without its trailing whitespace.
pub open spec fn trim_end(s: Seq<char>) -> Seq<char>
    decreases s.len(),
{
    if s.len() > 0 && is_ws(s.last()) {
        trim_end(s.drop_last())
    } else {
        s
    }
}

/// `s` without leading and trailing whitespace.
pub open spec fn trim(s: Seq<char>) -> Seq<char> {
    trim_end(trim_start(s))
}

/// The bounds of the trimmed part of `v[lo..hi]`.
pub fn trim_range(v: &Vec<char>, lo: usize, hi: usize) -> (r: (usize, usize))
    requires
        lo <= hi <= v@.len(),
    ensures
        lo <= r.0 <= r.1 <= hi,
        v@.subrange(r.0 as int, r.1 as int) == trim(v@.subrange(lo as int, hi as int)),
{
    let mut a = lo;
    while a < hi && is_whitespace(v[a])
        invariant
            lo <= a <= hi <= v@.len(),
            trim_start(v@.subrange(lo as int, hi as int)) == trim_start(
                v@.subrange(a as int, hi as int),
            ),
        decreases hi - a,
    {
        assert(v@.subrange(a as int, hi as int).drop_first() =~= v@.subrange(a + 1, hi as int));
        a = a + 1;
    }
    let mut b = hi;
    while b > a && is_whitespace(v[b - 1])
        invariant
            lo <= a <= b <= hi <= v@.len(),
            trim_end(v@.subrange(a as int, hi as int)) == trim_end(
                v@.subrange(a as int, b as int),
            ),
        decreases b - a,
    {
        assert(v@.subrange(a as int, b as int).drop_last() =~= v@.subrange(a as int, b - 1));
        b = b - 1;
    }
    (a, b)
}

// ---------------------------------------------------------------------------
// Searching
// ---------------------------------------------------------------------------

/// Index of the first `c` in `s`, or `s.len()` when there is none.
pub open spec fn index_of(s: Seq<char>, c: char) -> nat
    decreases s.len(),
{
    if s.len() == 0 {
        0
    } else if s[0] == c {
        0
    } else {
        1 + index_of(s.drop_first(), c)
    }
}

pub proof fn lemma_index_of(s: Seq<char>, c: char, k: int)
    requires
        0 <= k <= s.len(),
        forall|t: int| 0 <= t < k ==> s[t] != c,
        k == s.len() || s[k] == c,
    ensures
        index_of(s, c) == k,
    decreases k,
{
    if k > 0 {
        lemma_index_of(s.drop_first(), c, k - 1);
    }
}

pub proof fn lemma_index_of_bounds(s: Seq<char>, c: char)
    ensures
        index_of(s, c) <= s.len(),
        index_of(s, c) < s.len() ==> s[index_of(s, c) as int] == c,
        forall|t: int| 0 <= t < index_of(s, c) ==> s[t] != c,
    decreases s.len(),
{
    if s.len() > 0 && s[0] != c {
        lemma_index_of_bounds(s.drop_first(), c);
        assert forall|t: int| 0 <= t < index_of(s, c) implies s[t] != c by {
            if t > 0 {
                assert(s[t] == s.drop_first()[t - 1]);
            }
        }
    }
}

/// Position of the first `c` in `v[lo..hi]`, or `hi`.
pub fn find_char(v: &Vec<char>, lo: usize, hi: usize, c: char) -> (k: usize)
    requires
        lo <= hi <= v@.len(),
    ensures
        lo <= k <= hi,
        k - lo == index_of(v@.subrange(lo as int, hi as int), c),
{
    let mut k = lo;
    while k < hi && v[k] != c
        invariant
            lo <= k <= hi <= v@.len(),
            forall|t: int| lo <= t < k ==> v@[t] != c,
        decreases hi - k,
    {
        k = k + 1;
    }
    proof {
        lemma_index_of(v@.subrange(lo as int, hi as int), c, k - lo);
    }
    k
}

// ---------------------------------------------------------------------------
// Decimal digits
// ---------------------------------------------------------------------------

pub open spec fn is_digit(c: char) -> bool {
    '0' <= c <= '9'
}

pub open spec fn digit_value(c: char) -> nat {
    (c as u32 - '0' as u32) as nat
}

pub open spec fn all_digits(s: Seq<char>) -> bool {
    forall|i: int| 0 <= i < s.len() ==> is_digit(#[trigger] s[i])
}

/// The number that the decimal digits `s` spell.
pub open spec fn digits_value(s: Seq<char>) -> nat
    decreases s.len(),
{
    if s.len() == 0 {
        0
    } else {
        digits_value(s.drop_last()) * 10 + digit_value(s.last())
    }
}

pub open spec fn pow10(k: nat) -> nat
    decreases k,
{
    if k == 0 {
        1
    } else {
        10 * pow10((k - 1) as nat)
    }
}

/// The digit character for `d < 10`.
pub open spec fn digit_char(d: nat) -> char {
    ((d + '0' as u32) as u32) as char
}

/// The decimal rendering of `n`, as `Display` for unsigned integers writes it.
pub open spec fn decimal(n: nat) -> Seq<char>
    decreases n,
{
    if n < 10 {
        seq![digit_char(n)]
    } else {
        decimal(n / 10) + seq![digit_char(n % 10)]
    }
}

pub proof fn lemma_digits_prefix(s: Seq<char>, k: int)
    requires
        0 <= k <= s.len(),
    ensures
        digits_value(s.take(k)) <= digits_value(s),
    decreases s.len() - k,
{
    if k < s.len() {
        lemma_digits_prefix(s, k + 1);
        assert(s.take(k + 1).drop_last() =~= s.take(k));
    } else {
        assert(s.take(k) =~= s);
    }
}

pub proof fn lemma_digits_step(s: Seq<char>, k: int)
    requires
        0 <= k < s.len(),
    ensures
        digits_value(s.take(k + 1)) == digits_value(s.take(k)) * 10 + digit_value(s[k]),
{
    assert(s.take(k + 1).drop_last() =~= s.take(k));
}

/// Appends the decimal rendering of `n`.
pub fn push_decimal(out: &mut Vec<char>, n: u64)
    ensures
        final(out)@ == old(out)@ + decimal(n as nat),
    decreases n,
{
    if n >= 10 {
        push_decimal(out, n / 10);
    }
    let d = (n % 10) as u8;
    let c = (d + 0x30u8) as char;
    assert(c == digit_char((n % 10) as nat));
    out.push(c);
}

// ---------------------------------------------------------------------------
// Number parsing
// ---------------------------------------------------------------------------

/// The grammar that `FromStr` accepts for unsigned integers: an optional `+`,
/// then one or more decimal digits, spelling a value of at most `max`.
pub open spec fn parse_uint(s: Seq<char>, max: nat) -> Option<nat> {
    let d = if s.len() > 0 && s[0] == '+' {
        s.drop_first()
    } else {
        s
    };
    if d.len() == 0 || !all_digits(d) || digits_value(d) > max {
        None
    } else {
        Some(digits_value(d))
    }
}

/// Parses `v[lo..hi]` as an unsigned integer of at most `max`.
#[verifier::spinoff_prover]
#[verifier::rlimit(60)]
pub fn parse_uint_range(v: &Vec<char>, lo: usize, hi: usize, max: u64) -> (r: Option<u64>)
    requires
        lo <= hi <= v@.len(),
    ensures
        r matches Some(n) ==> parse_uint(v@.subrange(lo as int, hi as int), max as nat) == Some(
            n as nat,
        ),
        r is None ==> parse_uint(v@.subrange(lo as int, hi as int), max as nat) is None,
{
    let ghost s = v@.subrange(lo as int, hi as int);
    let mut start = lo;
    if start < hi && v[start] == '+' {
        start = start + 1;
    }
    let ghost d = v@.subrange(start as int, hi as int);
    assert(d =~= (if s.len() > 0 && s[0] == '+' {
        s.drop_first()
    } else {
        s
    }));
    if start == hi {
        return None;
    }
    let mut acc: u64 = 0;
    let mut i = start;
    while i < hi
        invariant
            lo <= start <= i <= hi <= v@.len(),
            d == v@.subrange(start as int, hi as int),
            s == v@.subrange(lo as int, hi as int),
            d == (if s.len() > 0 && s[0] == '+' {
                s.drop_first()
            } else {
                s
            }),
            acc as nat == digits_value(d.take(i - start)),
            acc <= max,
            forall|t: int| 0 <= t < i - start ==> is_digit(#[trigger] d[t]),
        decreases hi - i,
    {
        let c = v[i];
        if !('0' <= c && c <= '9') {
            assert(!is_digit(d[i - start]));
            return None;
        }
        let dg = (c as u32 - 0x30) as u64;
        proof {
            lemma_digits_step(d, i - start);
        }
        if dg > max || acc > (max - dg) / 10 {
            proof {
                assert(acc * 10 + dg > max) by (nonlinear_arith)
                    requires
                        dg > max || acc > (max - dg) / 10,
                        dg <= 9,
                ;
                if all_digits(d) {
                    lemma_digits_prefix(d, i - start + 1);
                }
            }
            return None;
        }
        proof {
            assert(acc * 10 + dg <= max) by (nonlinear_arith)
                requires
                    acc <= (max - dg) / 10,
                    dg <= max,
            ;
        }
        acc = acc * 10 + dg;
        i = i + 1;
    }
    assert(d.take(i - start) =~= d);
    Some(acc)
}

/// The sign-and-digits part of a decimal number: optional sign, then the
/// body.
pub open spec fn decimal_body(s: Seq<char>) -> Seq<char> {
    if s.len() > 0 && (s[0] == '-' || s[0] == '+') {
        s.drop_first()
    } else {
        s
    }
}

/// Index of the first exponent mark (`e` or `E`) in `s`, or `s.len()`.
pub open spec fn index_of_exp(s: Seq<char>) -> nat {
    let a = index_of(s, 'e');
    let b = index_of(s, 'E');
    if a < b {
        a
    } else {
        b
    }
}

/// An exponent: an optional sign, then one or more decimal digits.
pub open spec fn exponent_syntax(x: Seq<char>) -> bool {
    let b = decimal_body(x);
    b.len() > 0 && all_digits(b)
}

/// A mantissa: digits, a point and digits, with at least one digit and
/// either side of the point possibly empty (or no point at all).
pub open spec fn mantissa_syntax(m: Seq<char>) -> bool {
    let p = index_of(m, '.');
    let ip = m.take(p as int);
    let fp = if p < m.len() {
        m.skip((p + 1) as int)
    } else {
        Seq::<char>::empty()
    };
    !(ip.len() == 0 && fp.len() == 0) && all_digits(ip) && all_digits(fp)
}

/// The code of `c` with ASCII letters taken in lower case.
pub open spec fn lower_code(c: char) -> u32 {
    if 'A' <= c <= 'Z' {
        (c as u32 + 32) as u32
    } else {
        c as u32
    }
}

/// `s` spells the lower-case word `w`, in any case.
pub open spec fn eq_ignore_case(s: Seq<char>, w: Seq<char>) -> bool {
    s.len() == w.len() && forall|i: int| 0 <= i < s.len() ==> lower_code(#[trigger] s[i]) == w[i] as u32
}

/// The text that `f32::from_str` (and `f64::from_str`) reads as a number:
/// an optional sign, then `inf`, `infinity` or `nan` in any case, or a
/// mantissa with an optional exponent after `e` or `E`. Every such text
/// gives a value (too large a magnitude gives an infinity); every other
/// text is an error.
pub open spec fn float_syntax(s: Seq<char>) -> bool {
    let b = decimal_body(s);
    let pe = index_of_exp(b);
    ||| eq_ignore_case(b, "inf"@)
    ||| eq_ignore_case(b, "infinity"@)
    ||| eq_ignore_case(b, "nan"@)
    ||| (pe == b.len() || exponent_syntax(b.skip((pe + 1) as int))) && mantissa_syntax(
        b.take(pe as int),
    )
}

/// Whether `v[lo..hi]` are all decimal digits.
fn all_digits_range(v: &Vec<char>, lo: usize, hi: usize) -> (b: bool)
    requires
        lo <= hi <= v@.len(),
    ensures
        b == all_digits(v@.subrange(lo as int, hi as int)),
{
    let mut i = lo;
    while i < hi
        invariant
            lo <= i <= hi <= v@.len(),
            forall|t: int| lo <= t < i ==> is_digit(#[trigger] v@[t]),
        decreases hi - i,
    {
        if !('0' <= v[i] && v[i] <= '9') {
            assert(!is_digit(v@.subrange(lo as int, hi as int)[i - lo]));
            return false;
        }
        i = i + 1;
    }
    assert forall|t: int| 0 <= t < hi - lo implies is_digit(
        #[trigger] v@.subrange(lo as int, hi as int)[t],
    ) by {
        assert(v@.subrange(lo as int, hi as int)[t] == v@[lo + t]);
    }
    true
}

/// Whether `v[lo..hi]` spells the lower-case word `w` in any case.
fn range_eq_ignore_case(v: &Vec<char>, lo: usize, hi: usize, w: &str) -> (r: bool)
    requires
        lo <= hi <= v@.len(),
    ensures
        r == eq_ignore_case(v@.subrange(lo as int, hi as int), w@),
{
    let wv = chars_of(w);
    if hi - lo != wv.len() {
        return false;
    }
    let mut i: usize = 0;
    while i < wv.len()
        invariant
            hi - lo == wv@.len(),
            lo <= hi <= v@.len(),
            i <= wv@.len(),
            wv@ == w@,
            forall|t: int| 0 <= t < i ==> lower_code(#[trigger] v@[lo + t]) == wv@[t] as u32,
        decreases wv@.len() - i,
    {
        let c = v[lo + i];
        let wc = wv[i];
        let same = if 'A' <= c && c <= 'Z' {
            (c as u32) + 32 == (wc as u32)
        } else {
            (c as u32) == (wc as u32)
        };
        if !same {
            assert(v@.subrange(lo as int, hi as int)[i as int] == c);
            assert(wv@[i as int] == wc);
            assert(lower_code(c) != wc as u32);
            assert(!(lower_code(v@.subrange(lo as int, hi as int)[i as int]) == w@[i as int] as u32));
            return false;
        }
        i = i + 1;
    }
    assert forall|t: int| 0 <= t < hi - lo implies lower_code(
        #[trigger] v@.subrange(lo as int, hi as int)[t],
    ) == w@[t] as u32 by {
        assert(v@.subrange(lo as int, hi as int)[t] == v@[lo + t]);
    }
    true
}

/// Whether `v[lo..hi]` is a mantissa (`mantissa_syntax`).
fn mantissa_syntax_range(v: &Vec<char>, lo: usize, hi: usize) -> (r: bool)
    requires
        lo <= hi <= v@.len(),
    ensures
        r == mantissa_syntax(v@.subrange(lo as int, hi as int)),
{
    let ghost m = v@.subrange(lo as int, hi as int);
    let p = find_char(v, lo, hi, '.');
    assert(m.take(p - lo) =~= v@.subrange(lo as int, p as int));
    let fstart = if p < hi {
        p + 1
    } else {
        hi
    };
    assert((if p - lo < m.len() {
        m.skip(p - lo + 1)
    } else {
        Seq::<char>::empty()
    }) =~= v@.subrange(fstart as int, hi as int));
    !(p == lo && fstart == hi) && all_digits_range(v, lo, p) && all_digits_range(v, fstart, hi)
}

/// Whether `v[lo..hi]` is an exponent (`exponent_syntax`).
fn exponent_syntax_range(v: &Vec<char>, lo: usize, hi: usize) -> (r: bool)
    requires
        lo <= hi <= v@.len(),
    ensures
        r == exponent_syntax(v@.subrange(lo as int, hi as int)),
{
    let ghost x = v@.subrange(lo as int, hi as int);
    let mut ds = lo;
    if lo < hi && (v[lo] == '-' || v[lo] == '+') {
        ds = lo + 1;
    }
    assert(decimal_body(x) =~= v@.subrange(ds as int, hi as int));
    ds < hi && all_digits_range(v, ds, hi)
}

/// Whether `f32::from_str` reads `v[lo..hi]` as a number (`float_syntax`).
#[verifier::spinoff_prover]
pub fn float_syntax_range(v: &Vec<char>, lo: usize, hi: usize) -> (r: bool)
    requires
        lo <= hi <= v@.len(),
    ensures
        r == float_syntax(v@.subrange(lo as int, hi as int)),
{
    let ghost s = v@.subrange(lo as int, hi as int);
    let mut start = lo;
    if lo < hi && (v[lo] == '-' || v[lo] == '+') {
        start = lo + 1;
    }
    let ghost b = v@.subrange(start as int, hi as int);
    assert(decimal_body(s) =~= b);
    let pe1 = find_char(v, start, hi, 'e');
    let pe2 = find_char(v, start, hi, 'E');
    let pe = if pe1 < pe2 {
        pe1
    } else {
        pe2
    };
    assert(pe - start == index_of_exp(b));
    assert(b.take(pe - start) =~= v@.subrange(start as int, pe as int));
    let exp_ok = if pe < hi {
        assert(b.skip(pe - start + 1) =~= v@.subrange(pe + 1, hi as int));
        exponent_syntax_range(v, pe + 1, hi)
    } else {
        true
    };
    proof {
        reveal_strlit("inf");
        reveal_strlit("infinity");
        reveal_strlit("nan");
    }
    range_eq_ignore_case(v, start, hi, "inf") || range_eq_ignore_case(v, start, hi, "infinity")
        || range_eq_ignore_case(v, start, hi, "nan") || (exp_ok && mantissa_syntax_range(
        v,
        start,
        pe,
    ))
}

} // verus!

verus! {

// ---------------------------------------------------------------------------
// Ordering of character sequences
// ---------------------------------------------------------------------------

/// Lexicographic order by code point, which is the order of `str`'s `Ord`
/// (UTF-8 preserves code-point order byte by byte).
pub open spec fn seq_lt(a: Seq<char>, b: Seq<char>) -> bool
    decreases a.len(),
{
    if a.len() == 0 {
        b.len() > 0
    } else if b.len() == 0 {
        false
    } else if a[0] < b[0] {
        true
    } else if a[0] == b[0] {
        seq_lt(a.drop_first(), b.drop_first())
    } else {
        false
    }
}

pub proof fn lemma_seq_lt_irreflexive(a: Seq<char>)
    ensures
        !seq_lt(a, a),
    decreases a.len(),
{
    if a.len() > 0 {
        lemma_seq_lt_irreflexive(a.drop_first());
    }
}

pub proof fn lemma_seq_lt_transitive(a: Seq<char>, b: Seq<char>, c: Seq<char>)
    requires
        seq_lt(a, b),
        seq_lt(b, c),
    ensures
        seq_lt(a, c),
    decreases a.len(),
{
    if a.len() > 0 && b.len() > 0 && c.len() > 0 {
        if a[0] == b[0] && b[0] == c[0] {
            lemma_seq_lt_transitive(a.drop_first(), b.drop_first(), c.drop_first());
        }
    }
}

pub proof fn lemma_seq_lt_total(a: Seq<char>, b: Seq<char>)
    requires
        a != b,
    ensures
        seq_lt(a, b) || seq_lt(b, a),
    decreases a.len(),
{
    if a.len() > 0 && b.len() > 0 && a[0] == b[0] {
        if a.drop_first() == b.drop_first() {
            assert(a =~= seq![a[0]] + a.drop_first());
            assert(b =~= seq![b[0]] + b.drop_first());
        }
        lemma_seq_lt_total(a.drop_first(), b.drop_first());
    } else if a.len() == 0 && b.len() == 0 {
        assert(a =~= b);
    }
}

pub proof fn lemma_seq_lt_asymmetric(a: Seq<char>, b: Seq<char>)
    requires
        seq_lt(a, b),
    ensures
        !seq_lt(b, a),
{
    if seq_lt(b, a) {
        lemma_seq_lt_transitive(a, b, a);
        lemma_seq_lt_irreflexive(a);
    }
}

/// Three-way comparison: negative, zero or positive as `a` is before, equal
/// to or after `b`.
pub fn compare_chars(a: &Vec<char>, b: &Vec<char>) -> (r: i8)
    ensures
        r < 0 <==> seq_lt(a@, b@),
        r == 0 <==> a@ == b@,
        r > 0 <==> seq_lt(b@, a@),
{
    let mut i: usize = 0;
    assert(a@.skip(0) =~= a@);
    assert(b@.skip(0) =~= b@);
    assert(a@.take(0) =~= b@.take(0));
    while i < a.len() && i < b.len() && a[i] == b[i]
        invariant
            i <= a@.len(),
            i <= b@.len(),
            a@.take(i as int) == b@.take(i as int),
            seq_lt(a@, b@) == seq_lt(a@.skip(i as int), b@.skip(i as int)),
            seq_lt(b@, a@) == seq_lt(b@.skip(i as int), a@.skip(i as int)),
        decreases a@.len() - i,
    {
        assert(a@.skip(i as int).drop_first() =~= a@.skip(i + 1));
        assert(b@.skip(i as int).drop_first() =~= b@.skip(i + 1));
        assert(a@.take(i + 1) =~= a@.take(i as int).push(a@[i as int]));
        assert(b@.take(i + 1) =~= b@.take(i as int).push(b@[i as int]));
        i = i + 1;
    }
    let ghost sa = a@.skip(i as int);
    let ghost sb = b@.skip(i as int);
    if i == a.len() && i == b.len() {
        assert(a@ =~= a@.take(i as int));
        assert(b@ =~= b@.take(i as int));
        proof {
            lemma_seq_lt_irreflexive(a@);
        }
        0
    } else if i == a.len() {
        assert(sa.len() == 0 && sb.len() > 0);
        proof {
            lemma_seq_lt_asymmetric(a@, b@);
        }
        assert(a@.len() != b@.len());
        -1
    } else if i == b.len() {
        assert(sb.len() == 0 && sa.len() > 0);
        proof {
            lemma_seq_lt_asymmetric(b@, a@);
        }
        assert(a@.len() != b@.len());
        1
    } else {
        assert(sa[0] == a@[i as int] && sb[0] == b@[i as int]);
        assert(a@[i as int] != b@[i as int]);
        if a[i] < b[i] {
            proof {
                lemma_seq_lt_asymmetric(a@, b@);
            }
            -1
        } else {
            proof {
                lemma_seq_lt_asymmetric(b@, a@);
            }
            1
        }
    }
}

} // verus!
