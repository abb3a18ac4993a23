//! Character-level text handling: whitespace trimming, unsigned decimal
//! numbers (both directions) and schedule durations such as `40ms`.

use vstd::prelude::*;

verus! {

// ------------------------------------------------------------------
// Whitespace
// ------------------------------------------------------------------

/// The Unicode `White_Space` property, the notion of whitespace that
/// `str::trim` removes.
pub open spec fn is_white_space(c: char) -> bool {
    let x = c as u32;
    ||| 0x9 <= x <= 0xd
    ||| x == 0x20
    ||| x == 0x85
    ||| x == 0xa0
    ||| x == 0x1680
    ||| 0x2000 <= x <= 0x200a
    ||| x == 0x2028
    ||| x == 0x2029
    ||| x == 0x202f
    ||| x == 0x205f
    ||| x == 0x3000
}

/// `s` without its leading whitespace.
pub open spec fn trim_start(s: Seq<char>) -> Seq<char>
    decreases s.len(),
{
    if s.len() > 0 && is_white_space(s[0]) {
        trim_start(s.drop_first())
    } else {
        s
    }
}

/// `s` without its trailing whitespace.
pub open spec fn trim_end(s: Seq<char>) -> Seq<char>
    decreases s.len(),
{
    if s.len() > 0 && is_white_space(s.last()) {
        trim_end(s.drop_last())
    } else {
        s
    }
}

/// `s` without leading and trailing whitespace.
pub open spec fn trim(s: Seq<char>) -> Seq<char> {
    trim_end(trim_start(s))
}

/// Whether `s` ends with `suffix`.
pub open spec fn ends_with(s: Seq<char>, suffix: Seq<char>) -> bool {
    s.len() >= suffix.len() && s.subrange(s.len() - suffix.len(), s.len() as int) == suffix
}

/// `s` with its last `n` characters removed.
pub open spec fn drop_suffix(s: Seq<char>, n: nat) -> Seq<char> {
    s.subrange(0, s.len() - n)
}

fn white_space(c: char) -> (b: bool)
    ensures
        b == is_white_space(c),
{
    let x = c as u32;
    (0x9 <= x && x <= 0xd) || x == 0x20 || x == 0x85 || x == 0xa0 || x == 0x1680 || (0x2000 <= x
        && x <= 0x200a) || x == 0x2028 || x == 0x2029 || x == 0x202f || x == 0x205f || x == 0x3000
}

/// The characters of `s`, in order.
pub fn chars_of(s: &str) -> (v: Vec<char>)
    ensures
        v@ == s@,
{
    let n = s.unicode_len();
    let mut v: Vec<char> = Vec::new();
    let mut i: usize = 0;
    while i < n
        invariant
            n == s@.len(),
            i <= n,
            v@ == s@.subrange(0, i as int),
        decreases n - i,
    {
        v.push(s.get_char(i));
        i = i + 1;
        assert(v@ =~= s@.subrange(0, i as int));
    }
    assert(v@ =~= s@);
    v
}

/// The bounds, inside `lo..hi`, of `v[lo..hi]` with its surrounding
/// whitespace removed.
pub fn trim_bounds(v: &Vec<char>, lo: usize, hi: usize) -> (r: (usize, usize))
    requires
        lo <= hi <= v@.len(),
    ensures
        lo <= r.0 <= r.1 <= hi,
        v@.subrange(r.0 as int, r.1 as int) == trim(v@.subrange(lo as int, hi as int)),
{
    let mut a = lo;
    while a < hi && white_space(v[a])
        invariant
            lo <= a <= hi <= v@.len(),
            trim_start(v@.subrange(lo as int, hi as int)) == trim_start(
                v@.subrange(a as int, hi as int),
            ),
        decreases hi - a,
    {
        assert(v@.subrange(a as int, hi as int).drop_first() =~= v@.subrange(
            a + 1,
            hi as int,
        ));
        a = a + 1;
    }
    let ghost start = v@.subrange(a as int, hi as int);
    assert(trim_start(start) == start);
    let mut b = hi;
    while b > a && white_space(v[b - 1])
        invariant
            lo <= a <= b <= hi <= v@.len(),
            start == v@.subrange(a as int, hi as int),
            trim_end(start) == trim_end(v@.subrange(a as int, b as int)),
        decreases b - a,
    {
        assert(v@.subrange(a as int, b as int).drop_last() =~= v@.subrange(
            a as int,
            b - 1,
        ));
        b = b - 1;
    }
    (a, b)
}

// ------------------------------------------------------------------
// Unsigned decimal numbers
// ------------------------------------------------------------------

/// An ASCII decimal digit.
pub open spec fn is_digit(c: char) -> bool {
    '0' as u32 <= c as u32 <= '9' as u32
}

/// The value of the ASCII digit `c`.
pub open spec fn digit_value(c: char) -> nat {
    (c as u32 - '0' as u32) as nat
}

/// Every character of `s` is an ASCII digit.
pub open spec fn all_digits(s: Seq<char>) -> bool {
    forall|i: int| 0 <= i < s.len() ==> is_digit(#[trigger] s[i])
}

/// The value of the digit string `s` read in base ten (0 when empty).
pub open spec fn digits_value(s: Seq<char>) -> nat
    decreases s.len(),
{
    if s.len() == 0 {
        0
    } else {
        digits_value(s.drop_last()) * 10 + digit_value(s.last())
    }
}

/// `s` without one leading `+` sign.
pub open spec fn unsigned_part(s: Seq<char>) -> Seq<char> {
    if s.len() > 0 && s[0] == '+' {
        s.drop_first()
    } else {
        s
    }
}

/// What `str::parse::<u64>` gives: an optional `+` followed by at least one
/// ASCII digit, whose value fits in 64 bits.
pub open spec fn parse_u64(s: Seq<char>) -> Option<nat> {
    let d = unsigned_part(s);
    if d.len() > 0 && all_digits(d) && digits_value(d) <= u64::MAX {
        Some(digits_value(d))
    } else {
        None
    }
}

/// The character of the decimal digit `d`.
pub open spec fn digit_char(d: nat) -> char {
    if d == 0 {
        '0'
    } else if d == 1 {
        '1'
    } else if d == 2 {
        '2'
    } else if d == 3 {
        '3'
    } else if d == 4 {
        '4'
    } else if d == 5 {
        '5'
    } else if d == 6 {
        '6'
    } else if d == 7 {
        '7'
    } else if d == 8 {
        '8'
    } else {
        '9'
    }
}

/// The decimal representation of `n`, as `format!("{}", n)` writes it.
pub open spec fn decimal(n: nat) -> Seq<char>
    decreases n,
{
    if n < 10 {
        seq![digit_char(n)]
    } else {
        decimal(n / 10).push(digit_char(n % 10))
    }
}

/// A prefix of a digit string never has a larger value than the string.
proof fn lemma_digits_value_prefix(s: Seq<char>, k: int)
    requires
        0 <= k <= s.len(),
    ensures
        digits_value(s.subrange(0, k)) <= digits_value(s),
    decreases s.len(),
{
    if k < s.len() {
        lemma_digits_value_prefix(s.drop_last(), k);
        assert(s.drop_last().subrange(0, k) =~= s.subrange(0, k));
    } else {
        assert(s.subrange(0, k) =~= s);
    }
}

proof fn lemma_step_fits(acc: nat, d: nat)
    requires
        d < 10,
    ensures
        acc <= (u64::MAX - d) / 10 <==> acc * 10 + d <= u64::MAX,
{
    assert(acc <= (u64::MAX - d) / 10 <==> acc * 10 + d <= u64::MAX) by (nonlinear_arith)
        requires
            d < 10,
    ;
}

/// `str::parse::<u64>` on `v[lo..hi]`.
pub fn parse_u64_in(v: &Vec<char>, lo: usize, hi: usize) -> (r: Option<u64>)
    requires
        lo <= hi <= v@.len(),
    ensures
        r is Some <==> parse_u64(v@.subrange(lo as int, hi as int)) is Some,
        r matches Some(x) ==> parse_u64(v@.subrange(lo as int, hi as int)) == Some(x as nat),
{
    let ghost s = v@.subrange(lo as int, hi as int);
    let mut start = lo;
    if lo < hi && v[lo] == '+' {
        start = lo + 1;
    }
    let ghost d = v@.subrange(start as int, hi as int);
    assert(unsigned_part(s) =~= d);
    if start == hi {
        return None;
    }
    let mut i = start;
    while i < hi
        invariant
            start <= i <= hi <= v@.len(),
            d == v@.subrange(start as int, hi as int),
            s == v@.subrange(lo as int, hi as int),
            unsigned_part(s) == d,
            forall|j: int| start <= j < i ==> is_digit(#[trigger] v@[j]),
        decreases hi - i,
    {
        let c = v[i];
        let x = c as u32;
        if !(48 <= x && x <= 57) {
            assert(d[i - start] == c);
            assert(!is_digit(d[i - start]));
            return None;
        }
        i = i + 1;
    }
    assert(all_digits(d)) by {
        assert forall|j: int| 0 <= j < d.len() implies is_digit(#[trigger] d[j]) by {
            assert(d[j] == v@[start + j]);
        }
    }
    let mut acc: u64 = 0;
    let mut i = start;
    while i < hi
        invariant
            start <= i <= hi <= v@.len(),
            d == v@.subrange(start as int, hi as int),
            s == v@.subrange(lo as int, hi as int),
            unsigned_part(s) == d,
            all_digits(d),
            acc as nat == digits_value(v@.subrange(start as int, i as int)),
        decreases hi - i,
    {
        let c = v[i];
        assert(c == d[i - start]);
        let dv = (c as u32 - '0' as u32) as u64;
        assert(v@.subrange(start as int, i + 1).drop_last() =~= v@.subrange(
            start as int,
            i as int,
        ));
        proof {
            lemma_step_fits(acc as nat, dv as nat);
        }
        assert(digit_value(c) == dv);
        assert(digits_value(v@.subrange(start as int, i + 1)) == acc * 10 + dv);
        if acc > (u64::MAX - dv) / 10 {
            proof {
                assert(v@.subrange(start as int, i + 1) =~= d.subrange(0, i + 1 - start));
                lemma_digits_value_prefix(d, i + 1 - start);
                assert(digits_value(d) > u64::MAX);
                assert(unsigned_part(s) == d);
                assert(parse_u64(s) is None);
            }
            return None;
        }
        acc = acc * 10 + dv;
        i = i + 1;
    }
    assert(v@.subrange(start as int, hi as int) =~= d);
    Some(acc)
}

/// The text of the decimal digit `d`.
fn digit_text(d: u64) -> (t: &'static str)
    requires
        d < 10,
    ensures
        t@ == seq![digit_char(d as nat)],
{
    proof {
        reveal_strlit("0");
        reveal_strlit("1");
        reveal_strlit("2");
        reveal_strlit("3");
        reveal_strlit("4");
        reveal_strlit("5");
        reveal_strlit("6");
        reveal_strlit("7");
        reveal_strlit("8");
        reveal_strlit("9");
    }
    if d == 0 {
        "0"
    } else if d == 1 {
        "1"
    } else if d == 2 {
        "2"
    } else if d == 3 {
        "3"
    } else if d == 4 {
        "4"
    } else if d == 5 {
        "5"
    } else if d == 6 {
        "6"
    } else if d == 7 {
        "7"
    } else if d == 8 {
        "8"
    } else {
        "9"
    }
}

/// Appends the decimal representation of `n` to `out`.
pub fn push_decimal(out: &mut String, n: u64)
    ensures
        final(out)@ == old(out)@ + decimal(n as nat),
    decreases n,
{
    if n >= 10 {
        push_decimal(out, n / 10);
    }
    out.append(digit_text(n % 10));
    assert(final(out)@ =~= old(out)@ + decimal(n as nat));
}

// ------------------------------------------------------------------
// Durations
// ------------------------------------------------------------------

/// The number in front of a unit suffix of length `n`, trimmed and parsed.
pub open spec fn unit_value(t: Seq<char>, n: nat) -> Option<nat> {
    parse_u64(trim(drop_suffix(t, n)))
}

/// A duration such as `40ms`, `1s` or `500us`, in whole milliseconds
/// (microseconds are truncated). Whitespace around the text and between
/// the number and its unit is ignored; anything else is malformed.
pub open spec fn duration_ms(s: Seq<char>) -> Option<nat> {
    let t = trim(s);
    if ends_with(t, seq!['m', 's']) {
        unit_value(t, 2)
    } else if ends_with(t, seq!['u', 's']) {
        match unit_value(t, 2) {
            Some(v) => Some(v / 1000),
            None => None,
        }
    } else if ends_with(t, seq!['s']) {
        match unit_value(t, 1) {
            Some(v) => Some(v * 1000),
            None => None,
        }
    } else {
        None
    }
}

/// The duration, where there is one, fits in 64 bits.
pub open spec fn duration_fits(s: Seq<char>) -> bool {
    duration_ms(s) matches Some(v) ==> v <= u64::MAX
}

/// An optional machine number taken as a mathematical one.
pub open spec fn nat_option(o: Option<u64>) -> Option<nat> {
    match o {
        Some(v) => Some(v as nat),
        None => None,
    }
}

fn ends_with2_in(v: &Vec<char>, lo: usize, hi: usize, a: char, b: char) -> (r: bool)
    requires
        lo <= hi <= v@.len(),
    ensures
        r == ends_with(v@.subrange(lo as int, hi as int), seq![a, b]),
{
    let ghost t = v@.subrange(lo as int, hi as int);
    if hi - lo >= 2 && v[hi - 2] == a && v[hi - 1] == b {
        assert(t.subrange(t.len() - 2, t.len() as int) =~= seq![a, b]);
        true
    } else {
        proof {
            if ends_with(t, seq![a, b]) {
                assert(t.subrange(t.len() - 2, t.len() as int)[0] == t[t.len() - 2]);
                assert(t.subrange(t.len() - 2, t.len() as int)[1] == t[t.len() - 1]);
            }
        }
        false
    }
}

fn ends_with1_in(v: &Vec<char>, lo: usize, hi: usize, a: char) -> (r: bool)
    requires
        lo <= hi <= v@.len(),
    ensures
        r == ends_with(v@.subrange(lo as int, hi as int), seq![a]),
{
    let ghost t = v@.subrange(lo as int, hi as int);
    if hi - lo >= 1 && v[hi - 1] == a {
        assert(t.subrange(t.len() - 1, t.len() as int) =~= seq![a]);
        true
    } else {
        proof {
            if ends_with(t, seq![a]) {
                assert(t.subrange(t.len() - 1, t.len() as int)[0] == t[t.len() - 1]);
            }
        }
        false
    }
}

fn unit_value_in(v: &Vec<char>, lo: usize, hi: usize, n: usize) -> (r: Option<u64>)
    requires
        lo + n <= hi <= v@.len(),
    ensures
        nat_option(r) == unit_value(v@.subrange(lo as int, hi as int), n as nat),
{
    let (a, b) = trim_bounds(v, lo, hi - n);
    assert(drop_suffix(v@.subrange(lo as int, hi as int), n as nat) =~= v@.subrange(
        lo as int,
        hi - n,
    ));
    parse_u64_in(v, a, b)
}

/// The duration of `s` computed without overflow: `None` where it does not
/// fit in 64 bits, else the parse result.
fn duration_checked(s: &str) -> (r: Option<Option<u64>>)
    ensures
        match r {
            None => !duration_fits(s@),
            Some(x) => duration_fits(s@) && nat_option(x) == duration_ms(s@),
        },
{
    let v = chars_of(s);
    let (lo, hi) = trim_bounds(&v, 0, v.len());
    assert(v@.subrange(0, v@.len() as int) =~= s@);
    if ends_with2_in(&v, lo, hi, 'm', 's') {
        Some(unit_value_in(&v, lo, hi, 2))
    } else if ends_with2_in(&v, lo, hi, 'u', 's') {
        match unit_value_in(&v, lo, hi, 2) {
            Some(x) => Some(Some(x / 1000)),
            None => Some(None),
        }
    } else if ends_with1_in(&v, lo, hi, 's') {
        match unit_value_in(&v, lo, hi, 1) {
            Some(x) => match x.checked_mul(1000) {
                Some(y) => Some(Some(y)),
                None => None,
            },
            None => Some(None),
        }
    } else {
        Some(None)
    }
}

/// Whether the duration of `s`, where it has one, fits in 64 bits.
pub fn duration_in_range(s: &str) -> (r: bool)
    ensures
        r == duration_fits(s@),
{
    duration_checked(s).is_some()
}

/// Parse `40ms`, `2ms`, `1s`, `500us` into milliseconds. Returns `None` on
/// malformed input.
pub fn parse_duration_ms(s: &str) -> (r: Option<u64>)
    requires
        duration_fits(s@),
    ensures
        nat_option(r) == duration_ms(s@),
{
    match duration_checked(s) {
        Some(x) => x,
        None => None,
    }
}

/// Whether two texts are the same.
pub fn same_text(a: &str, b: &str) -> (r: bool)
    ensures
        r == (a@ == b@),
{
    a.to_owned() == b.to_owned()
}

proof fn lemma_digit_char(d: nat)
    requires
        d < 10,
    ensures
        is_digit(digit_char(d)),
        digit_value(digit_char(d)) == d,
        !is_white_space(digit_char(d)),
        digit_char(d) != '+',
{
}

proof fn lemma_decimal_digits(n: nat)
    ensures
        decimal(n).len() > 0,
        all_digits(decimal(n)),
        digits_value(decimal(n)) == n,
        decimal(n)[0] != '+',
        !is_white_space(decimal(n)[0]),
        !is_white_space(decimal(n).last()),
    decreases n,
{
    if n < 10 {
        lemma_digit_char(n);
        assert(decimal(n).drop_last() =~= Seq::<char>::empty());
        assert(digits_value(Seq::<char>::empty()) == 0);
        assert(digits_value(decimal(n)) == digit_value(digit_char(n)));
        assert(digits_value(decimal(n)) == n);
    } else {
        lemma_decimal_digits(n / 10);
        lemma_digit_char(n % 10);
        let s = decimal(n / 10);
        assert(decimal(n).drop_last() =~= s);
        assert(decimal(n).last() == digit_char(n % 10));
        assert(digits_value(decimal(n)) == (n / 10) * 10 + n % 10);
        assert((n / 10) * 10 + n % 10 == n) by (nonlinear_arith);
        assert(digits_value(decimal(n)) == n);
        assert(decimal(n)[0] == s[0]);
        assert forall|i: int| 0 <= i < decimal(n).len() implies is_digit(#[trigger] decimal(n)[i]) by {
            if i < s.len() {
                assert(decimal(n)[i] == s[i]);
            }
        }
    }
}

/// Reading back the decimal text of a 64-bit number gives the number.
pub proof fn decimal_round_trip(n: u64)
    ensures
        parse_u64(decimal(n as nat)) == Some(n as nat),
{
    lemma_decimal_digits(n as nat);
    assert(unsigned_part(decimal(n as nat)) == decimal(n as nat));
}

proof fn lemma_trim_unchanged(s: Seq<char>)
    requires
        s.len() > 0,
        !is_white_space(s[0]),
        !is_white_space(s.last()),
    ensures
        trim(s) == s,
{
}

/// A duration written as its number of milliseconds followed by `ms` reads
/// back as that number.
pub proof fn duration_ms_round_trip(n: u64)
    ensures
        duration_ms(decimal(n as nat) + seq!['m', 's']) == Some(n as nat),
{
    let d = decimal(n as nat);
    let t = d + seq!['m', 's'];
    lemma_decimal_digits(n as nat);
    assert(t[0] == d[0]);
    assert(t.last() == 's');
    lemma_trim_unchanged(t);
    assert(t.subrange(t.len() - 2, t.len() as int) =~= seq!['m', 's']);
    assert(drop_suffix(t, 2) =~= d);
    lemma_trim_unchanged(d);
    decimal_round_trip(n);
}

/// A digit string, optionally followed by one space, reads as its value.
proof fn lemma_number_part(n: Seq<char>, gap: Seq<char>)
    requires
        n.len() > 0,
        all_digits(n),
        digits_value(n) <= u64::MAX,
        gap == Seq::<char>::empty() || gap == seq![' '],
    ensures
        parse_u64(trim(n + gap)) == Some(digits_value(n)),
{
    let t = n + gap;
    assert(is_digit(n[0]) && is_digit(n.last()));
    assert(t[0] == n[0]);
    assert(!is_white_space(n[0]));
    assert(trim_start(t) == t);
    if gap.len() == 0 {
        assert(t =~= n);
    } else {
        assert(t.last() == ' ');
        assert(t.drop_last() =~= n);
        assert(trim_end(n) == n);
    }
    assert(trim(t) == n);
    assert(unsigned_part(n) == n);
}

/// A digit string followed by a unit (after at most one space) has the
/// unit removed and what is left read as the number.
proof fn lemma_unit_text(n: Seq<char>, gap: Seq<char>, unit: Seq<char>)
    requires
        n.len() > 0,
        all_digits(n),
        digits_value(n) <= u64::MAX,
        gap == Seq::<char>::empty() || gap == seq![' '],
        unit == seq!['m', 's'] || unit == seq!['u', 's'] || unit == seq!['s'],
    ensures
        trim(n + gap + unit) == n + gap + unit,
        ends_with(n + gap + unit, seq!['m', 's']) <==> unit == seq!['m', 's'],
        ends_with(n + gap + unit, seq!['u', 's']) <==> unit == seq!['u', 's'],
        ends_with(n + gap + unit, seq!['s']),
        unit_value(n + gap + unit, unit.len()) == Some(digits_value(n)),
{
    let t = n + gap + unit;
    let k = unit.len();
    assert(is_digit(n[0]) && is_digit(n.last()));
    assert(t[0] == n[0]);
    assert(t.last() == 's');
    assert(!is_white_space(n[0]));
    assert(trim(t) == t);
    assert(t.subrange(t.len() - k, t.len() as int) =~= unit);
    assert(drop_suffix(t, k) =~= n + gap);
    lemma_number_part(n, gap);
    assert(t.subrange(t.len() - 1, t.len() as int) =~= seq!['s']);
    let before = t[t.len() - 2];
    if k == 1 {
        assert(before == n.last() || before == ' ') by {
            if gap.len() == 0 {
                assert(before == n[n.len() - 1]);
            } else {
                assert(before == gap[0]);
            }
        }
        assert(t.subrange(t.len() - 2, t.len() as int)[0] == before);
    } else {
        assert(t.subrange(t.len() - 2, t.len() as int) =~= unit);
    }
}

/// A number of milliseconds, microseconds or seconds reads as that many
/// whole milliseconds, whether or not a space stands between the number
/// and its unit: `n ms` is n, `n us` is n / 1000 and `n s` is n * 1000.
pub proof fn duration_units(n: Seq<char>, spaced: bool)
    requires
        n.len() > 0,
        all_digits(n),
        digits_value(n) <= u64::MAX,
    ensures
        ({
            let g = if spaced { seq![' '] } else { Seq::<char>::empty() };
            &&& duration_ms(n + g + seq!['m', 's']) == Some(digits_value(n))
            &&& duration_ms(n + g + seq!['u', 's']) == Some(digits_value(n) / 1000)
            &&& duration_ms(n + g + seq!['s']) == Some(digits_value(n) * 1000)
        }),
{
    let g = if spaced { seq![' '] } else { Seq::<char>::empty() };
    lemma_unit_text(n, g, seq!['m', 's']);
    lemma_unit_text(n, g, seq!['u', 's']);
    lemma_unit_text(n, g, seq!['s']);
}

/// Whitespace between the number and its unit is ignored.
pub proof fn duration_ignores_space_before_unit(n: Seq<char>, unit: Seq<char>)
    requires
        n.len() > 0,
        all_digits(n),
        digits_value(n) <= u64::MAX,
        unit == seq!['m', 's'] || unit == seq!['u', 's'] || unit == seq!['s'],
    ensures
        duration_ms(n + seq![' '] + unit) == duration_ms(n + unit),
{
    duration_units(n, true);
    duration_units(n, false);
    assert(n + Seq::<char>::empty() =~= n);
}

/// Whitespace around a duration is ignored: ` n<unit> ` reads as `n<unit>`.
pub proof fn duration_ignores_surrounding_space(n: Seq<char>, unit: Seq<char>)
    requires
        n.len() > 0,
        all_digits(n),
        digits_value(n) <= u64::MAX,
        unit == seq!['m', 's'] || unit == seq!['u', 's'] || unit == seq!['s'],
    ensures
        duration_ms(seq![' '] + n + unit + seq![' ']) == duration_ms(n + unit),
{
    let t = n + unit;
    let padded = seq![' '] + n + unit + seq![' '];
    assert(is_digit(n[0]));
    assert(t[0] == n[0]);
    assert(t.last() == 's');
    assert(padded.drop_first() =~= t + seq![' ']);
    assert(trim_start(t + seq![' ']) == t + seq![' ']) by {
        assert((t + seq![' '])[0] == n[0]);
    }
    assert(trim_start(padded) == t + seq![' ']);
    assert((t + seq![' ']).drop_last() =~= t);
    assert(trim_end(t) == t);
    assert(trim(padded) == t);
    lemma_trim_unchanged(t);
}

/// A bare number without a unit is no duration.
pub proof fn duration_needs_a_unit(n: Seq<char>)
    requires
        n.len() > 0,
        all_digits(n),
    ensures
        duration_ms(n) is None,
{
    assert(is_digit(n[0]) && is_digit(n.last()));
    lemma_trim_unchanged(n);
    assert(n.subrange(n.len() - 1, n.len() as int)[0] == n.last());
    if n.len() >= 2 {
        assert(n.subrange(n.len() - 2, n.len() as int)[1] == n.last());
    }
}

/// A `+` in front of a number is accepted and changes nothing.
pub proof fn parse_accepts_plus_sign(n: Seq<char>)
    requires
        n.len() > 0,
        all_digits(n),
        digits_value(n) <= u64::MAX,
    ensures
        parse_u64(seq!['+'] + n) == Some(digits_value(n)),
        parse_u64(n) == Some(digits_value(n)),
{
    assert(is_digit(n[0]));
    assert((seq!['+'] + n).drop_first() =~= n);
}

} // verus!
