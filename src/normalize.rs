//! Canonical form of a single raw cell value.
use vstd::prelude::*;
use vstd::string::*;

verus! {

/// Unicode `White_Space` characters: what `char::is_whitespace` accepts.
pub open spec fn is_ws(c: char) -> bool {
    ('\u{9}' <= c && c <= '\u{d}') || c == ' ' || c == '\u{85}' || c == '\u{a0}'
        || c == '\u{1680}' || ('\u{2000}' <= c && c <= '\u{200a}') || c == '\u{2028}'
        || c == '\u{2029}' || c == '\u{202f}' || c == '\u{205f}' || c == '\u{3000}'
}

pub open spec fn trim_start(s: Seq<char>) -> Seq<char>
    decreases s.len(),
{
    if s.len() > 0 && is_ws(s[0]) {
        trim_start(s.drop_first())
    } else {
        s
    }
}

pub open spec fn trim_end(s: Seq<char>) -> Seq<char>
    decreases s.len(),
{
    if s.len() > 0 && is_ws(s.last()) {
        trim_end(s.drop_last())
    } else {
        s
    }
}

/// The value with surrounding whitespace removed.
pub open spec fn trim(s: Seq<char>) -> Seq<char> {
    trim_end(trim_start(s))
}

/// `t` equals the lowercase ASCII word `w` when ASCII letters are compared without case.
pub open spec fn eq_ignore_case(t: Seq<char>, w: Seq<char>) -> bool {
    &&& t.len() == w.len()
    &&& forall|i: int|
        0 <= i < t.len() ==> (t[i] == w[i] || ('a' <= w[i] && w[i] <= 'z' && t[i] as u32 + 32
            == w[i] as u32))
}

/// The words that stand for a missing value.
pub open spec fn null_words() -> Seq<Seq<char>> {
    seq![
        seq!['#', 'n', '/', 'a'],
        seq!['n', 'u', 'l', 'l'],
        seq!['n', 'o', 'n', 'e'],
        seq!['n', 'a', 'n'],
        seq!['n', '.', 'a'],
        seq!['n', 'a'],
    ]
}

/// A trimmed value that denotes "no value".
pub open spec fn is_null_token(t: Seq<char>) -> bool {
    t.len() == 0 || exists|k: int| 0 <= k < null_words().len() && eq_ignore_case(t, null_words()[k])
}

pub open spec fn is_digit(c: char) -> bool {
    '0' <= c && c <= '9'
}

/// Length of the run of ASCII digits that starts `s`.
pub open spec fn digit_run(s: Seq<char>) -> nat
    decreases s.len(),
{
    if s.len() > 0 && is_digit(s[0]) {
        1 + digit_run(s.drop_first())
    } else {
        0
    }
}

pub open spec fn sign_len(t: Seq<char>) -> int {
    if t.len() > 0 && (t[0] == '+' || t[0] == '-') {
        1
    } else {
        0
    }
}

/// Position just after the run of digits that starts at `i`.
pub open spec fn after_digits(t: Seq<char>, i: int) -> int {
    i + digit_run(t.subrange(i, t.len() as int))
}

/// End of the integer digits of `t` (after an optional sign).
pub open spec fn int_end(t: Seq<char>) -> int {
    after_digits(t, sign_len(t))
}

/// Start of the fraction digits: after the decimal point, if there is one.
pub open spec fn frac_start(t: Seq<char>) -> int {
    if int_end(t) < t.len() && t[int_end(t)] == '.' {
        int_end(t) + 1
    } else {
        int_end(t)
    }
}

pub open spec fn frac_end(t: Seq<char>) -> int {
    if frac_start(t) > int_end(t) {
        after_digits(t, frac_start(t))
    } else {
        int_end(t)
    }
}

/// The mantissa is followed by an exponent marker `e` or `E`.
pub open spec fn has_exponent(t: Seq<char>) -> bool {
    frac_end(t) < t.len() && (t[frac_end(t)] == 'e' || t[frac_end(t)] == 'E')
}

/// Start of the exponent digits, after the marker and an optional sign.
pub open spec fn exp_start(t: Seq<char>) -> int {
    frac_end(t) + 1 + sign_len(t.subrange(frac_end(t) + 1, t.len() as int))
}

pub open spec fn exp_end(t: Seq<char>) -> int {
    after_digits(t, exp_start(t))
}

/// `t` is a decimal numeral: an optional sign, digits, an optional point and digits (at
/// least one digit in all), and an optional exponent (`e` or `E`, an optional sign, and
/// at least one digit).
pub open spec fn is_numeral(t: Seq<char>) -> bool {
    &&& (int_end(t) - sign_len(t)) + (frac_end(t) - frac_start(t)) >= 1
    &&& if has_exponent(t) {
        exp_end(t) == t.len() && exp_end(t) > exp_start(t)
    } else {
        frac_end(t) == t.len()
    }
}

pub open spec fn digit_value(c: char) -> nat {
    ((c as u32) as int - 48) as nat
}

/// The number that a run of decimal digits denotes.
pub open spec fn digits_value(s: Seq<char>) -> nat
    decreases s.len(),
{
    if s.len() == 0 {
        0
    } else {
        10 * digits_value(s.drop_last()) + digit_value(s.last())
    }
}

/// The exponent of a numeral, zero when it has none.
pub open spec fn exponent(t: Seq<char>) -> int {
    if has_exponent(t) {
        let v = digits_value(t.subrange(exp_start(t), exp_end(t))) as int;
        if t[frac_end(t) + 1] == '-' {
            -v
        } else {
            v
        }
    } else {
        0
    }
}

/// The digits of the mantissa, the point left out.
pub open spec fn mantissa(t: Seq<char>) -> Seq<char> {
    t.subrange(sign_len(t), int_end(t)) + t.subrange(frac_start(t), frac_end(t))
}

/// The mantissa digits without leading zeros; empty when the value is zero.
pub open spec fn significand(t: Seq<char>) -> Seq<char> {
    strip_zeros(mantissa(t))
}

/// How many of the significand's digits (padded with zeros) stand before the point once
/// the exponent is applied.
pub open spec fn int_len(t: Seq<char>) -> int {
    significand(t).len() + exponent(t) - (frac_end(t) - frac_start(t))
}

/// The longest whole number that is written out: longer ones lie at or past the reach of a
/// 64-bit float and are kept as written.
pub open spec fn max_whole_digits() -> int {
    308
}

pub open spec fn all_zeros(s: Seq<char>) -> bool {
    forall|i: int| 0 <= i < s.len() ==> s[i] == '0'
}

/// `t` is a numeral whose exact value is a whole number of at most `max_whole_digits`
/// digits: zero, or a value with no nonzero digit after the point.
pub open spec fn is_integral_numeral(t: Seq<char>) -> bool {
    let sig = significand(t);
    let l = int_len(t);
    &&& is_numeral(t)
    &&& (sig.len() == 0 || (1 <= l <= max_whole_digits() && (l >= sig.len() || all_zeros(
        sig.skip(l),
    ))))
}

pub open spec fn strip_zeros(s: Seq<char>) -> Seq<char>
    decreases s.len(),
{
    if s.len() > 0 && s[0] == '0' {
        strip_zeros(s.drop_first())
    } else {
        s
    }
}

/// The digits of a nonzero whole number: the significand, cut or padded with zeros.
pub open spec fn whole_digits(t: Seq<char>) -> Seq<char> {
    let sig = significand(t);
    let l = int_len(t);
    if l >= sig.len() {
        sig + Seq::new((l - sig.len()) as nat, |i: int| '0')
    } else {
        sig.take(l)
    }
}

/// The whole number that an integral numeral denotes, written without sign for zero,
/// without leading zeros, point or exponent.
pub open spec fn integer_text(t: Seq<char>) -> Seq<char> {
    if significand(t).len() == 0 {
        seq!['0']
    } else if t[0] == '-' {
        seq!['-'] + whole_digits(t)
    } else {
        whole_digits(t)
    }
}

/// The canonical form of a raw cell value.
pub open spec fn normalized(s: Seq<char>) -> Seq<char> {
    let t = trim(s);
    if is_null_token(t) {
        Seq::empty()
    } else if is_integral_numeral(t) {
        integer_text(t)
    } else {
        t
    }
}


fn is_ws_char(c: char) -> (r: bool)
    ensures
        r == is_ws(c),
{
    ('\u{9}' <= c && c <= '\u{d}') || c == ' ' || c == '\u{85}' || c == '\u{a0}'
        || c == '\u{1680}' || ('\u{2000}' <= c && c <= '\u{200a}') || c == '\u{2028}'
        || c == '\u{2029}' || c == '\u{202f}' || c == '\u{205f}' || c == '\u{3000}'
}

/// Character positions `(a, b)` such that `s[a..b]` is `s` trimmed.
pub fn trim_bounds(s: &str) -> (r: (usize, usize))
    ensures
        r.0 <= r.1 <= s@.len(),
        s@.subrange(r.0 as int, r.1 as int) == trim(s@),
{
    let n = s.unicode_len();
    let mut i: usize = 0;
    assert(s@.subrange(0, n as int) =~= s@);
    while i < n && is_ws_char(s.get_char(i))
        invariant
            i <= n,
            n == s@.len(),
            trim_start(s@) == trim_start(s@.subrange(i as int, n as int)),
        decreases n - i,
    {
        assert(s@.subrange(i as int, n as int).drop_first() =~= s@.subrange(i + 1, n as int));
        i = i + 1;
    }
    assert(trim_start(s@) == s@.subrange(i as int, n as int));
    let mut j: usize = n;
    while j > i && is_ws_char(s.get_char(j - 1))
        invariant
            i <= j <= n,
            n == s@.len(),
            trim_end(s@.subrange(i as int, n as int)) == trim_end(s@.subrange(i as int, j as int)),
        decreases j,
    {
        assert(s@.subrange(i as int, j as int).drop_last() =~= s@.subrange(i as int, j - 1));
        j = j - 1;
    }
    (i, j)
}

/// Whether `t` equals the lowercase ASCII word `w` when ASCII letters are compared
/// without case.
fn matches_word(t: &str, w: &Vec<char>) -> (r: bool)
    ensures
        r == eq_ignore_case(t@, w@),
{
    let n = t.unicode_len();
    if n != w.len() {
        return false;
    }
    let mut i: usize = 0;
    while i < n
        invariant
            i <= n,
            n == t@.len(),
            n == w@.len(),
            forall|k: int|
                0 <= k < i ==> (t@[k] == w@[k] || ('a' <= w@[k] && w@[k] <= 'z' && t@[k] as u32
                    + 32 == w@[k] as u32)),
        decreases n - i,
    {
        let c = t.get_char(i);
        let x = w[i];
        if !(c == x || ('a' <= x && x <= 'z' && c as u32 + 32 == x as u32)) {
            return false;
        }
        i = i + 1;
    }
    true
}

fn is_null_text(t: &str) -> (r: bool)
    ensures
        r == is_null_token(t@),
{
    if t.unicode_len() == 0 {
        return true;
    }
    let words: Vec<Vec<char>> = vec![
        vec!['#', 'n', '/', 'a'],
        vec!['n', 'u', 'l', 'l'],
        vec!['n', 'o', 'n', 'e'],
        vec!['n', 'a', 'n'],
        vec!['n', '.', 'a'],
        vec!['n', 'a'],
    ];
    assert(words@.len() == null_words().len());
    assert(forall|k: int| 0 <= k < words@.len() ==> words@[k]@ == null_words()[k]);
    let mut k: usize = 0;
    while k < words.len()
        invariant
            k <= words@.len(),
            words@.len() == null_words().len(),
            forall|m: int| 0 <= m < words@.len() ==> words@[m]@ == null_words()[m],
            forall|m: int| 0 <= m < k ==> !eq_ignore_case(t@, null_words()[m]),
        decreases words@.len() - k,
    {
        if matches_word(t, &words[k]) {
            return true;
        }
        k = k + 1;
    }
    false
}

/// The position after the run of digits that starts at `i`.
fn skip_digits(t: &str, i: usize) -> (r: usize)
    requires
        i <= t@.len(),
    ensures
        r == after_digits(t@, i as int),
        i <= r <= t@.len(),
        forall|k: int| i <= k < r ==> is_digit(#[trigger] t@[k]),
{
    let n = t.unicode_len();
    let mut j: usize = i;
    while j < n && is_digit_char(t.get_char(j))
        invariant
            i <= j <= n,
            n == t@.len(),
            digit_run(t@.subrange(i as int, n as int)) == (j - i) + digit_run(
                t@.subrange(j as int, n as int),
            ),
            forall|k: int| i <= k < j ==> is_digit(#[trigger] t@[k]),
        decreases n - j,
    {
        assert(t@.subrange(j as int, n as int).drop_first() =~= t@.subrange(j + 1, n as int));
        j = j + 1;
    }
    j
}

proof fn lemma_digits_value_grows(s: Seq<char>, m: int)
    requires
        0 <= m <= s.len(),
        forall|k: int| 0 <= k < s.len() ==> is_digit(#[trigger] s[k]),
    ensures
        digits_value(s.take(m)) <= digits_value(s),
    decreases s.len() - m,
{
    if m < s.len() {
        assert(s.take(m + 1).drop_last() =~= s.take(m));
        lemma_digits_value_grows(s, m + 1);
    } else {
        assert(s.take(m) =~= s);
    }
}

/// The value of the digits `t[from..to]`, or `None` once it passes `cap`.
fn read_digits(t: &str, from: usize, to: usize, cap: u128) -> (r: Option<u128>)
    requires
        from <= to <= t@.len(),
        cap <= u64::MAX as u128 * 2,
        forall|k: int| from <= k < to ==> is_digit(#[trigger] t@[k]),
    ensures
        r matches Some(v) ==> v == digits_value(t@.subrange(from as int, to as int)) && v <= cap,
        r is None ==> digits_value(t@.subrange(from as int, to as int)) > cap,
{
    let ghost ds = t@.subrange(from as int, to as int);
    let mut v: u128 = 0;
    let mut j: usize = from;
    assert(ds.take(0) =~= Seq::<char>::empty());
    while j < to
        invariant
            from <= j <= to,
            to <= t@.len(),
            cap <= u64::MAX as u128 * 2,
            ds == t@.subrange(from as int, to as int),
            forall|k: int| from <= k < to ==> is_digit(#[trigger] t@[k]),
            v == digits_value(ds.take(j - from)),
            v <= cap,
        decreases to - j,
    {
        assert(ds.take(j + 1 - from).drop_last() =~= ds.take(j - from));
        assert(ds[j - from] == t@[j as int]);
        let d = t.get_char(j) as u32 - 48;
        v = v * 10 + d as u128;
        if v > cap {
            proof {
                assert forall|k: int| 0 <= k < ds.len() implies is_digit(#[trigger] ds[k]) by {
                    assert(ds[k] == t@[from + k]);
                }
                lemma_digits_value_grows(ds, j + 1 - from);
            }
            return None;
        }
        j = j + 1;
    }
    assert(ds.take(to - from) =~= ds);
    Some(v)
}

/// The one-character text of a digit.
fn digit_text(c: char) -> (r: &'static str)
    requires
        is_digit(c),
    ensures
        r@ == seq![c],
{
    proof {
        reveal_strlit("0");
        reveal_strlit("1");
        reveal_strlit("2");
        reveal_strlit("3");
        reveal_strlit("4");
        reveal_strlit("5");
        reveal_strlit("6");
        reveal_strlit("7");
        reveal_strlit("8");
        reveal_strlit("9");
    }
    let r = if c == '0' {
        "0"
    } else if c == '1' {
        "1"
    } else if c == '2' {
        "2"
    } else if c == '3' {
        "3"
    } else if c == '4' {
        "4"
    } else if c == '5' {
        "5"
    } else if c == '6' {
        "6"
    } else if c == '7' {
        "7"
    } else if c == '8' {
        "8"
    } else {
        "9"
    };
    assert(r@ =~= seq![c]);
    r
}


fn mantissa_chars(t: &str, b: usize, i1: usize, f0: usize, f1: usize) -> (r: Vec<char>)
    requires
        b <= i1 <= f0 <= f1 <= t@.len(),
    ensures
        r@ == t@.subrange(b as int, i1 as int) + t@.subrange(f0 as int, f1 as int),
{
    let mut mant: Vec<char> = Vec::new();
    let mut j: usize = b;
    while j < i1
        invariant
            b <= j <= i1,
            i1 <= t@.len(),
            mant@ == t@.subrange(b as int, j as int),
        decreases i1 - j,
    {
        mant.push(t.get_char(j));
        assert(mant@ =~= t@.subrange(b as int, j + 1));
        j = j + 1;
    }
    let mut j: usize = f0;
    assert(mant@ =~= t@.subrange(b as int, i1 as int) + t@.subrange(f0 as int, f0 as int));
    while j < f1
        invariant
            f0 <= j <= f1,
            f1 <= t@.len(),
            mant@ == t@.subrange(b as int, i1 as int) + t@.subrange(f0 as int, j as int),
        decreases f1 - j,
    {
        mant.push(t.get_char(j));
        assert(mant@ =~= t@.subrange(b as int, i1 as int) + t@.subrange(f0 as int, j + 1));
        j = j + 1;
    }
    mant
}

fn zeros_from(v: &Vec<char>, from: usize) -> (r: bool)
    requires
        from <= v@.len(),
    ensures
        r == all_zeros(v@.subrange(from as int, v@.len() as int)),
{
    let mut k: usize = from;
    while k < v.len()
        invariant
            from <= k <= v@.len(),
            forall|q: int| from <= q < k ==> v@[q] == '0',
        decreases v@.len() - k,
    {
        if v[k] != '0' {
            assert(v@.subrange(from as int, v@.len() as int)[k - from] != '0');
            return false;
        }
        k = k + 1;
    }
    true
}

/// An optional minus sign, then the digits `v[z..]` cut or padded with zeros to `l`.
fn write_whole(neg: bool, v: &Vec<char>, z: usize, l: usize) -> (r: String)
    requires
        z <= v@.len(),
        forall|q: int| 0 <= q < v@.len() ==> is_digit(#[trigger] v@[q]),
    ensures
        ({
            let sig = v@.subrange(z as int, v@.len() as int);
            let w = if l >= sig.len() {
                sig + Seq::new((l - sig.len()) as nat, |i: int| '0')
            } else {
                sig.take(l as int)
            };
            r@ == (if neg { seq!['-'] + w } else { w })
        }),
{
    proof {
        reveal_strlit("0");
        reveal_strlit("-");
    }
    let ghost sig = v@.subrange(z as int, v@.len() as int);
    let mut out = if neg {
        String::from_str("-")
    } else {
        String::new()
    };
    let ghost prefix = out@;
    let sl = v.len() - z;
    let upto = if l < sl {
        l
    } else {
        sl
    };
    let mut k: usize = 0;
    while k < upto
        invariant
            k <= upto <= sl,
            z <= v@.len(),
            sl == v@.len() - z,
            z + sl == v.len(),
            sig == v@.subrange(z as int, v@.len() as int),
            forall|q: int| 0 <= q < v@.len() ==> is_digit(#[trigger] v@[q]),
            out@ == prefix + sig.take(k as int),
        decreases upto - k,
    {
        out.append(digit_text(v[z + k]));
        assert(out@ =~= prefix + sig.take(k + 1));
        k = k + 1;
    }
    if l >= sl {
        let mut k: usize = sl;
        assert(sig.take(sl as int) =~= sig);
        assert(sig + Seq::new(0, |i: int| '0') =~= sig);
        while k < l
            invariant
                sl <= k <= l,
                "0"@ == seq!['0'],
                out@ == prefix + (sig + Seq::new((k - sl) as nat, |i: int| '0')),
            decreases l - k,
        {
            out.append("0");
            assert(out@ =~= prefix + (sig + Seq::new((k + 1 - sl) as nat, |i: int| '0')));
            k = k + 1;
        }
    }
    assert(neg ==> prefix == seq!['-']);
    assert(!neg ==> prefix == Seq::<char>::empty());
    proof {
        if !neg {
            assert(out@ =~= out@.subrange(0, out@.len() as int));
        }
    }
    out
}

/// The parts of a numeral: positions of the sign's end, the integer digits' end, the
/// fraction digits' start and end, whether the exponent is negative, and the exponent's
/// size, or `None` once it passes `t@.len() + 400`.
fn numeral_parts(t: &str) -> (r: Option<(usize, usize, usize, usize, bool, Option<u128>)>)
    ensures
        r is Some <==> is_numeral(t@),
        r matches Some((b, i1, f0, f1, neg, ev)) ==> {
            &&& b == sign_len(t@) && i1 == int_end(t@) && f0 == frac_start(t@) && f1 == frac_end(t@)
            &&& b <= i1 <= f0 <= f1 <= t@.len()
            &&& forall|k: int| b <= k < i1 ==> is_digit(#[trigger] t@[k])
            &&& forall|k: int| f0 <= k < f1 ==> is_digit(#[trigger] t@[k])
            &&& (ev matches Some(e) ==> e <= t@.len() + 400 && exponent(t@) == (if neg {
                -(e as int)
            } else {
                e as int
            }))
            &&& (ev is None ==> (neg ==> exponent(t@) < -(t@.len() + 400)) && (!neg ==> exponent(t@)
                > t@.len() + 400))
        },
{
    let ghost tv = t@;
    let n = t.unicode_len();
    let b: usize = if n > 0 && (t.get_char(0) == '+' || t.get_char(0) == '-') {
        1
    } else {
        0
    };
    assert(b == sign_len(tv));
    let i1 = skip_digits(t, b);
    let f0: usize = if i1 < n && t.get_char(i1) == '.' {
        i1 + 1
    } else {
        i1
    };
    assert(f0 == frac_start(tv));
    let f1: usize = if f0 > i1 {
        skip_digits(t, f0)
    } else {
        i1
    };
    assert(f1 == frac_end(tv));
    if (i1 - b) + (f1 - f0) == 0 {
        return None;
    }
    let cap: u128 = n as u128 + 400;
    let mut exp_neg = false;
    let mut exp_val: Option<u128> = Some(0);
    if f1 < n {
        let c = t.get_char(f1);
        if c != 'e' && c != 'E' {
            return None;
        }
        assert(has_exponent(tv));
        let mut e1 = f1 + 1;
        if e1 < n && (t.get_char(e1) == '+' || t.get_char(e1) == '-') {
            exp_neg = t.get_char(e1) == '-';
            e1 = e1 + 1;
        }
        assert(tv.subrange(f1 + 1, n as int).len() > 0 ==> tv.subrange(f1 + 1, n as int)[0] == tv[f1
            + 1]);
        assert(e1 == exp_start(tv));
        let e2 = skip_digits(t, e1);
        if e2 != n || e2 == e1 {
            return None;
        }
        exp_val = read_digits(t, e1, e2, cap);
        assert(exp_neg <==> tv[f1 + 1] == '-');
    } else {
        assert(!has_exponent(tv));
    }
    Some((b, i1, f0, f1, exp_neg, exp_val))
}

/// The text of the whole number that `t` denotes, or `None` when `t` is no integral
/// numeral.
#[verifier::rlimit(40)]
fn whole_number(t: &str) -> (r: Option<String>)
    ensures
        r is Some <==> is_integral_numeral(t@),
        r matches Some(s) ==> s@ == integer_text(t@),
{
    let ghost tv = t@;
    let n = t.unicode_len();
    let (b, i1, f0, f1, exp_neg, exp_val) = match numeral_parts(t) {
        Some(p) => p,
        None => {
            return None;
        },
    };
    let mant = mantissa_chars(t, b, i1, f0, f1);
    assert(mant@ == mantissa(tv));
    let m = mant.len();
    let mut z: usize = 0;
    assert(mant@.subrange(0, m as int) =~= mant@);
    while z < m && mant[z] == '0'
        invariant
            z <= m,
            m == mant@.len(),
            strip_zeros(mant@) == strip_zeros(mant@.subrange(z as int, m as int)),
        decreases m - z,
    {
        assert(mant@.subrange(z as int, m as int).drop_first() =~= mant@.subrange(z + 1, m as int));
        z = z + 1;
    }
    let ghost sig = significand(tv);
    assert(sig == mant@.subrange(z as int, m as int));
    let sl = m - z;
    proof {
        reveal_strlit("0");
        reveal_strlit("-");
    }
    if sl == 0 {
        assert(is_integral_numeral(tv));
        return Some(String::from_str("0"));
    }
    let fl = f1 - f0;
    assert(m <= n);
    let cap: u128 = n as u128 + 400;
    // the number of whole digits
    let l: i128 = match exp_val {
        None => {
            assert(int_len(tv) < 1 || int_len(tv) > max_whole_digits());
            return None;
        },
        Some(e) => {
            if exp_neg {
                sl as i128 - e as i128 - fl as i128
            } else {
                sl as i128 + e as i128 - fl as i128
            }
        },
    };
    assert(l == int_len(tv));
    if l < 1 || l > 308 {
        return None;
    }
    let lu = l as usize;
    if lu < sl {
        if !zeros_from(&mant, z + lu) {
            assert(sig.skip(lu as int) =~= mant@.subrange(z + lu, m as int));
            return None;
        }
        assert(sig.skip(lu as int) =~= mant@.subrange(z + lu, m as int));
    }
    assert(is_integral_numeral(tv));
    proof {
        assert forall|q: int| 0 <= q < mant@.len() implies is_digit(#[trigger] mant@[q]) by {
            if q < i1 - b {
                assert(mant@[q] == tv[b + q]);
            } else {
                assert(mant@[q] == tv[f0 + q - (i1 - b)]);
            }
        }
    }
    let neg = b == 1 && t.get_char(0) == '-';
    let out = write_whole(neg, &mant, z, lu);
    assert(out@ == integer_text(tv));
    Some(out)
}

fn is_digit_char(c: char) -> (r: bool)
    ensures
        r == is_digit(c),
{
    '0' <= c && c <= '9'
}

/// Canonical form of a raw cell value: surrounding whitespace is removed; a value that
/// stands for "no value" (empty, `#N/A`, `null`, `none`, `nan`, `n.a`, `na`, in any case)
/// becomes empty; a decimal numeral, with or without exponent, whose exact value is a
/// whole number of at most 308 digits becomes that number written out, without point or
/// exponent; anything else is kept as trimmed.
pub fn clean_value(val: &str) -> (r: String)
    ensures
        r@ == normalized(val@),
{
    let (a, b) = trim_bounds(val);
    let t = val.substring_char(a, b);
    if is_null_text(t) {
        return String::new();
    }
    match whole_number(t) {
        Some(w) => w,
        None => String::from_str(t),
    }
}


proof fn lemma_trim_start_shape(s: Seq<char>)
    ensures
        trim_start(s).len() <= s.len(),
        trim_start(s) == s.subrange(s.len() - trim_start(s).len(), s.len() as int),
        trim_start(s).len() > 0 ==> !is_ws(trim_start(s)[0]),
    decreases s.len(),
{
    if s.len() > 0 && is_ws(s[0]) {
        lemma_trim_start_shape(s.drop_first());
        assert(s.drop_first().subrange(
            s.drop_first().len() - trim_start(s).len(),
            s.drop_first().len() as int,
        ) =~= s.subrange(s.len() - trim_start(s).len(), s.len() as int));
    } else {
        assert(s.subrange(0, s.len() as int) =~= s);
    }
}

proof fn lemma_trim_end_shape(s: Seq<char>)
    ensures
        trim_end(s).len() <= s.len(),
        trim_end(s) == s.subrange(0, trim_end(s).len() as int),
        trim_end(s).len() > 0 ==> !is_ws(trim_end(s).last()),
    decreases s.len(),
{
    if s.len() > 0 && is_ws(s.last()) {
        lemma_trim_end_shape(s.drop_last());
        assert(s.drop_last().subrange(0, trim_end(s).len() as int) =~= s.subrange(
            0,
            trim_end(s).len() as int,
        ));
    } else {
        assert(s.subrange(0, s.len() as int) =~= s);
    }
}

proof fn lemma_trim_fixed(s: Seq<char>)
    requires
        s.len() == 0 || (!is_ws(s[0]) && !is_ws(s.last())),
    ensures
        trim(s) == s,
{
}

/// Trimming a trimmed value changes nothing.
pub proof fn lemma_trim_idempotent(s: Seq<char>)
    ensures
        trim(trim(s)) == trim(s),
{
    lemma_trim_start_shape(s);
    lemma_trim_end_shape(trim_start(s));
    let t = trim(s);
    if t.len() > 0 {
        assert(t[0] == trim_start(s)[0]);
    }
    lemma_trim_fixed(t);
}

proof fn lemma_digit_run(s: Seq<char>)
    ensures
        digit_run(s) <= s.len(),
        forall|k: int| 0 <= k < digit_run(s) ==> is_digit(#[trigger] s[k]),
        (forall|k: int| 0 <= k < s.len() ==> is_digit(#[trigger] s[k])) ==> digit_run(s)
            == s.len(),
    decreases s.len(),
{
    if s.len() > 0 {
        lemma_digit_run(s.drop_first());
        assert forall|k: int| 0 <= k < digit_run(s) implies is_digit(#[trigger] s[k]) by {
            if k > 0 {
                assert(s[k] == s.drop_first()[k - 1]);
            }
        }
        if forall|k: int| 0 <= k < s.len() ==> is_digit(#[trigger] s[k]) {
            assert forall|k: int| 0 <= k < s.drop_first().len() implies is_digit(
                #[trigger] s.drop_first()[k],
            ) by {
                assert(s.drop_first()[k] == s[k + 1]);
            }
        }
    }
}

proof fn lemma_strip_zeros(s: Seq<char>)
    ensures
        strip_zeros(s).len() <= s.len(),
        strip_zeros(s) == s.subrange(s.len() - strip_zeros(s).len(), s.len() as int),
        strip_zeros(s).len() > 0 ==> strip_zeros(s)[0] != '0',
    decreases s.len(),
{
    if s.len() > 0 && s[0] == '0' {
        lemma_strip_zeros(s.drop_first());
        assert(s.drop_first().subrange(
            s.drop_first().len() - strip_zeros(s).len(),
            s.drop_first().len() as int,
        ) =~= s.subrange(s.len() - strip_zeros(s).len(), s.len() as int));
    } else {
        assert(s.subrange(0, s.len() as int) =~= s);
    }
}

/// A value made only of digits (after an optional minus sign) that starts with a digit
/// or a sign is no null word.
proof fn lemma_not_null_word(t: Seq<char>)
    requires
        t.len() > 0,
        t[0] == '-' || is_digit(t[0]),
    ensures
        !is_null_token(t),
{
    assert forall|k: int| 0 <= k < null_words().len() implies !eq_ignore_case(
        t,
        #[trigger] null_words()[k],
    ) by {
        let w = null_words()[k];
        assert(w[0] == '#' || w[0] == 'n');
        if eq_ignore_case(t, w) {
            assert(t[0] == w[0] || ('a' <= w[0] && w[0] <= 'z' && t[0] as u32 + 32 == w[0] as u32));
        }
    }
}

/// A minus sign or none, then digits without a leading zero: a numeral that is its own
/// integer text.
proof fn lemma_plain_integer(out: Seq<char>, w: Seq<char>, neg: bool)
    requires
        1 <= w.len() <= max_whole_digits(),
        w[0] != '0',
        forall|k: int| 0 <= k < w.len() ==> is_digit(#[trigger] w[k]),
        out == (if neg { seq!['-'] + w } else { w }),
    ensures
        is_integral_numeral(out),
        integer_text(out) == out,
{
    let b: int = if neg { 1 } else { 0 };
    assert(sign_len(out) == b);
    assert(out.subrange(b, out.len() as int) =~= w);
    lemma_digit_run(w);
    assert(int_end(out) == out.len());
    assert(frac_start(out) == out.len());
    assert(frac_end(out) == out.len());
    assert(!has_exponent(out));
    assert(out.subrange(out.len() as int, out.len() as int) =~= Seq::<char>::empty());
    assert(mantissa(out) =~= w);
    assert(significand(out) == w);
    assert(exponent(out) == 0);
    assert(int_len(out) == w.len());
    assert(whole_digits(out) =~= w);
}

/// The text of a whole number is its own canonical form.
proof fn lemma_integer_text_fixed(t: Seq<char>)
    requires
        is_integral_numeral(t),
    ensures
        normalized(integer_text(t)) == integer_text(t),
{
    let out = integer_text(t);
    let sig = significand(t);
    if sig.len() == 0 {
        let z = seq!['0'];
        assert(sign_len(z) == 0);
        assert(z.subrange(0, 1) =~= z);
        lemma_digit_run(z);
        assert(int_end(z) == 1);
        assert(frac_end(z) == 1);
        assert(!has_exponent(z));
        assert(z.subrange(1, 1) =~= Seq::<char>::empty());
        assert(mantissa(z) =~= z);
        assert(z.drop_first() =~= Seq::<char>::empty());
        assert(strip_zeros(z) == strip_zeros(Seq::<char>::empty()));
        assert(significand(z).len() == 0);
        assert(is_integral_numeral(z));
    } else {
        let b = sign_len(t);
        let ie = int_end(t);
        let fs = frac_start(t);
        let fe = frac_end(t);
        lemma_digit_run(t.subrange(b, t.len() as int));
        lemma_digit_run(t.subrange(fs, t.len() as int));
        let mant = mantissa(t);
        assert forall|q: int| 0 <= q < mant.len() implies is_digit(#[trigger] mant[q]) by {
            if q < ie - b {
                assert(mant[q] == t.subrange(b, t.len() as int)[q]);
            } else {
                assert(mant[q] == t.subrange(fs, t.len() as int)[q - (ie - b)]);
            }
        }
        lemma_strip_zeros(mant);
        assert forall|q: int| 0 <= q < sig.len() implies is_digit(#[trigger] sig[q]) by {
            assert(sig[q] == mant[mant.len() - sig.len() + q]);
        }
        let w = whole_digits(t);
        let l = int_len(t);
        assert(w.len() == l);
        assert(w[0] == sig[0]);
        assert forall|q: int| 0 <= q < w.len() implies is_digit(#[trigger] w[q]) by {
            if q < sig.len() {
                assert(w[q] == sig[q]);
            }
        }
        lemma_plain_integer(out, w, t[0] == '-');
    }
    lemma_not_null_word(out);
    lemma_trim_fixed(out);
}

/// Normalizing is idempotent: a normalized value is its own canonical form.
pub proof fn lemma_clean_value_idempotent(s: Seq<char>)
    ensures
        normalized(normalized(s)) == normalized(s),
{
    let t = trim(s);
    if is_null_token(t) {
        assert(normalized(s).len() == 0);
        assert(trim(Seq::<char>::empty()) =~= Seq::<char>::empty());
    } else if is_integral_numeral(t) {
        lemma_integer_text_fixed(t);
    } else {
        lemma_trim_idempotent(s);
    }
}


/// A value padded with whitespace normalizes as its trimmed form does.
pub proof fn lemma_clean_value_ignores_padding(s: Seq<char>)
    ensures
        normalized(trim(s)) == normalized(s),
{
    lemma_trim_idempotent(s);
}

/// Every spelling of a null word, in any case and with any padding, normalizes to the
/// empty value.
pub proof fn lemma_null_words_clear(s: Seq<char>, k: int)
    requires
        0 <= k < null_words().len(),
        eq_ignore_case(trim(s), null_words()[k]),
    ensures
        normalized(s) == Seq::<char>::empty(),
{
}

} // verus!
