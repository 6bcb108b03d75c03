use vstd::prelude::*;

verus! {

/// Fixed-point scale of coordinates and altitudes: a stored value of `SCALE`
/// is one degree (or one metre).
pub const SCALE: u64 = 1_000_000_000;

/// The degree sign, which may follow either number of a coordinate pair.
pub const DEGREE_SIGN: char = '\u{B0}';

/// Characters that `str::trim` removes: those with Unicode's White_Space
/// property.
pub open spec fn is_white_space(c: char) -> bool {
    ||| ('\u{9}' as u32 <= c as u32 <= '\u{D}' as u32)
    ||| c == ' '
    ||| c == '\u{85}'
    ||| c == '\u{A0}'
    ||| c == '\u{1680}'
    ||| ('\u{2000}' as u32 <= c as u32 <= '\u{200A}' as u32)
    ||| c == '\u{2028}'
    ||| c == '\u{2029}'
    ||| c == '\u{202F}'
    ||| c == '\u{205F}'
    ||| c == '\u{3000}'
}

fn white_space(c: char) -> (r: bool)
    ensures
        r == is_white_space(c),
{
    let u = c as u32;
    (0x9 <= u && u <= 0xD) || u == 0x20 || u == 0x85 || u == 0xA0 || u == 0x1680 || (0x2000 <= u
        && u <= 0x200A) || u == 0x2028 || u == 0x2029 || u == 0x202F || u == 0x205F || u == 0x3000
}

/// `s` with every degree sign taken out.
pub open spec fn without_degree_signs(s: Seq<char>) -> Seq<char>
    decreases s.len(),
{
    if s.len() == 0 {
        s
    } else if s.last() == DEGREE_SIGN {
        without_degree_signs(s.drop_last())
    } else {
        without_degree_signs(s.drop_last()).push(s.last())
    }
}

/// `s` without its leading white space.
pub open spec fn trim_start(s: Seq<char>) -> Seq<char>
    decreases s.len(),
{
    if s.len() > 0 && is_white_space(s[0]) {
        trim_start(s.drop_first())
    } else {
        s
    }
}

/// `s` without its trailing white space.
pub open spec fn trim_end(s: Seq<char>) -> Seq<char>
    decreases s.len(),
{
    if s.len() > 0 && is_white_space(s.last()) {
        trim_end(s.drop_last())
    } else {
        s
    }
}

/// `s` without leading and trailing white space.
pub open spec fn trim(s: Seq<char>) -> Seq<char> {
    trim_end(trim_start(s))
}

/// `10` to the power `n`.
pub open spec fn pow10(n: nat) -> nat
    decreases n,
{
    if n == 0 {
        1
    } else {
        10 * pow10((n - 1) as nat)
    }
}

pub open spec fn is_digit(c: char) -> bool {
    '0' as int <= c as int <= '9' as int
}

pub open spec fn all_digits(s: Seq<char>) -> bool {
    forall|i: int| 0 <= i < s.len() ==> is_digit(#[trigger] s[i])
}

/// The number that a string of decimal digits denotes.
pub open spec fn digits_value(s: Seq<char>) -> int
    decreases s.len(),
{
    if s.len() == 0 {
        0
    } else {
        digits_value(s.drop_last()) * 10 + (s.last() as int - '0' as int)
    }
}

/// `s` is a string of digits with a decimal point at `k`, and holds at least
/// one digit.
pub open spec fn point_at(s: Seq<char>, k: int) -> bool {
    &&& 0 <= k < s.len()
    &&& s[k] == '.'
    &&& s.len() >= 2
    &&& all_digits(s.take(k))
    &&& all_digits(s.skip(k + 1))
}

/// A decimal numeral without exponent (digits, with at most one decimal
/// point, and at least one digit): its digits read as one number, and how
/// many of them follow the point.
pub open spec fn mantissa(s: Seq<char>) -> Option<(int, int)> {
    if s.len() > 0 && all_digits(s) {
        Some((digits_value(s), 0))
    } else if exists|k: int| point_at(s, k) {
        let k = choose|k: int| point_at(s, k);
        Some((digits_value(s.take(k) + s.skip(k + 1)), s.len() - k - 1))
    } else {
        None
    }
}

pub open spec fn is_exponent_mark(c: char) -> bool {
    c == 'e' || c == 'E'
}

/// Where the exponent of a numeral begins: the first `e` or `E` of `s`, or
/// its end.
pub open spec fn exponent_mark(s: Seq<char>) -> int
    decreases s.len(),
{
    if s.len() == 0 {
        0
    } else if is_exponent_mark(s[0]) {
        0
    } else {
        1 + exponent_mark(s.drop_first())
    }
}

/// The value of an exponent: digits, with an optional sign.
pub open spec fn exponent_value(s: Seq<char>) -> Option<int> {
    let negative = s.len() > 0 && s[0] == '-';
    let digits = if s.len() > 0 && (s[0] == '-' || s[0] == '+') {
        s.drop_first()
    } else {
        s
    };
    if digits.len() > 0 && all_digits(digits) {
        Some(
            if negative {
                -digits_value(digits)
            } else {
                digits_value(digits)
            },
        )
    } else {
        None
    }
}

/// `n` times ten to the power `p`, cut to a whole number.
pub open spec fn shifted(n: int, p: int) -> int {
    if p >= 0 {
        n * pow10(p as nat)
    } else {
        n / (pow10((-p) as nat) as int)
    }
}

/// The value in billionths, cut toward zero, of an unsigned decimal numeral
/// with an optional exponent, such as `54.79`, `.5`, `7.` or `1.5e-3`.
pub open spec fn magnitude(s: Seq<char>) -> Option<int> {
    let k = exponent_mark(s);
    match mantissa(s.take(k)) {
        None => None,
        Some((n, f)) => if k == s.len() {
            Some(shifted(n, 9 - f))
        } else {
            match exponent_value(s.skip(k + 1)) {
                Some(x) => Some(shifted(n, 9 - f + x)),
                None => None,
            }
        },
    }
}

/// The value in billionths of a decimal number with an optional sign, when its
/// magnitude fits in an `i64`.
pub open spec fn decimal_value(s: Seq<char>) -> Option<i64> {
    let negative = s.len() > 0 && s[0] == '-';
    let body = if s.len() > 0 && (s[0] == '-' || s[0] == '+') {
        s.drop_first()
    } else {
        s
    };
    if magnitude(body) is Some && magnitude(body)->0 <= i64::MAX {
        let m = magnitude(body)->0;
        Some((if negative {
            -m
        } else {
            m
        }) as i64)
    } else {
        None
    }
}

/// `t` holds exactly one comma, at `k`.
pub open spec fn sole_comma_at(t: Seq<char>, k: int) -> bool {
    &&& 0 <= k < t.len()
    &&& t[k] == ','
    &&& forall|j: int| 0 <= j < t.len() && j != k ==> t[j] != ','
}

/// Latitude and longitude, in billionths of a degree, from text such as
/// `"54.7973628°, -1.5921431°"`: two decimal numbers, each perhaps with a
/// sign and an exponent, separated by the one comma, with white space around
/// either and degree signs anywhere. The words `inf` and `nan`, which name no
/// place, are not numbers here.
pub open spec fn lat_lng_of_text(s: Seq<char>) -> Option<(i64, i64)> {
    let t = without_degree_signs(s);
    if exists|k: int| sole_comma_at(t, k) {
        let k = choose|k: int| sole_comma_at(t, k);
        let lat = decimal_value(trim(t.take(k)));
        let lng = decimal_value(trim(t.skip(k + 1)));
        if lat is Some && lng is Some {
            Some((lat->0, lng->0))
        } else {
            None
        }
    } else {
        None
    }
}

proof fn lemma_pow10_adds(a: nat, b: nat)
    ensures
        pow10(a + b) == pow10(a) * pow10(b),
    decreases a,
{
    if a > 0 {
        let a0 = (a - 1) as nat;
        lemma_pow10_adds(a0, b);
        assert((a + b) as nat - 1 == a0 + b);
        assert(pow10(a + b) == 10 * pow10(a0 + b));
        assert(pow10(a) == 10 * pow10(a0));
        assert(10 * (pow10(a0) * pow10(b)) == (10 * pow10(a0)) * pow10(b)) by (nonlinear_arith);
        assert(pow10(a + b) == pow10(a) * pow10(b));
    } else {
        assert(a + b == b);
        assert(pow10(a) == 1);
        assert(pow10(a + b) == pow10(a) * pow10(b));
    }
}

proof fn lemma_pow10_positive(n: nat)
    ensures
        pow10(n) >= 1,
    decreases n,
{
    if n > 0 {
        lemma_pow10_positive((n - 1) as nat);
    }
}

proof fn lemma_digits_bound(s: Seq<char>)
    requires
        all_digits(s),
    ensures
        0 <= digits_value(s) < pow10(s.len()),
    decreases s.len(),
{
    if s.len() > 0 {
        let p = s.drop_last();
        assert(all_digits(p)) by {
            assert forall|i: int| 0 <= i < p.len() implies is_digit(#[trigger] p[i]) by {
                assert(p[i] == s[i]);
            }
        }
        lemma_digits_bound(p);
        assert(is_digit(s[s.len() - 1]));
        let d = s.last() as int - '0' as int;
        let v = digits_value(p);
        let q = pow10(p.len()) as int;
        assert(pow10(s.len()) == 10 * q);
        assert(digits_value(s) == v * 10 + d);
        assert(0 <= v * 10 + d < q * 10) by (nonlinear_arith)
            requires
                0 <= v < q,
                0 <= d <= 9,
        ;
    }
}

proof fn lemma_digits_concat(a: Seq<char>, b: Seq<char>)
    ensures
        digits_value(a + b) == digits_value(a) * pow10(b.len()) + digits_value(b),
    decreases b.len(),
{
    if b.len() == 0 {
        assert(a + b == a);
        assert(pow10(b.len()) == 1);
        assert(digits_value(a) * 1 == digits_value(a));
    } else {
        let b0 = b.drop_last();
        assert((a + b).drop_last() == a + b0);
        assert((a + b).last() == b.last());
        lemma_digits_concat(a, b0);
        let x = digits_value(a);
        let y = digits_value(b0);
        let p0 = pow10(b0.len()) as int;
        let d = b.last() as int - '0' as int;
        assert(pow10(b.len()) == 10 * p0);
        assert(digits_value(b) == y * 10 + d);
        assert(digits_value(a + b) == digits_value(a + b0) * 10 + d);
        assert(digits_value(a + b0) == x * p0 + y);
        assert((x * p0 + y) * 10 + d == x * (10 * p0) + (y * 10 + d)) by (nonlinear_arith);
        assert(digits_value(a + b) == x * pow10(b.len()) + digits_value(b));
    }
}

/// Exponents beyond this size are read only as far as their sign: they move
/// every digit of a numeral out of reach of an `i64`.
pub const EXPONENT_CAP: i128 = 100_000_000_000_000_000_000;

/// `x`, or one past `EXPONENT_CAP` (with its sign) where it is larger.
pub open spec fn clamp_exponent(x: int) -> int {
    if x > EXPONENT_CAP {
        EXPONENT_CAP + 1
    } else if x < -EXPONENT_CAP {
        -(EXPONENT_CAP + 1)
    } else {
        x
    }
}

fn digit(c: char) -> (r: bool)
    ensures
        r == is_digit(c),
{
    let u = c as u32;
    48 <= u && u <= 57
}

fn digit_value(c: char) -> (r: u64)
    requires
        is_digit(c),
    ensures
        r == c as int - '0' as int,
        r <= 9,
{
    (c as u32 - 48) as u64
}

proof fn lemma_pow10_monotone(a: nat, b: nat)
    requires
        a <= b,
    ensures
        pow10(a) <= pow10(b),
{
    lemma_pow10_adds(a, (b - a) as nat);
    lemma_pow10_positive((b - a) as nat);
    assert(pow10(a) * 1 <= pow10(a) * pow10((b - a) as nat)) by (nonlinear_arith)
        requires
            pow10((b - a) as nat) >= 1,
    ;
    assert(a + (b - a) as nat == b);
}

fn pow10_exec(n: u32) -> (r: u64)
    requires
        n <= 18,
    ensures
        r == pow10(n as nat),
        r <= 1_000_000_000_000_000_000,
{
    let mut r: u64 = 1;
    let mut i: u32 = 0;
    while i < n
        invariant
            i <= n <= 18,
            r == pow10(i as nat),
        decreases n - i,
    {
        proof {
            lemma_pow10_monotone(i as nat, 17);
            reveal_with_fuel(pow10, 19);
            assert(pow10(17) == 100_000_000_000_000_000);
        }
        assert(pow10((i + 1) as nat) == 10 * pow10(i as nat));
        r = r * 10;
        i += 1;
    }
    proof {
        lemma_pow10_monotone(n as nat, 18);
        reveal_with_fuel(pow10, 19);
        assert(pow10(18) == 1_000_000_000_000_000_000);
    }
    r
}

proof fn lemma_digits_prefix(g: Seq<char>, i: int, j: int)
    requires
        all_digits(g),
        0 <= i <= j <= g.len(),
    ensures
        digits_value(g.take(i)) <= digits_value(g.take(j)),
{
    let x = g.take(i);
    let y = g.subrange(i, j);
    assert(g.take(j) == x + y);
    lemma_digits_concat(x, y);
    assert(all_digits(y)) by {
        assert forall|k: int| 0 <= k < y.len() implies is_digit(#[trigger] y[k]) by {
            assert(y[k] == g[i + k]);
        }
    }
    assert(all_digits(x)) by {
        assert forall|k: int| 0 <= k < x.len() implies is_digit(#[trigger] x[k]) by {
            assert(x[k] == g[k]);
        }
    }
    lemma_digits_bound(x);
    lemma_digits_bound(y);
    lemma_pow10_positive(y.len());
    assert(digits_value(x) * 1 <= digits_value(x) * pow10(y.len())) by (nonlinear_arith)
        requires
            digits_value(x) >= 0,
            pow10(y.len()) >= 1,
    ;
}

/// Dropping the last `e` digits is dividing by `10^e`.
proof fn lemma_shift_down(g: Seq<char>, e: nat)
    requires
        all_digits(g),
    ensures
        e >= g.len() ==> digits_value(g) / (pow10(e) as int) == 0,
        e < g.len() ==> digits_value(g) / (pow10(e) as int) == digits_value(
            g.take(g.len() - e),
        ),
{
    lemma_pow10_positive(e);
    lemma_digits_bound(g);
    if e >= g.len() {
        lemma_pow10_monotone(g.len(), e);
        vstd::arithmetic::div_mod::lemma_fundamental_div_mod_converse(
            digits_value(g),
            pow10(e) as int,
            0,
            digits_value(g),
        );
    } else {
        let keep = g.len() - e;
        let head = g.take(keep);
        let tail = g.skip(keep);
        assert(g == head + tail);
        lemma_digits_concat(head, tail);
        assert(all_digits(tail)) by {
            assert forall|i: int| 0 <= i < tail.len() implies is_digit(#[trigger] tail[i]) by {
                assert(tail[i] == g[i + keep]);
            }
        }
        lemma_digits_bound(tail);
        assert(tail.len() == e);
        vstd::arithmetic::div_mod::lemma_fundamental_div_mod_converse(
            digits_value(g),
            pow10(e) as int,
            digits_value(head),
            digits_value(tail),
        );
    }
}

/// Far enough out, the exact size of a shift no longer matters: every digit
/// is out of reach of an `i64`, or all of them are cut off.
proof fn lemma_shift_far(g: Seq<char>, p: int, q: int)
    requires
        all_digits(g),
        (p >= 19 && q >= 19) || (p <= -g.len() && q <= -g.len()),
    ensures
        (shifted(digits_value(g), p) <= i64::MAX) == (shifted(digits_value(g), q) <= i64::MAX),
        shifted(digits_value(g), p) <= i64::MAX ==> shifted(digits_value(g), p) == shifted(
            digits_value(g),
            q,
        ),
{
    let n = digits_value(g);
    lemma_digits_bound(g);
    if p >= 19 {
        reveal_with_fuel(pow10, 20);
        assert(pow10(19) == 10_000_000_000_000_000_000);
        lemma_pow10_monotone(19, p as nat);
        lemma_pow10_monotone(19, q as nat);
        if n > 0 {
            assert(n * pow10(p as nat) >= pow10(p as nat)) by (nonlinear_arith)
                requires
                    n >= 1,
            ;
            assert(n * pow10(q as nat) >= pow10(q as nat)) by (nonlinear_arith)
                requires
                    n >= 1,
            ;
        } else {
            assert(n == 0);
        }
    } else {
        lemma_shift_down(g, (-p) as nat);
        lemma_shift_down(g, (-q) as nat);
    }
}

/// `shifted(digits_value(g), p)` where it fits in an `i64`.
fn shift_digits(g: &Vec<char>, p: i128) -> (r: Option<u64>)
    requires
        all_digits(g@),
        -0x1_0000_0000_0000_0000_0000_0000 <= p <= 0x1_0000_0000_0000_0000_0000_0000,
    ensures
        r is Some <==> shifted(digits_value(g@), p as int) <= i64::MAX,
        r is Some ==> r->0 == shifted(digits_value(g@), p as int),
{
    let len = g.len();
    proof {
        lemma_digits_bound(g@);
        assert(g@.take(len as int) == g@);
    }
    if p >= 0 {
        let n = match digits_capped(g, len) {
            None => {
                proof {
                    lemma_pow10_positive(p as nat);
                    assert(digits_value(g@) * pow10(p as nat) >= digits_value(g@))
                        by (nonlinear_arith)
                        requires
                            digits_value(g@) >= 0,
                            pow10(p as nat) >= 1,
                    ;
                }
                return None;
            },
            Some(n) => n,
        };
        if n == 0 {
            assert(digits_value(g@) == 0);
            assert(shifted(digits_value(g@), p as int) == 0 * pow10(p as nat));
            return Some(0);
        }
        if p > 18 {
            proof {
                lemma_shift_far(g@, p as int, p as int);
                reveal_with_fuel(pow10, 20);
                lemma_pow10_monotone(19, p as nat);
                assert(n * pow10(p as nat) >= pow10(p as nat)) by (nonlinear_arith)
                    requires
                        n >= 1,
                ;
            }
            return None;
        }
        let scale = pow10_exec(p as u32);
        assert((n as u128) * (scale as u128) <= 0x8000_0000_0000_0000 * 1_000_000_000_000_000_000)
            by (nonlinear_arith)
            requires
                n <= i64::MAX,
                scale <= 1_000_000_000_000_000_000u64,
        ;
        let m: u128 = (n as u128) * (scale as u128);
        if m > i64::MAX as u128 {
            None
        } else {
            Some(m as u64)
        }
    } else {
        let keep: i128 = len as i128 + p;
        proof {
            lemma_shift_down(g@, (-p) as nat);
        }
        if keep <= 0 {
            Some(0)
        } else {
            digits_capped(g, keep as usize)
        }
    }
}

/// The number that the first `len` digits of `g` denote, where it fits in
/// an `i64`.
fn digits_capped(g: &Vec<char>, len: usize) -> (r: Option<u64>)
    requires
        all_digits(g@),
        len <= g@.len(),
    ensures
        r is Some <==> digits_value(g@.take(len as int)) <= i64::MAX,
        r is Some ==> r->0 == digits_value(g@.take(len as int)),
{
    let mut v: u64 = 0;
    let mut i: usize = 0;
    assert(g@.take(0) == Seq::<char>::empty());
    while i < len
        invariant
            i <= len <= g@.len(),
            all_digits(g@),
            v == digits_value(g@.take(i as int)),
            v <= i64::MAX,
        decreases len - i,
    {
        assert(g@.take(i + 1).drop_last() == g@.take(i as int));
        assert(is_digit(g@[i as int]));
        let d = digit_value(g[i]);
        let w: u128 = (v as u128) * 10 + (d as u128);
        if w > i64::MAX as u128 {
            proof {
                lemma_digits_prefix(g@, i + 1, len as int);
            }
            return None;
        }
        v = w as u64;
        i += 1;
    }
    Some(v)
}

proof fn lemma_point_unique(s: Seq<char>, k: int)
    requires
        point_at(s, k),
    ensures
        forall|j: int| point_at(s, j) ==> j == k,
        !all_digits(s),
        mantissa(s) == Some((digits_value(s.take(k) + s.skip(k + 1)), s.len() - k - 1)),
{
    assert forall|j: int| point_at(s, j) implies j == k by {
        if j < k {
            assert(s.take(k)[j] == s[j]);
        } else if j > k {
            assert(s.skip(k + 1)[j - k - 1] == s[j]);
        }
    }
    assert(!is_digit(s[k]));
}

/// A character that is neither a digit nor a point, after digits only.
proof fn lemma_stray_character(s: Seq<char>, i: int)
    requires
        0 <= i < s.len(),
        all_digits(s.take(i)),
        !is_digit(s[i]),
        s[i] != '.',
    ensures
        mantissa(s) is None,
{
    assert(!is_digit(s[i]));
    assert forall|k: int| !point_at(s, k) by {
        if point_at(s, k) {
            if k < i {
                assert(s.take(i)[k] == s[k]);
            } else if k > i {
                assert(s.take(k)[i] == s[i]);
            }
        }
    }
}

/// A character that is not a digit, after digits, a point and digits.
proof fn lemma_stray_character_after_point(s: Seq<char>, k: int, i: int)
    requires
        0 <= k < i < s.len(),
        s[k] == '.',
        all_digits(s.take(k)),
        all_digits(s.subrange(k + 1, i)),
        !is_digit(s[i]),
    ensures
        mantissa(s) is None,
{
    assert(!is_digit(s[k]));
    assert forall|j: int| !point_at(s, j) by {
        if point_at(s, j) {
            if j < k {
                assert(s.take(k)[j] == s[j]);
            } else if j > k {
                assert(s.take(j)[k] == s[k]);
            } else {
                assert(s.skip(k + 1)[i - k - 1] == s[i]);
            }
        }
    }
}

proof fn lemma_digits_extend(s: Seq<char>, a: int, i: int)
    requires
        0 <= a <= i < s.len(),
        all_digits(s.subrange(a, i)),
        is_digit(s[i]),
    ensures
        all_digits(s.subrange(a, i + 1)),
        s.subrange(a, i + 1).drop_last() == s.subrange(a, i),
        digits_value(s.subrange(a, i + 1)) == digits_value(s.subrange(a, i)) * 10 + (s[i] as int
            - '0' as int),
{
    assert(s.subrange(a, i + 1).drop_last() == s.subrange(a, i));
    assert forall|j: int| 0 <= j < i + 1 - a implies is_digit(#[trigger] s.subrange(a, i + 1)[j]) by {
        if j < i - a {
            assert(s.subrange(a, i + 1)[j] == s.subrange(a, i)[j]);
        }
    }
}

/// The position of the exponent mark of `t[a..b]`, as an index into `t`.
fn find_exponent_mark(t: &Vec<char>, a: usize, b: usize) -> (m: usize)
    requires
        a <= b <= t@.len(),
    ensures
        a <= m <= b,
        m - a == exponent_mark(t@.subrange(a as int, b as int)),
{
    let mut i = a;
    while i < b && !(t[i] == 'e' || t[i] == 'E')
        invariant
            a <= i <= b <= t@.len(),
            exponent_mark(t@.subrange(a as int, b as int)) == (i - a) + exponent_mark(
                t@.subrange(i as int, b as int),
            ),
        decreases b - i,
    {
        assert(t@.subrange(i as int, b as int).drop_first() == t@.subrange(i + 1, b as int));
        i += 1;
    }
    i
}

/// The digits of the numeral `t[a..m]` without its point, and how many of
/// them follow the point.
fn parse_mantissa(t: &Vec<char>, a: usize, m: usize) -> (r: Option<(Vec<char>, usize)>)
    requires
        a <= m <= t@.len(),
    ensures
        r is Some <==> mantissa(t@.subrange(a as int, m as int)) is Some,
        match r {
            Some((g, f)) => all_digits(g@) && f <= g@.len() && mantissa(
                t@.subrange(a as int, m as int),
            ) == Some((digits_value(g@), f as int)),
            None => true,
        },
{
    let ghost s = t@.subrange(a as int, m as int);
    let mut g: Vec<char> = Vec::new();
    let mut i = a;
    while i < m && digit(t[i])
        invariant
            a <= i <= m <= t@.len(),
            s == t@.subrange(a as int, m as int),
            g@ == t@.subrange(a as int, i as int),
            all_digits(g@),
        decreases m - i,
    {
        proof {
            lemma_digits_extend(t@, a as int, i as int);
        }
        g.push(t[i]);
        i += 1;
    }
    if i == m {
        if i == a {
            return None;
        }
        assert(s == g@);
        return Some((g, 0));
    }
    assert(s.take(i - a) == t@.subrange(a as int, i as int));
    if t[i] != '.' {
        proof {
            lemma_stray_character(s, i - a);
        }
        return None;
    }
    let k = i;
    let ghost whole = g@;
    i += 1;
    while i < m && digit(t[i])
        invariant
            k < i <= m <= t@.len(),
            s == t@.subrange(a as int, m as int),
            all_digits(whole),
            g@ == whole + t@.subrange(k + 1, i as int),
            all_digits(t@.subrange(k + 1, i as int)),
            g@.len() == (k - a) + (i - k - 1),
        decreases m - i,
    {
        proof {
            lemma_digits_extend(t@, k + 1, i as int);
            assert(whole + t@.subrange(k + 1, i + 1) == (whole + t@.subrange(k + 1, i as int)).push(
                t@[i as int],
            ));
        }
        g.push(t[i]);
        i += 1;
    }
    if i < m {
        proof {
            assert(s.subrange(k - a + 1, i - a) == t@.subrange(k + 1, i as int));
            lemma_stray_character_after_point(s, k - a, i - a);
        }
        return None;
    }
    if m - a < 2 {
        return None;
    }
    proof {
        assert(s.skip(k - a + 1) == t@.subrange(k + 1, m as int));
        assert(point_at(s, k - a));
        lemma_point_unique(s, k - a);
        assert(g@ == s.take(k - a) + s.skip(k - a + 1));
        assert forall|j: int| 0 <= j < g@.len() implies is_digit(#[trigger] g@[j]) by {
            if j < whole.len() {
                assert(g@[j] == whole[j]);
            } else {
                assert(g@[j] == t@.subrange(k + 1, i as int)[j - whole.len()]);
            }
        }
    }
    let f = m - k - 1;
    Some((g, f))
}

/// The exponent `t[a..b]`, read as far as `clamp_exponent` needs.
fn parse_exponent(t: &Vec<char>, a: usize, b: usize) -> (r: Option<i128>)
    requires
        a <= b <= t@.len(),
    ensures
        r is Some <==> exponent_value(t@.subrange(a as int, b as int)) is Some,
        r is Some ==> r->0 == clamp_exponent(exponent_value(t@.subrange(a as int, b as int))->0),
{
    let ghost s = t@.subrange(a as int, b as int);
    let negative = a < b && t[a] == '-';
    let start = if a < b && (t[a] == '-' || t[a] == '+') {
        a + 1
    } else {
        a
    };
    let ghost digits = t@.subrange(start as int, b as int);
    assert(digits == (if s.len() > 0 && (s[0] == '-' || s[0] == '+') {
        s.drop_first()
    } else {
        s
    }));
    if start == b {
        return None;
    }
    let mut v: i128 = 0;
    let mut big = false;
    let mut i = start;
    while i < b
        invariant
            start <= i <= b <= t@.len(),
            digits == t@.subrange(start as int, b as int),
            s == t@.subrange(a as int, b as int),
            negative == (s.len() > 0 && s[0] == '-'),
            digits == (if s.len() > 0 && (s[0] == '-' || s[0] == '+') {
                s.drop_first()
            } else {
                s
            }),
            all_digits(t@.subrange(start as int, i as int)),
            !big ==> v == digits_value(t@.subrange(start as int, i as int)) && 0 <= v
                <= EXPONENT_CAP,
            big ==> digits_value(t@.subrange(start as int, i as int)) > EXPONENT_CAP,
        decreases b - i,
    {
        if !digit(t[i]) {
            assert(!all_digits(digits)) by {
                assert(digits[i - start] == t@[i as int]);
            }
            return None;
        }
        let d = digit_value(t[i]);
        proof {
            lemma_digits_bound(t@.subrange(start as int, i as int));
            lemma_digits_extend(t@, start as int, i as int);
        }
        if !big {
            let w = v * 10 + d as i128;
            if w > EXPONENT_CAP {
                big = true;
            } else {
                v = w;
            }
        }
        i += 1;
    }
    let x: i128 = if big {
        EXPONENT_CAP + 1
    } else {
        v
    };
    if negative {
        Some(-x)
    } else {
        Some(x)
    }
}

/// The magnitude of the numeral `t[a..b]`, in billionths, when it is one and
/// fits in an `i64`.
fn parse_magnitude(t: &Vec<char>, a: usize, b: usize) -> (r: Option<u64>)
    requires
        a <= b <= t@.len(),
    ensures
        r is Some <==> (magnitude(t@.subrange(a as int, b as int)) is Some && magnitude(
            t@.subrange(a as int, b as int),
        )->0 <= i64::MAX),
        r is Some ==> r->0 == magnitude(t@.subrange(a as int, b as int))->0,
{
    let ghost s = t@.subrange(a as int, b as int);
    let m = find_exponent_mark(t, a, b);
    assert(s.take(m - a) == t@.subrange(a as int, m as int));
    let (g, f) = match parse_mantissa(t, a, m) {
        None => {
            return None;
        },
        Some(x) => x,
    };
    let len = g.len();
    let ghost n = digits_value(g@);
    if m == b {
        return shift_digits(&g, 9 - f as i128);
    }
    assert(s.skip(m - a + 1) == t@.subrange(m + 1, b as int));
    let e = match parse_exponent(t, m + 1, b) {
        None => {
            return None;
        },
        Some(e) => e,
    };
    let p: i128 = 9 - f as i128 + e;
    proof {
        let x = exponent_value(s.skip(m - a + 1))->0;
        if x > EXPONENT_CAP || x < -EXPONENT_CAP {
            lemma_shift_far(g@, p as int, 9 - f + x);
        }
    }
    shift_digits(&g, p)
}

/// The characters of `s`, in order, but for the degree signs.
fn chars_without_degree_signs(s: &str) -> (r: Vec<char>)
    ensures
        r@ == without_degree_signs(s@),
{
    let n = s.unicode_len();
    let mut r: Vec<char> = Vec::new();
    let mut i: usize = 0;
    while i < n
        invariant
            n == s@.len(),
            i <= n,
            r@ == without_degree_signs(s@.take(i as int)),
        decreases n - i,
    {
        let c = s.get_char(i);
        if c != DEGREE_SIGN {
            r.push(c);
        }
        assert(s@.take(i + 1).drop_last() == s@.take(i as int));
        i += 1;
    }
    assert(s@.take(n as int) == s@);
    r
}

/// The bounds `(lo, hi)` of `t[a..b]` once white space is trimmed from both
/// ends.
fn trimmed_bounds(t: &Vec<char>, a: usize, b: usize) -> (r: (usize, usize))
    requires
        a <= b <= t@.len(),
    ensures
        a <= r.0 <= r.1 <= b,
        t@.subrange(r.0 as int, r.1 as int) == trim(t@.subrange(a as int, b as int)),
{
    let mut lo = a;
    while lo < b && white_space(t[lo])
        invariant
            a <= lo <= b <= t@.len(),
            trim_start(t@.subrange(a as int, b as int)) == trim_start(t@.subrange(lo as int, b as int)),
        decreases b - lo,
    {
        assert(t@.subrange(lo as int, b as int).drop_first() == t@.subrange(lo + 1, b as int));
        lo += 1;
    }
    let mut hi = b;
    while hi > lo && white_space(t[hi - 1])
        invariant
            a <= lo <= hi <= b <= t@.len(),
            trim_end(t@.subrange(lo as int, b as int)) == trim_end(t@.subrange(lo as int, hi as int)),
        decreases hi - lo,
    {
        assert(t@.subrange(lo as int, hi as int).drop_last() == t@.subrange(lo as int, hi - 1));
        hi -= 1;
    }
    (lo, hi)
}

/// The value in billionths of the signed decimal number `t[lo..hi]`.
fn parse_decimal(t: &Vec<char>, lo: usize, hi: usize) -> (r: Option<i64>)
    requires
        lo <= hi <= t@.len(),
    ensures
        r == decimal_value(t@.subrange(lo as int, hi as int)),
{
    let ghost s = t@.subrange(lo as int, hi as int);
    let negative = lo < hi && t[lo] == '-';
    let signed = lo < hi && (t[lo] == '-' || t[lo] == '+');
    let start = if signed {
        lo + 1
    } else {
        lo
    };
    assert(t@.subrange(start as int, hi as int) == (if s.len() > 0 && (s[0] == '-' || s[0] == '+') {
        s.drop_first()
    } else {
        s
    }));
    match parse_magnitude(t, start, hi) {
        Some(m) => {
            if negative {
                Some(-(m as i64))
            } else {
                Some(m as i64)
            }
        },
        None => None,
    }
}

/// Splits text such as `"54.7973628°, -1.5921431°"` into latitude and
/// longitude, in billionths of a degree. `None` unless the text, degree signs
/// aside, is two decimal numbers around one comma.
pub(crate) fn split_lat_lng(lat_lng: &str) -> (r: Option<(i64, i64)>)
    ensures
        r == lat_lng_of_text(lat_lng@),
{
    let t = chars_without_degree_signs(lat_lng);
    let n = t.len();
    let mut comma: Option<usize> = None;
    let mut another = false;
    let mut i: usize = 0;
    while i < n
        invariant
            n == t@.len(),
            i <= n,
            comma is None ==> forall|j: int| 0 <= j < i ==> t@[j] != ',',
            comma is Some ==> comma->0 < i && t@[comma->0 as int] == ',',
            comma is Some && !another ==> forall|j: int|
                0 <= j < i && j != comma->0 ==> t@[j] != ',',
            another ==> comma is Some && exists|j: int|
                0 <= j < i && j != comma->0 && t@[j] == ',',
        decreases n - i,
    {
        if t[i] == ',' {
            match comma {
                None => {
                    comma = Some(i);
                },
                Some(_) => {
                    another = true;
                },
            }
        }
        i += 1;
    }
    match comma {
        None => {
            assert(!exists|k: int| sole_comma_at(t@, k));
            None
        },
        Some(k) => {
            if another {
                assert forall|j: int| !sole_comma_at(t@, j) by {
                    let w = choose|w: int| 0 <= w < n && w != k && t@[w] == ',';
                    if sole_comma_at(t@, j) {
                        if j != k {
                            assert(t@[k as int] == ',');
                        } else {
                            assert(t@[w] == ',');
                        }
                    }
                }
                return None;
            }
            assert forall|j: int| sole_comma_at(t@, j) implies j == k by {
                if j != k {
                    assert(t@[j] == ',');
                }
            }
            assert(sole_comma_at(t@, k as int));
            let (a, b) = trimmed_bounds(&t, 0, k);
            let (c, d) = trimmed_bounds(&t, k + 1, n);
            assert(t@.subrange(0, k as int) == t@.take(k as int));
            assert(t@.subrange(k + 1, n as int) == t@.skip(k + 1));
            let lat = parse_decimal(&t, a, b);
            let lng = parse_decimal(&t, c, d);
            match (lat, lng) {
                (Some(x), Some(y)) => Some((x, y)),
                _ => None,
            }
        },
    }
}

} // verus!
