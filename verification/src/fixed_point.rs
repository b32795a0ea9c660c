//! Deterministic conversion between wire decimal strings and integer
//! price/quantity units.
//!
//! A decimal string maps to its value scaled by `10^SCALE`, rounded half
//! away from zero when it carries more than `SCALE` fractional digits; the
//! inverse maps an integer back to the shortest decimal spelling with at
//! most `SCALE` fractional digits. Parsing back what was formatted returns
//! the integer unchanged.

use vstd::prelude::*;

verus! {

/// Number of fractional digits carried by the integer representation.
pub const SCALE: u32 = 4;

/// `10^SCALE`: one whole unit expressed in integer ticks.
pub const SCALE_FACTOR: u64 = 10000;

/// Rejection of a wire string that is not a finite decimal, or whose
/// scaled value does not fit the integer range.
#[derive(Debug, PartialEq, Eq, Clone, Copy, Structural)]
pub enum FixedPointError {
    MalformedNumber,
}

pub open spec fn is_digit(c: char) -> bool {
    48 <= c as int && c as int <= 57
}

pub open spec fn digit_val(c: char) -> int {
    c as int - 48
}

pub open spec fn all_digits(s: Seq<char>) -> bool {
    forall|i: int| 0 <= i < s.len() ==> is_digit(#[trigger] s[i])
}

/// The number a string of decimal digits denotes.
pub open spec fn digits_val(s: Seq<char>) -> int
    decreases s.len(),
{
    if s.len() == 0 {
        0
    } else {
        digits_val(s.drop_last()) * 10 + digit_val(s.last())
    }
}

/// The position of the first dot, or the length when there is none.
pub open spec fn first_dot(s: Seq<char>) -> int
    decreases s.len(),
{
    if s.len() == 0 {
        0
    } else if s[0] == '.' {
        0
    } else {
        1 + first_dot(s.drop_first())
    }
}

pub open spec fn pow10(n: nat) -> int
    decreases n,
{
    if n == 0 {
        1
    } else {
        10 * pow10((n - 1) as nat)
    }
}

/// The scaled value of the fractional digits: padded to `SCALE` digits, or
/// cut there and rounded half away from zero on the first extra digit.
pub open spec fn frac_scaled(f: Seq<char>) -> int {
    if f.len() <= SCALE {
        digits_val(f) * pow10((SCALE - f.len()) as nat)
    } else {
        digits_val(f.take(SCALE as int)) + (if digit_val(f[SCALE as int]) >= 5 {
            1int
        } else {
            0int
        })
    }
}

/// The scaled magnitude a decimal string without sign denotes: an integer
/// part, optionally a dot and a fractional part, both parts nonempty and
/// all digits. `None` for anything else.
pub open spec fn spec_parse_mag(body: Seq<char>) -> Option<int> {
    let d = first_dot(body);
    if d == body.len() {
        if body.len() > 0 && all_digits(body) {
            Some(digits_val(body) * (SCALE_FACTOR as int))
        } else {
            None
        }
    } else {
        let ip = body.subrange(0, d);
        let fp = body.subrange(d + 1, body.len() as int);
        if ip.len() > 0 && fp.len() > 0 && all_digits(ip) && all_digits(fp) {
            Some(digits_val(ip) * (SCALE_FACTOR as int) + frac_scaled(fp))
        } else {
            None
        }
    }
}

/// What a signed wire decimal denotes as a scaled price, `None` when it is
/// malformed or out of the signed 64-bit range.
pub open spec fn spec_parse(s: Seq<char>) -> Option<int> {
    if s.len() > 0 && s[0] == '-' {
        match spec_parse_mag(s.drop_first()) {
            Some(m) => if m <= i64::MAX {
                Some(-m)
            } else {
                None
            },
            None => None,
        }
    } else {
        match spec_parse_mag(s) {
            Some(m) => if m <= i64::MAX {
                Some(m)
            } else {
                None
            },
            None => None,
        }
    }
}

/// What an unsigned wire decimal denotes as a scaled quantity, `None` when
/// it is malformed, signed, or out of the unsigned 64-bit range.
pub open spec fn spec_parse_quantity(s: Seq<char>) -> Option<int> {
    if s.len() > 0 && s[0] == '-' {
        None
    } else {
        match spec_parse_mag(s) {
            Some(m) => if m <= u64::MAX {
                Some(m)
            } else {
                None
            },
            None => None,
        }
    }
}

/// The decimal digit character for a value.
pub open spec fn digit_char(d: int) -> char {
    if d == 0 {
        '0'
    } else if d == 1 {
        '1'
    } else if d == 2 {
        '2'
    } else if d == 3 {
        '3'
    } else if d == 4 {
        '4'
    } else if d == 5 {
        '5'
    } else if d == 6 {
        '6'
    } else if d == 7 {
        '7'
    } else if d == 8 {
        '8'
    } else {
        '9'
    }
}

/// The digits of a number, no leading zeros except for zero itself.
pub open spec fn spec_digits(m: nat) -> Seq<char>
    decreases m,
{
    if m < 10 {
        seq![digit_char(m as int)]
    } else {
        spec_digits((m / 10) as nat).push(digit_char((m as int) % 10))
    }
}

/// A number written with exactly `w` digits, leading zeros kept.
pub open spec fn spec_padded(v: int, w: nat) -> Seq<char>
    decreases w,
{
    if w == 0 {
        Seq::<char>::empty()
    } else {
        spec_padded(v / 10, (w - 1) as nat).push(digit_char(v % 10))
    }
}

/// The string without its trailing zero digits.
pub open spec fn trim_zeros(s: Seq<char>) -> Seq<char>
    decreases s.len(),
{
    if s.len() > 0 && s.last() == '0' {
        trim_zeros(s.drop_last())
    } else {
        s
    }
}

/// The shortest decimal spelling of a scaled integer: the sign, the whole
/// units, and the fractional digits with trailing zeros dropped.
pub open spec fn spec_format(n: int) -> Seq<char> {
    let mag = if n < 0 {
        -n
    } else {
        n
    };
    let ip = mag / (SCALE_FACTOR as int);
    let fr = mag % (SCALE_FACTOR as int);
    let sign: Seq<char> = if n < 0 {
        seq!['-']
    } else {
        Seq::<char>::empty()
    };
    if fr == 0 {
        sign + spec_digits(ip as nat)
    } else {
        sign + spec_digits(ip as nat) + seq!['.'] + trim_zeros(spec_padded(fr, SCALE as nat))
    }
}

pub proof fn lemma_pow10_pos(n: nat)
    ensures
        pow10(n) >= 1,
    decreases n,
{
    if n > 0 {
        lemma_pow10_pos((n - 1) as nat);
    }
}

/// The concrete powers the fractional part uses.
pub proof fn lemma_pow10_vals()
    ensures
        pow10(0) == 1,
        pow10(1) == 10,
        pow10(2) == 100,
        pow10(3) == 1000,
        pow10(4) == 10000,
{
    assert(pow10(0) == 1);
    assert(pow10(1) == 10);
    assert(pow10(2) == 100);
    assert(pow10(3) == 1000);
    assert(pow10(4) == 10000);
}

/// A digit string's value is never negative.
pub proof fn lemma_digits_val_nonneg(s: Seq<char>)
    requires
        all_digits(s),
    ensures
        digits_val(s) >= 0,
    decreases s.len(),
{
    if s.len() > 0 {
        assert(all_digits(s.drop_last())) by {
            assert(forall|i: int| 0 <= i < s.len() - 1 ==> s.drop_last()[i] == s[i]);
        }
        lemma_digits_val_nonneg(s.drop_last());
    }
}

/// A digit string's value is below ten to its length.
pub proof fn lemma_digits_val_bound(s: Seq<char>)
    requires
        all_digits(s),
    ensures
        digits_val(s) < pow10(s.len()),
    decreases s.len(),
{
    if s.len() > 0 {
        assert(all_digits(s.drop_last())) by {
            assert(forall|i: int| 0 <= i < s.len() - 1 ==> s.drop_last()[i] == s[i]);
        }
        lemma_digits_val_bound(s.drop_last());
        assert(pow10(s.len()) == 10 * pow10((s.len() - 1) as nat));
    }
}

/// Extending a digit string to the right never lowers its value.
pub proof fn lemma_digits_val_take_ge(s: Seq<char>, k: int)
    requires
        all_digits(s),
        0 <= k <= s.len(),
    ensures
        digits_val(s) >= digits_val(s.take(k)),
        digits_val(s.take(k)) >= 0,
    decreases s.len() - k,
{
    assert(all_digits(s.take(k))) by {
        assert(forall|i: int| 0 <= i < k ==> s.take(k)[i] == s[i]);
    }
    lemma_digits_val_nonneg(s.take(k));
    if k == s.len() {
        assert(s.take(k) =~= s);
    } else {
        lemma_digits_val_take_ge(s, k + 1);
        assert(s.take(k + 1).drop_last() =~= s.take(k));
        assert(s.take(k + 1).last() == s[k]);
        assert(digits_val(s.take(k + 1)) == digits_val(s.take(k)) * 10 + digit_val(s[k]));
    }
}

/// Where the first dot is: nothing before it is a dot, and it is a dot
/// itself unless there is none at all.
pub proof fn lemma_first_dot_bounds(s: Seq<char>)
    ensures
        0 <= first_dot(s) <= s.len(),
        forall|k: int| 0 <= k < first_dot(s) ==> s[k] != '.',
        first_dot(s) < s.len() ==> s[first_dot(s)] == '.',
    decreases s.len(),
{
    if s.len() > 0 && s[0] != '.' {
        lemma_first_dot_bounds(s.drop_first());
        assert(forall|k: int| 0 <= k < s.len() - 1 ==> #[trigger] s.drop_first()[k] == s[k + 1]);
        assert forall|k: int| 0 <= k < first_dot(s) implies s[k] != '.' by {
            if k > 0 {
                assert(s.drop_first()[k - 1] == s[k]);
            }
        }
        if first_dot(s) < s.len() {
            assert(s.drop_first()[first_dot(s) - 1] == s[first_dot(s)]);
        }
    }
}

/// The fractional scale of a digit string is never negative.
pub proof fn lemma_frac_scaled_nonneg(f: Seq<char>)
    requires
        all_digits(f),
    ensures
        frac_scaled(f) >= 0,
{
    if f.len() <= SCALE {
        lemma_digits_val_nonneg(f);
        lemma_pow10_pos((SCALE - f.len()) as nat);
    } else {
        assert(all_digits(f.take(SCALE as int))) by {
            assert(forall|i: int| 0 <= i < SCALE ==> f.take(SCALE as int)[i] == f[i]);
        }
        lemma_digits_val_nonneg(f.take(SCALE as int));
    }
}

/// Once a prefix of digits alone exceeds the unsigned range, whatever the
/// string denotes — if anything — exceeds it too.
pub proof fn lemma_spec_mag_large(body: Seq<char>, k: int)
    requires
        0 < k <= body.len(),
        all_digits(body.take(k)),
        forall|j: int| 0 <= j < k ==> body[j] != '.',
        digits_val(body.take(k)) > u64::MAX,
    ensures
        match spec_parse_mag(body) {
            Some(m) => m > u64::MAX,
            None => true,
        },
{
    lemma_first_dot_bounds(body);
    let d0 = first_dot(body);
    assert(d0 >= k) by {
        if d0 < k {
            assert(body[d0] != '.');
        }
    }
    if d0 == body.len() {
        if body.len() > 0 && all_digits(body) {
            lemma_digits_val_take_ge(body, k);
            assert(digits_val(body) * (SCALE_FACTOR as int) >= digits_val(body)) by {
                assert(digits_val(body) > 0);
            }
        }
    } else {
        let ip = body.subrange(0, d0);
        let fp = body.subrange(d0 + 1, body.len() as int);
        if ip.len() > 0 && fp.len() > 0 && all_digits(ip) && all_digits(fp) {
            assert(ip.take(k) =~= body.take(k));
            lemma_digits_val_take_ge(ip, k);
            lemma_frac_scaled_nonneg(fp);
            assert(digits_val(ip) * (SCALE_FACTOR as int) >= digits_val(ip)) by {
                assert(digits_val(ip) > 0);
            }
        }
    }
}

/// `None` or too large, bundled: what a failed parse knows of the string.
pub open spec fn mag_out_of_range(o: Option<int>, limit: int) -> bool {
    match o {
        Some(m) => m > limit,
        None => true,
    }
}

/// `10^e` for the small exponents the fractional part needs.
fn pow10_small(e: u32) -> (r: u64)
    requires
        e <= 4,
    ensures
        r == pow10(e as nat),
{
    proof {
        assert(pow10(0) == 1);
        assert(pow10(1) == 10);
        assert(pow10(2) == 100);
        assert(pow10(3) == 1000);
        assert(pow10(4) == 10000);
    }
    if e == 0 {
        1
    } else if e == 1 {
        10
    } else if e == 2 {
        100
    } else if e == 3 {
        1000
    } else {
        10000
    }
}

/// Parse the unsigned scaled magnitude starting at `start`: integer
/// digits, then optionally a dot and fractional digits. `Err` exactly when
/// that tail is malformed or denotes more than the unsigned range holds.
fn parse_mag_from(s: &str, start: usize) -> (r: Result<u128, FixedPointError>)
    requires
        start as int <= s@.len(),
    ensures
        match r {
            Ok(m) => spec_parse_mag(s@.skip(start as int)) == Some(m as int),
            Err(e) => e == FixedPointError::MalformedNumber && mag_out_of_range(
                spec_parse_mag(s@.skip(start as int)),
                u64::MAX as int,
            ),
        },
{
    let ghost body = s@.skip(start as int);
    let n = s.unicode_len();
    let mut i: usize = start;
    let mut ip: u64 = 0;
    loop
        invariant_except_break
            start <= i <= n,
            n == s@.len(),
            start as int <= s@.len(),
            body == s@.skip(start as int),
            all_digits(body.take(i - start)),
            forall|j: int| 0 <= j < i - start ==> body[j] != '.',
            ip == digits_val(body.take(i - start)),
        ensures
            start <= i <= n,
            n == s@.len(),
            body == s@.skip(start as int),
            all_digits(body.take(i - start)),
            forall|j: int| 0 <= j < i - start ==> body[j] != '.',
            ip == digits_val(body.take(i - start)),
            i < n ==> !is_digit(s@[i as int]),
        decreases n - i,
    {
        if i >= n {
            break ;
        }
        let c = s.get_char(i);
        let cv = c as u32;
        if !(48 <= cv && cv <= 57) {
            proof {
                assert(s@[i as int] == c);
            }
            break ;
        }
        let d = (cv - 48) as u64;
        proof {
            assert(body[i - start] == s@[i as int]);
            assert(body.take(i - start + 1).drop_last() =~= body.take(i - start));
            assert(body.take(i - start + 1).last() == body[i - start]);
            assert(is_digit(body[i - start]) && digit_val(body[i - start]) == d);
            assert(all_digits(body.take(i - start + 1))) by {
                assert(forall|j: int|
                    0 <= j < i - start + 1 ==> body.take(i - start + 1)[j] == body[j]);
            }
        }
        if ip > (u64::MAX - d) / 10 {
            proof {
                lemma_digits_val_nonneg(body.take(i - start));
                assert(digits_val(body.take(i - start + 1)) == ip * 10 + d);
                assert(ip * 10 + d > u64::MAX);
                lemma_spec_mag_large(body, i - start + 1);
            }
            return Err(FixedPointError::MalformedNumber);
        }
        ip = ip * 10 + d;
        i = i + 1;
    }
    let int_len = i - start;
    if i == n {
        if int_len == 0 {
            proof {
                assert(body.len() == 0);
            }
            return Err(FixedPointError::MalformedNumber);
        }
        proof {
            assert(body.take(i - start) =~= body);
            lemma_first_dot_bounds(body);
            assert(first_dot(body) == body.len()) by {
                if first_dot(body) < body.len() {
                    assert(body[first_dot(body)] == '.');
                    assert(is_digit(body[first_dot(body)]));
                }
            }
        }
        let total: u128 = (ip as u128) * (SCALE_FACTOR as u128);
        return Ok(total);
    }
    let c = s.get_char(i);
    proof {
        assert(body[i - start] == s@[i as int]);
    }
    if !(c == '.') {
        proof {
            lemma_first_dot_bounds(body);
            let d0 = first_dot(body);
            assert(!is_digit(body[i - start]) && body[i - start] != '.');
            if d0 == body.len() {
                assert(!all_digits(body));
            } else {
                assert(d0 > i - start) by {
                    if d0 <= i - start {
                        assert(body[d0] != '.');
                    }
                }
                let ipart = body.subrange(0, d0);
                assert(ipart[i - start] == body[i - start]);
                assert(!all_digits(ipart));
            }
        }
        return Err(FixedPointError::MalformedNumber);
    }
    if int_len == 0 {
        proof {
            lemma_first_dot_bounds(body);
            assert(body[0] == '.');
            assert(first_dot(body) == 0);
            assert(body.subrange(0, 0).len() == 0);
        }
        return Err(FixedPointError::MalformedNumber);
    }
    proof {
        lemma_first_dot_bounds(body);
        assert(first_dot(body) == i - start) by {
            let d0 = first_dot(body);
            if d0 < i - start {
                assert(body[d0] != '.');
                assert(body[d0] == '.');
            }
            if d0 > i - start {
                assert(body[i - start] != '.');
            }
        }
    }
    let ghost fstart = i - start + 1;
    let frac_start = i + 1;
    let mut j: usize = frac_start;
    let mut fr4: u64 = 0;
    let mut round_up = false;
    loop
        invariant_except_break
            frac_start <= j <= n,
            n == s@.len(),
            frac_start == i + 1,
            start < i < n,
            start as int <= s@.len(),
            body == s@.skip(start as int),
            fstart == i - start + 1,
            all_digits(body.subrange(fstart as int, j - start)),
            fr4 == digits_val(
                body.subrange(
                    fstart as int,
                    fstart + (if j - frac_start <= 4 {
                        j - frac_start
                    } else {
                        4
                    }),
                ),
            ),
            fr4 <= 9999,
            round_up == (j - frac_start > 4 && digit_val(body[fstart + 4]) >= 5),
        ensures
            frac_start <= j <= n,
            n == s@.len(),
            frac_start == i + 1,
            body == s@.skip(start as int),
            fstart == i - start + 1,
            all_digits(body.subrange(fstart as int, j - start)),
            fr4 == digits_val(
                body.subrange(
                    fstart as int,
                    fstart + (if j - frac_start <= 4 {
                        j - frac_start
                    } else {
                        4
                    }),
                ),
            ),
            fr4 <= 9999,
            round_up == (j - frac_start > 4 && digit_val(body[fstart + 4]) >= 5),
            j < n ==> !is_digit(s@[j as int]),
        decreases n - j,
    {
        if j >= n {
            break ;
        }
        let c2 = s.get_char(j);
        let cv2 = c2 as u32;
        if !(48 <= cv2 && cv2 <= 57) {
            proof {
                assert(s@[j as int] == c2);
            }
            break ;
        }
        let d2 = (cv2 - 48) as u64;
        proof {
            assert(body[j - start] == s@[j as int]);
            assert(is_digit(body[j - start]) && digit_val(body[j - start]) == d2);
            assert(all_digits(body.subrange(fstart as int, j - start + 1))) by {
                assert(forall|m: int|
                    0 <= m < j - start + 1 - fstart ==> #[trigger] body.subrange(
                        fstart as int,
                        j - start + 1,
                    )[m] == body[fstart + m]);
                assert(forall|m: int|
                    0 <= m < j - start - fstart ==> #[trigger] body.subrange(
                        fstart as int,
                        j - start,
                    )[m] == body[fstart + m]);
            }
        }
        let fl = j - frac_start;
        if fl < 4 {
            proof {
                let pre = body.subrange(fstart as int, fstart + fl);
                let post = body.subrange(fstart as int, fstart + fl + 1);
                assert(post.drop_last() =~= pre);
                assert(post.last() == body[fstart + fl]);
                assert(body[fstart + fl] == body[j - start]);
                lemma_digits_val_bound(pre);
                lemma_pow10_vals();
            }
            fr4 = fr4 * 10 + d2;
        } else if fl == 4 {
            round_up = d2 >= 5;
            proof {
                assert(body[fstart + 4] == body[j - start]);
            }
        }
        j = j + 1;
    }
    if j < n {
        proof {
            let fp = body.subrange(fstart as int, body.len() as int);
            assert(fp[j - start - fstart] == body[j - start]);
            assert(!is_digit(fp[j - start - fstart]));
            assert(!all_digits(fp));
            assert(first_dot(body) == i - start);
        }
        return Err(FixedPointError::MalformedNumber);
    }
    if j == frac_start {
        proof {
            assert(body.subrange(fstart as int, body.len() as int).len() == 0);
        }
        return Err(FixedPointError::MalformedNumber);
    }
    let flen = j - frac_start;
    let fr: u64 = if flen <= 4 {
        let p10 = pow10_small((4 - flen) as u32);
        proof {
            assert(pow10(0) == 1 && pow10(1) == 10 && pow10(2) == 100 && pow10(3) == 1000
                && pow10(4) == 10000);
            assert(fr4 * p10 <= 99990000) by (nonlinear_arith)
                requires
                    fr4 <= 9999,
                    0 <= p10 <= 10000,
            ;
        }
        fr4 * p10
    } else {
        fr4 + (if round_up {
            1
        } else {
            0
        })
    };
    proof {
        let fp = body.subrange(fstart as int, body.len() as int);
        assert(fp =~= body.subrange(fstart as int, j - start));
        assert(fp.len() == flen);
        if flen <= 4 {
            assert(body.subrange(fstart as int, fstart + flen) =~= fp);
            assert(fr == digits_val(fp) * pow10((4 - flen) as nat));
            lemma_pow10_pos((4 - flen) as nat);
            assert(pow10((4 - flen) as nat) <= 10000) by {
                assert(pow10(0) == 1 && pow10(1) == 10 && pow10(2) == 100 && pow10(3) == 1000
                    && pow10(4) == 10000);
            }
        } else {
            assert(fp.take(SCALE as int) =~= body.subrange(fstart as int, fstart + 4));
            assert(fp[SCALE as int] == body[fstart + 4]);
        }
        assert(frac_scaled(fp) == fr);
        assert(all_digits(body.take(i - start)));
        assert(body.subrange(0, i - start) =~= body.take(i - start));
    }
    let total: u128 = (ip as u128) * (SCALE_FACTOR as u128) + (fr as u128);
    Ok(total)
}

/// Parse a signed wire decimal into scaled price ticks.
pub fn parse_price(s: &str) -> (r: Result<i64, FixedPointError>)
    ensures
        match r {
            Ok(v) => spec_parse(s@) == Some(v as int),
            Err(e) => e == FixedPointError::MalformedNumber && spec_parse(s@) is None,
        },
{
    let n = s.unicode_len();
    let neg = n > 0 && s.get_char(0) == '-';
    let start: usize = if neg {
        1
    } else {
        0
    };
    proof {
        if !neg {
            assert(s@.skip(0) =~= s@);
        }
    }
    let m = match parse_mag_from(s, start) {
        Err(e) => {
            return Err(e);
        },
        Ok(m) => m,
    };
    if m > i64::MAX as u128 {
        return Err(FixedPointError::MalformedNumber);
    }
    let v = m as i64;
    if neg {
        Ok(-v)
    } else {
        Ok(v)
    }
}

/// Parse an unsigned wire decimal into scaled quantity units.
pub fn parse_quantity(s: &str) -> (r: Result<u64, FixedPointError>)
    ensures
        match r {
            Ok(v) => spec_parse_quantity(s@) == Some(v as int),
            Err(e) => e == FixedPointError::MalformedNumber && spec_parse_quantity(s@) is None,
        },
{
    let n = s.unicode_len();
    if n > 0 && s.get_char(0) == '-' {
        return Err(FixedPointError::MalformedNumber);
    }
    proof {
        assert(s@.skip(0) =~= s@);
    }
    let m = match parse_mag_from(s, 0) {
        Err(e) => {
            return Err(e);
        },
        Ok(m) => m,
    };
    if m > u64::MAX as u128 {
        return Err(FixedPointError::MalformedNumber);
    }
    Ok(m as u64)
}

/// The one-character string for a digit.
fn digit_str(d: u64) -> (r: &'static str)
    requires
        d < 10,
    ensures
        r@ == seq![digit_char(d as int)],
{
    proof {
        reveal_strlit("0");
        reveal_strlit("1");
        reveal_strlit("2");
        reveal_strlit("3");
        reveal_strlit("4");
        reveal_strlit("5");
        reveal_strlit("6");
        reveal_strlit("7");
        reveal_strlit("8");
        reveal_strlit("9");
    }
    if d == 0 {
        "0"
    } else if d == 1 {
        "1"
    } else if d == 2 {
        "2"
    } else if d == 3 {
        "3"
    } else if d == 4 {
        "4"
    } else if d == 5 {
        "5"
    } else if d == 6 {
        "6"
    } else if d == 7 {
        "7"
    } else if d == 8 {
        "8"
    } else {
        "9"
    }
}

/// A number's digits, most significant first.
fn format_digits(m: u64) -> (r: String)
    ensures
        r@ == spec_digits(m as nat),
    decreases m,
{
    if m < 10 {
        let r = digit_str(m).to_owned();
        proof {
            assert(r@ =~= spec_digits(m as nat));
        }
        r
    } else {
        let mut r = format_digits(m / 10);
        r.append(digit_str(m % 10));
        proof {
            assert(r@ =~= spec_digits(m as nat));
        }
        r
    }
}

/// A number written with exactly `w` digits, leading zeros kept.
fn format_padded(v: u64, w: u32) -> (r: String)
    ensures
        r@ == spec_padded(v as int, w as nat),
    decreases w,
{
    if w == 0 {
        String::new()
    } else {
        let mut r = format_padded(v / 10, w - 1);
        r.append(digit_str(v % 10));
        proof {
            assert(r@ =~= spec_padded(v as int, w as nat));
        }
        r
    }
}

/// Dropping a trailing zero digit from a padded number.
proof fn lemma_trim_padded_step(v: int, w: nat)
    requires
        w >= 1,
        v >= 0,
        v % 10 == 0,
    ensures
        trim_zeros(spec_padded(v, w)) == trim_zeros(spec_padded(v / 10, (w - 1) as nat)),
{
    let s = spec_padded(v, w);
    assert(s.last() == digit_char(0));
    assert(s.drop_last() =~= spec_padded(v / 10, (w - 1) as nat));
}

/// A padded number whose last digit is not zero is already trimmed.
proof fn lemma_trim_padded_stop(v: int, w: nat)
    requires
        w >= 1,
        v >= 0,
        v % 10 != 0,
    ensures
        trim_zeros(spec_padded(v, w)) == spec_padded(v, w),
{
    let s = spec_padded(v, w);
    assert(s.last() == digit_char(v % 10));
    assert(s.last() != '0');
}

/// Format a scaled price as the shortest decimal spelling: sign, whole
/// units, and the fractional digits with trailing zeros dropped.
pub fn format_price(n: i64) -> (r: String)
    requires
        n > i64::MIN,
    ensures
        r@ == spec_format(n as int),
{
    proof {
        reveal_strlit("-");
        reveal_strlit(".");
    }
    let mag: u64 = if n < 0 {
        (-n) as u64
    } else {
        n as u64
    };
    let whole = mag / SCALE_FACTOR;
    let fr = mag % SCALE_FACTOR;
    let mut out = String::new();
    if n < 0 {
        out.append("-");
    }
    let ds = format_digits(whole);
    out.append(ds.as_str());
    if fr > 0 {
        out.append(".");
        let mut t = fr;
        let mut w: u32 = SCALE;
        proof {
            lemma_pow10_vals();
        }
        while t % 10 == 0
            invariant
                t > 0,
                1 <= w <= 4,
                t < pow10(w as nat),
                trim_zeros(spec_padded(fr as int, SCALE as nat)) == trim_zeros(
                    spec_padded(t as int, w as nat),
                ),
            decreases t,
        {
            proof {
                assert(pow10(w as nat) == 10 * pow10((w - 1) as nat));
                assert(t >= 10);
                assert(w >= 2) by {
                    if w == 1 {
                        assert(pow10(1) == 10);
                    }
                }
                lemma_trim_padded_step(t as int, w as nat);
            }
            t = t / 10;
            w = w - 1;
        }
        proof {
            lemma_trim_padded_stop(t as int, w as nat);
        }
        let frs = format_padded(t, w);
        out.append(frs.as_str());
        proof {
            assert(out@ =~= spec_format(n as int));
        }
    } else {
        proof {
            assert(out@ =~= spec_format(n as int));
        }
    }
    out
}

/// Format a scaled quantity; quantities carry no sign.
pub fn format_quantity(q: u64) -> (r: String)
    ensures
        r@ == spec_format_quantity(q as int),
{
    proof {
        reveal_strlit(".");
    }
    let whole = q / SCALE_FACTOR;
    let fr = q % SCALE_FACTOR;
    let mut out = format_digits(whole);
    if fr > 0 {
        out.append(".");
        let mut t = fr;
        let mut w: u32 = SCALE;
        proof {
            lemma_pow10_vals();
        }
        while t % 10 == 0
            invariant
                t > 0,
                1 <= w <= 4,
                t < pow10(w as nat),
                trim_zeros(spec_padded(fr as int, SCALE as nat)) == trim_zeros(
                    spec_padded(t as int, w as nat),
                ),
            decreases t,
        {
            proof {
                assert(pow10(w as nat) == 10 * pow10((w - 1) as nat));
                assert(w >= 2) by {
                    if w == 1 {
                        assert(pow10(1) == 10);
                    }
                }
                lemma_trim_padded_step(t as int, w as nat);
            }
            t = t / 10;
            w = w - 1;
        }
        proof {
            lemma_trim_padded_stop(t as int, w as nat);
        }
        let frs = format_padded(t, w);
        out.append(frs.as_str());
        proof {
            assert(out@ =~= spec_format_quantity(q as int));
        }
    } else {
        proof {
            assert(out@ =~= spec_format_quantity(q as int));
        }
    }
    out
}

/// The digit spelling of a number denotes that number and holds digits
/// only.
proof fn lemma_spec_digits_props(m: nat)
    ensures
        all_digits(spec_digits(m)),
        spec_digits(m).len() >= 1,
        digits_val(spec_digits(m)) == m,
    decreases m,
{
    if m < 10 {
        let s = spec_digits(m);
        assert(s.len() == 1);
        assert(s[0] == digit_char(m as int));
        assert(is_digit(digit_char(m as int)));
        assert(s.drop_last() =~= Seq::<char>::empty());
        assert(digits_val(s.drop_last()) == 0);
        assert(s.last() == digit_char(m as int));
        assert(digits_val(s) == digit_val(digit_char(m as int)));
    } else {
        lemma_spec_digits_props((m / 10) as nat);
        let s = spec_digits(m);
        let pre = spec_digits((m / 10) as nat);
        assert(s.drop_last() =~= pre);
        assert(s.last() == digit_char((m as int) % 10));
        assert(is_digit(digit_char((m as int) % 10)));
        assert(all_digits(s)) by {
            assert(forall|k: int| 0 <= k < pre.len() ==> s[k] == pre[k]);
        }
        assert(digits_val(s) == digits_val(pre) * 10 + digit_val(digit_char((m as int) % 10)));
    }
}

/// A padded spelling denotes its number and holds digits only.
proof fn lemma_padded_props(v: int, w: nat)
    requires
        0 <= v < pow10(w),
    ensures
        all_digits(spec_padded(v, w)),
        spec_padded(v, w).len() == w,
        digits_val(spec_padded(v, w)) == v,
    decreases w,
{
    if w == 0 {
    } else {
        assert(pow10(w) == 10 * pow10((w - 1) as nat));
        lemma_padded_props(v / 10, (w - 1) as nat);
        let s = spec_padded(v, w);
        let pre = spec_padded(v / 10, (w - 1) as nat);
        assert(s.drop_last() =~= pre);
        assert(s.last() == digit_char(v % 10));
        assert(is_digit(digit_char(v % 10)));
        assert(all_digits(s)) by {
            assert(forall|k: int| 0 <= k < pre.len() ==> s[k] == pre[k]);
        }
        assert(digits_val(s) == digits_val(pre) * 10 + digit_val(digit_char(v % 10)));
    }
}

/// Trimming trailing zeros keeps the denoted value, up to the dropped
/// scale.
proof fn lemma_trim_props(s: Seq<char>)
    requires
        all_digits(s),
    ensures
        all_digits(trim_zeros(s)),
        trim_zeros(s).len() <= s.len(),
        digits_val(trim_zeros(s)) * pow10((s.len() - trim_zeros(s).len()) as nat) == digits_val(
            s,
        ),
    decreases s.len(),
{
    let tr = trim_zeros(s);
    if s.len() > 0 && s.last() == '0' {
        assert(all_digits(s.drop_last())) by {
            assert(forall|i: int| 0 <= i < s.len() - 1 ==> s.drop_last()[i] == s[i]);
        }
        lemma_trim_props(s.drop_last());
        assert(digit_val(s.last()) == 0);
        assert(digits_val(s) == digits_val(s.drop_last()) * 10);
        let k = (s.len() - 1 - tr.len()) as nat;
        assert(pow10((k + 1) as nat) == 10 * pow10(k));
        assert(digits_val(tr) * pow10((k + 1) as nat) == (digits_val(tr) * pow10(k)) * 10)
            by (nonlinear_arith)
            requires
                pow10((k + 1) as nat) == 10 * pow10(k),
        ;
    } else {
        assert(pow10(0) == 1);
    }
}

/// Formatting an unsigned scaled integer and parsing it back returns it.
pub proof fn lemma_mag_round_trip(mag: int)
    requires
        0 <= mag,
    ensures
        spec_parse_mag(spec_format_quantity(mag)) == Some(mag),
{
    let whole = mag / (SCALE_FACTOR as int);
    let fr = mag % (SCALE_FACTOR as int);
    lemma_pow10_vals();
    lemma_spec_digits_props(whole as nat);
    let ds = spec_digits(whole as nat);
    if fr == 0 {
        let s = spec_format_quantity(mag);
        assert(s == ds);
        lemma_first_dot_bounds(s);
        assert(first_dot(s) == s.len()) by {
            if first_dot(s) < s.len() {
                assert(is_digit(s[first_dot(s)]));
                assert(s[first_dot(s)] == '.');
            }
        }
        assert(digits_val(s) * (SCALE_FACTOR as int) == mag);
    } else {
        let pd = spec_padded(fr, SCALE as nat);
        lemma_padded_props(fr, SCALE as nat);
        lemma_trim_props(pd);
        let tr = trim_zeros(pd);
        assert(tr.len() >= 1) by {
            if tr.len() == 0 {
                assert(digits_val(tr) == 0);
                assert(digits_val(tr) * pow10((pd.len() - tr.len()) as nat) == 0);
            }
        }
        let s = spec_format_quantity(mag);
        assert(s == ds + seq!['.'] + tr);
        assert(s.len() == ds.len() + 1 + tr.len());
        assert(forall|k: int| 0 <= k < ds.len() ==> #[trigger] s[k] == ds[k]);
        assert(s[ds.len() as int] == '.');
        assert(forall|k: int|
            ds.len() + 1 <= k < s.len() ==> #[trigger] s[k] == tr[k - ds.len() - 1]);
        lemma_first_dot_bounds(s);
        let d0 = first_dot(s);
        assert(d0 == ds.len()) by {
            if d0 < ds.len() {
                assert(is_digit(s[d0]));
                assert(s[d0] == '.');
            }
            if d0 > ds.len() {
                assert(s[ds.len() as int] != '.');
            }
        }
        assert(s.subrange(0, d0) =~= ds);
        assert(s.subrange(d0 + 1, s.len() as int) =~= tr);
        assert(frac_scaled(tr) == fr) by {
            assert(tr.len() <= SCALE);
            assert(digits_val(tr) * pow10((SCALE - tr.len()) as nat) == digits_val(pd));
        }
        assert(spec_parse_mag(s) == Some(digits_val(ds) * (SCALE_FACTOR as int) + frac_scaled(tr)));
        assert(digits_val(ds) * (SCALE_FACTOR as int) + fr == mag);
    }
}

/// Round trip: formatting any price in range and parsing it back returns
/// exactly that price.
pub proof fn lemma_parse_format_round_trip(n: int)
    requires
        -(i64::MAX as int) <= n <= i64::MAX as int,
    ensures
        spec_parse(spec_format(n)) == Some(n),
{
    let mag = if n < 0 {
        -n
    } else {
        n
    };
    lemma_mag_round_trip(mag);
    let body = spec_format_quantity(mag);
    let s = spec_format(n);
    lemma_spec_digits_props((mag / (SCALE_FACTOR as int)) as nat);
    if n >= 0 {
        assert(s =~= body);
        if s.len() > 0 && s[0] == '-' {
            assert(is_digit(body[0]) || body[0] == '.') by {
                let ds = spec_digits((mag / (SCALE_FACTOR as int)) as nat);
                assert(body[0] == ds[0]);
                assert(is_digit(ds[0]));
            }
            assert(false);
        }
    } else {
        assert(s =~= seq!['-'] + body);
        assert(s[0] == '-');
        assert(s.drop_first() =~= body);
        assert(spec_parse_mag(s.drop_first()) == Some(mag));
    }
}

/// Round trip for quantities: formatting any quantity in range and parsing
/// it back returns exactly that quantity.
pub proof fn lemma_parse_format_quantity_round_trip(q: int)
    requires
        0 <= q <= u64::MAX,
    ensures
        spec_parse_quantity(spec_format_quantity(q)) == Some(q),
{
    lemma_mag_round_trip(q);
    let s = spec_format_quantity(q);
    lemma_spec_digits_props((q / (SCALE_FACTOR as int)) as nat);
    if s.len() > 0 && s[0] == '-' {
        let ds = spec_digits((q / (SCALE_FACTOR as int)) as nat);
        assert(s[0] == ds[0]);
        assert(is_digit(ds[0]));
        assert(false);
    }
}

/// Decode one wire price/quantity pair to integer units.
pub fn parse_level(price_s: &str, qty_s: &str) -> (r: Result<(i64, u64), FixedPointError>)
    ensures
        match r {
            Ok(pq) => spec_parse(price_s@) == Some(pq.0 as int) && spec_parse_quantity(qty_s@)
                == Some(pq.1 as int),
            Err(e) => e == FixedPointError::MalformedNumber && (spec_parse(price_s@) is None
                || spec_parse_quantity(qty_s@) is None),
        },
{
    let p = match parse_price(price_s) {
        Ok(p) => p,
        Err(e) => {
            return Err(e);
        },
    };
    let q = match parse_quantity(qty_s) {
        Ok(q) => q,
        Err(e) => {
            return Err(e);
        },
    };
    Ok((p, q))
}

/// Decode a whole list of wire price/quantity pairs, as a depth message
/// carries them. One malformed number rejects the entire list.
pub fn parse_levels(pairs: &Vec<(String, String)>) -> (r: Result<
    Vec<(i64, u64)>,
    FixedPointError,
>)
    ensures
        match r {
            Ok(v) => v@.len() == pairs@.len() && (forall|i: int|
                0 <= i < v@.len() ==> spec_parse(pairs@[i].0@) == Some((#[trigger] v@[i]).0 as int)
                    && spec_parse_quantity(pairs@[i].1@) == Some(v@[i].1 as int)),
            Err(e) => e == FixedPointError::MalformedNumber && (exists|i: int|
                0 <= i < pairs@.len() && (spec_parse((#[trigger] pairs@[i]).0@) is None
                    || spec_parse_quantity(pairs@[i].1@) is None)),
        },
{
    let mut out: Vec<(i64, u64)> = Vec::new();
    let mut i: usize = 0;
    while i < pairs.len()
        invariant
            i <= pairs@.len(),
            out@.len() == i,
            forall|k: int|
                0 <= k < i ==> spec_parse(pairs@[k].0@) == Some((#[trigger] out@[k]).0 as int)
                    && spec_parse_quantity(pairs@[k].1@) == Some(out@[k].1 as int),
        decreases pairs@.len() - i,
    {
        let pq = match parse_level(pairs[i].0.as_str(), pairs[i].1.as_str()) {
            Ok(pq) => pq,
            Err(e) => {
                return Err(e);
            },
        };
        out.push(pq);
        i = i + 1;
    }
    Ok(out)
}

/// The shortest decimal spelling of an unsigned scaled integer.
pub open spec fn spec_format_quantity(q: int) -> Seq<char> {
    let whole = q / (SCALE_FACTOR as int);
    let fr = q % (SCALE_FACTOR as int);
    if fr == 0 {
        spec_digits(whole as nat)
    } else {
        spec_digits(whole as nat) + seq!['.'] + trim_zeros(spec_padded(fr, SCALE as nat))
    }
}

} // verus!
