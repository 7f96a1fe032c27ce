//! Character-level reading and writing: fields, numbers, hex digits.
use vstd::prelude::*;
use vstd::string::*;
use crate::ratio::{abs, Ratio};

verus! {

/// Relies on `String::push`: the character is appended at the end.
#[verifier::external_body]
pub(crate) fn push_char(s: &mut String, c: char)
    ensures
        final(s)@ == old(s)@.push(c),
{
    s.push(c);
}

/// The characters of `s`, in order.
pub fn chars_of(s: &str) -> (r: Vec<char>)
    ensures
        r@ == s@,
{
    let n = s.unicode_len();
    let mut r: Vec<char> = Vec::new();
    let mut i: usize = 0;
    while i < n
        invariant
            n == s@.len(),
            i <= n,
            r@ == s@.subrange(0, i as int),
        decreases n - i,
    {
        r.push(s.get_char(i));
        i = i + 1;
    }
    assert(r@ =~= s@);
    r
}

/// Unicode `White_Space`, the set that `str::trim` removes.
pub open spec fn is_space(c: char) -> bool {
    let u = c as u32;
    (9 <= u <= 13) || u == 32 || u == 0x85 || u == 0xA0 || u == 0x1680 || (0x2000 <= u <= 0x200A)
        || u == 0x2028 || u == 0x2029 || u == 0x202F || u == 0x205F || u == 0x3000
}

fn space(c: char) -> (r: bool)
    ensures
        r == is_space(c),
{
    let u = c as u32;
    (9 <= u && u <= 13) || u == 32 || u == 0x85 || u == 0xA0 || u == 0x1680 || (0x2000 <= u && u
        <= 0x200A) || u == 0x2028 || u == 0x2029 || u == 0x202F || u == 0x205F || u == 0x3000
}

/// `s` without its leading and trailing white space.
pub open spec fn trim(s: Seq<char>) -> Seq<char>
    decreases s.len(),
{
    if s.len() == 0 {
        s
    } else if is_space(s[0]) {
        trim(s.drop_first())
    } else if is_space(s.last()) {
        trim(s.drop_last())
    } else {
        s
    }
}

/// The pieces of `s` between commas; one piece more than there are commas.
pub open spec fn split_commas(s: Seq<char>) -> Seq<Seq<char>>
    decreases s.len(),
{
    if s.len() == 0 {
        seq![Seq::<char>::empty()]
    } else {
        let rest = split_commas(s.drop_last());
        if s.last() == ',' {
            rest.push(Seq::<char>::empty())
        } else {
            rest.update(rest.len() - 1, rest.last().push(s.last()))
        }
    }
}

proof fn lemma_split_nonempty(s: Seq<char>)
    ensures
        split_commas(s).len() >= 1,
    decreases s.len(),
{
    if s.len() > 0 {
        lemma_split_nonempty(s.drop_last());
    }
}

/// The trimmed pieces of `s` between commas.
pub fn split_fields(s: &Vec<char>) -> (r: Vec<Vec<char>>)
    ensures
        r@.len() == split_commas(s@).len(),
        forall|j: int| 0 <= j < r@.len() ==> #[trigger] r@[j]@ == trim(split_commas(s@)[j]),
{
    let mut done: Vec<Vec<char>> = Vec::new();
    let mut cur: Vec<char> = Vec::new();
    let mut i: usize = 0;
    while i < s.len()
        invariant
            i <= s@.len(),
            split_commas(s@.subrange(0, i as int)).len() == done@.len() + 1,
            forall|j: int|
                0 <= j < done@.len() ==> #[trigger] done@[j]@ == split_commas(
                    s@.subrange(0, i as int),
                )[j],
            cur@ == split_commas(s@.subrange(0, i as int)).last(),
        decreases s@.len() - i,
    {
        let c = s[i];
        proof {
            let p = s@.subrange(0, i as int + 1);
            assert(p.drop_last() =~= s@.subrange(0, i as int));
            assert(p.last() == c);
            lemma_split_nonempty(s@.subrange(0, i as int));
        }
        if c == ',' {
            let piece = cur;
            done.push(piece);
            cur = Vec::new();
            proof {
                assert(cur@ =~= Seq::<char>::empty());
            }
        } else {
            cur.push(c);
        }
        i = i + 1;
    }
    proof {
        assert(s@.subrange(0, s@.len() as int) =~= s@);
    }
    done.push(cur);
    let mut r: Vec<Vec<char>> = Vec::new();
    let mut k: usize = 0;
    while k < done.len()
        invariant
            k <= done@.len(),
            done@.len() == split_commas(s@).len(),
            forall|j: int| 0 <= j < done@.len() ==> #[trigger] done@[j]@ == split_commas(s@)[j],
            r@.len() == k,
            forall|j: int| 0 <= j < k ==> #[trigger] r@[j]@ == trim(split_commas(s@)[j]),
        decreases done@.len() - k,
    {
        let t = trimmed(&done[k]);
        r.push(t);
        k = k + 1;
    }
    r
}

/// `s` without its leading and trailing white space.
pub fn trimmed(s: &Vec<char>) -> (r: Vec<char>)
    ensures
        r@ == trim(s@),
{
    let mut lo: usize = 0;
    let mut hi: usize = s.len();
    assert(s@.subrange(0, s@.len() as int) =~= s@);
    while lo < hi && (space(s[lo]) || space(s[hi - 1]))
        invariant
            lo <= hi <= s@.len(),
            trim(s@) == trim(s@.subrange(lo as int, hi as int)),
        decreases hi - lo,
    {
        let ghost w = s@.subrange(lo as int, hi as int);
        if space(s[lo]) {
            assert(w.drop_first() =~= s@.subrange(lo as int + 1, hi as int));
            lo = lo + 1;
        } else {
            assert(w.drop_last() =~= s@.subrange(lo as int, hi as int - 1));
            hi = hi - 1;
        }
    }
    let mut r: Vec<char> = Vec::new();
    let mut i: usize = lo;
    while i < hi
        invariant
            lo <= i <= hi <= s@.len(),
            r@ == s@.subrange(lo as int, i as int),
        decreases hi - i,
    {
        r.push(s[i]);
        i = i + 1;
    }
    r
}

pub open spec fn is_digit(c: char) -> bool {
    48 <= c as u32 <= 57
}

pub open spec fn all_digits(s: Seq<char>) -> bool {
    forall|i: int| 0 <= i < s.len() ==> is_digit(#[trigger] s[i])
}

/// The number that the decimal digits `s` spell (0 for no digits).
pub open spec fn digits_value(s: Seq<char>) -> int
    decreases s.len(),
{
    if s.len() == 0 {
        0
    } else {
        digits_value(s.drop_last()) * 10 + (s.last() as u32 - 48)
    }
}

pub open spec fn pow10(n: nat) -> int
    decreases n,
{
    if n == 0 {
        1
    } else {
        10 * pow10((n - 1) as nat)
    }
}

/// Index of the first `.` of `s`, or its length where it has none.
pub open spec fn dot_index(s: Seq<char>) -> int
    decreases s.len(),
{
    if s.len() == 0 || s[0] == '.' {
        0
    } else {
        1 + dot_index(s.drop_first())
    }
}

/// Numbers read from text are held in millionths.
pub const NUMBER_SCALE: i128 = 1000000;

/// Largest magnitude, in millionths, of a number read from text; a larger
/// one is held at this bound.
pub const NUMBER_CAP: i128 = 999999999;

/// Index of the first `e` or `E` of `s`, or its length where it has none.
pub open spec fn exp_index(s: Seq<char>) -> int
    decreases s.len(),
{
    if s.len() == 0 || s[0] == 'e' || s[0] == 'E' {
        0
    } else {
        1 + exp_index(s.drop_first())
    }
}

/// Value of digit `i` of `d`, and 0 outside `d`.
pub open spec fn digit_at(d: Seq<char>, i: int) -> int {
    if 0 <= i < d.len() {
        d[i] as u32 - 48
    } else {
        0
    }
}

/// The number that the first `n` digits of `d` spell, `d` padded with zeros
/// on the right (0 for `n <= 0`).
pub open spec fn prefix_value(d: Seq<char>, n: int) -> int
    decreases n,
{
    if n <= 0 {
        0
    } else {
        prefix_value(d, n - 1) * 10 + digit_at(d, n - 1)
    }
}

/// The digits `d` with a decimal point after the first `point` of them
/// (`point` may be negative or past the end), in millionths rounded to the
/// nearest (halves up), and held at `NUMBER_CAP`.
pub open spec fn millionths(d: Seq<char>, point: int) -> int {
    let n = point + 6;
    let v = prefix_value(d, n) + if digit_at(d, n) >= 5 {
        1int
    } else {
        0int
    };
    if v > NUMBER_CAP {
        NUMBER_CAP as int
    } else {
        v
    }
}

/// An exponent: an optional sign and at least one decimal digit.
pub open spec fn exponent_of(e: Seq<char>) -> Option<int> {
    let ds = if e.len() > 0 && (e[0] == '-' || e[0] == '+') {
        e.drop_first()
    } else {
        e
    };
    if ds.len() > 0 && all_digits(ds) {
        Some(
            if e[0] == '-' {
                -digits_value(ds)
            } else {
                digits_value(ds)
            },
        )
    } else {
        None
    }
}

/// The value `(numerator, NUMBER_SCALE)` of a number written as an optional
/// sign, decimal digits with an optional `.` among or around them (at least
/// one digit in all), and an optional exponent `e` or `E`; rounded to
/// millionths and held within `NUMBER_CAP` as `millionths` says.
pub open spec fn decimal_of(s: Seq<char>) -> Option<(int, int)> {
    let signed = s.len() > 0 && (s[0] == '-' || s[0] == '+');
    let body = if signed {
        s.drop_first()
    } else {
        s
    };
    let ei = exp_index(body);
    let mant = body.take(ei);
    let exp = if ei < body.len() {
        exponent_of(body.skip(ei + 1))
    } else {
        Some(0int)
    };
    let p = dot_index(mant);
    let ip = mant.take(p);
    let fp = if p < mant.len() {
        mant.skip(p + 1)
    } else {
        Seq::<char>::empty()
    };
    if all_digits(ip) && all_digits(fp) && ip.len() + fp.len() > 0 && exp is Some {
        let v = millionths(ip + fp, ip.len() + exp->0);
        Some(
            (
                if s[0] == '-' {
                    -v
                } else {
                    v
                },
                NUMBER_SCALE as int,
            ),
        )
    } else {
        None
    }
}

proof fn lemma_dot_index(s: Seq<char>, p: int)
    requires
        0 <= p <= s.len(),
        forall|k: int| 0 <= k < p ==> s[k] != '.',
        p == s.len() || s[p] == '.',
    ensures
        dot_index(s) == p,
    decreases s.len(),
{
    if s.len() > 0 && s[0] != '.' {
        let t = s.drop_first();
        assert forall|k: int| 0 <= k < p - 1 implies t[k] != '.' by {
            assert(s[k + 1] != '.');
        }
        lemma_dot_index(t, p - 1);
    }
}

pub proof fn lemma_exp_index_bounds(s: Seq<char>)
    ensures
        0 <= exp_index(s) <= s.len(),
    decreases s.len(),
{
    if s.len() > 0 && s[0] != 'e' && s[0] != 'E' {
        lemma_exp_index_bounds(s.drop_first());
    }
}

pub proof fn lemma_exp_index(s: Seq<char>, p: int)
    requires
        0 <= p <= s.len(),
        forall|k: int| 0 <= k < p ==> s[k] != 'e' && s[k] != 'E',
        p == s.len() || s[p] == 'e' || s[p] == 'E',
    ensures
        exp_index(s) == p,
    decreases s.len(),
{
    if s.len() > 0 && s[0] != 'e' && s[0] != 'E' {
        let t = s.drop_first();
        assert forall|k: int| 0 <= k < p - 1 implies t[k] != 'e' && t[k] != 'E' by {
            assert(s[k + 1] != 'e' && s[k + 1] != 'E');
        }
        lemma_exp_index(t, p - 1);
    }
}

proof fn lemma_digits_nonneg(s: Seq<char>)
    requires
        all_digits(s),
    ensures
        digits_value(s) >= 0,
    decreases s.len(),
{
    if s.len() > 0 {
        assert(all_digits(s.drop_last())) by {
            assert forall|i: int| 0 <= i < s.len() - 1 implies is_digit(#[trigger] s.drop_last()[i]) by {
                assert(is_digit(s[i]));
            }
        }
        lemma_digits_nonneg(s.drop_last());
        assert(is_digit(s[s.len() - 1]));
    }
}

proof fn lemma_prefix_nonneg(d: Seq<char>, n: int)
    requires
        all_digits(d),
    ensures
        prefix_value(d, n) >= 0,
    decreases n,
{
    if n > 0 {
        lemma_prefix_nonneg(d, n - 1);
        if 0 <= n - 1 < d.len() {
            assert(is_digit(d[n - 1]));
        }
    }
}

proof fn lemma_pow10_grows(k: nat)
    ensures
        pow10(k) >= 1,
        k >= 10 ==> pow10(k) >= 10000000000,
    decreases k,
{
    if k > 0 {
        lemma_pow10_grows((k - 1) as nat);
        if k == 10 {
            reveal_with_fuel(pow10, 11);
        }
    }
}

/// Past the end of `d`, each further place multiplies by ten.
proof fn lemma_prefix_tail(d: Seq<char>, k: nat)
    ensures
        prefix_value(d, d.len() + k as int) == prefix_value(d, d.len() as int) * pow10(k),
    decreases k,
{
    if k > 0 {
        lemma_prefix_tail(d, (k - 1) as nat);
        let a = prefix_value(d, d.len() as int);
        let q = pow10((k - 1) as nat);
        assert(prefix_value(d, d.len() + k as int) == prefix_value(d, d.len() + k as int - 1) * 10);
        assert((a * q) * 10 == a * (10 * q)) by (nonlinear_arith);
    }
}

/// Where the point lies ten or more places past the digits, the value is
/// either 0 or held at the cap, whatever the exact place.
proof fn lemma_millionths_far(d: Seq<char>, point: int)
    requires
        all_digits(d),
        point + 6 >= d.len() + 10,
    ensures
        millionths(d, point) == if prefix_value(d, d.len() as int) == 0 {
            0int
        } else {
            NUMBER_CAP as int
        },
{
    let k = (point + 6 - d.len()) as nat;
    lemma_prefix_tail(d, k);
    lemma_pow10_grows(k);
    lemma_prefix_nonneg(d, d.len() as int);
    let a = prefix_value(d, d.len() as int);
    let q = pow10(k);
    if a != 0 {
        assert(a * q >= q) by (nonlinear_arith)
            requires
                a >= 1,
                q >= 1,
        ;
    } else {
        assert(a * q == 0) by (nonlinear_arith)
            requires
                a == 0,
        ;
    }
}

/// Holding the exponent at `cap`, twenty places past the digits, leaves the
/// value unchanged.
proof fn lemma_capped_exponent(d: Seq<char>, before: int, exact: int, e: int, cap: int)
    requires
        all_digits(d),
        0 <= before <= d.len(),
        cap == d.len() + 20,
        (e == exact && -cap < exact < cap) || (e == cap && exact >= cap) || (e == -cap && exact
            <= -cap),
    ensures
        millionths(d, before + e) == millionths(d, before + exact),
{
    if e != exact && e > 0 {
        lemma_millionths_far(d, before + e);
        lemma_millionths_far(d, before + exact);
    }
}

/// The number that the digits `d` spell, held at `cap`, where they are all
/// decimal digits.
fn read_capped(d: &Vec<char>, cap: i128) -> (r: Option<i128>)
    requires
        0 < cap <= 0x1_0000_0000_0000_0000_0000_0000,
    ensures
        r is Some <==> all_digits(d@),
        r is Some ==> 0 <= r->0 <= cap,
        r is Some ==> r->0 == if digits_value(d@) < cap {
            digits_value(d@)
        } else {
            cap as int
        },
{
    let mut v: i128 = 0;
    let mut big = false;
    let mut j: usize = 0;
    while j < d.len()
        invariant
            0 < cap <= 0x1_0000_0000_0000_0000_0000_0000,
            j <= d@.len(),
            forall|k: int| 0 <= k < j ==> is_digit(#[trigger] d@[k]),
            !big ==> v == digits_value(d@.take(j as int)) && 0 <= v < cap,
            big ==> digits_value(d@.take(j as int)) >= cap && v == cap,
        decreases d@.len() - j,
    {
        let c = d[j];
        let u = c as u32;
        if !(u >= 48 && u <= 57) {
            assert(!is_digit(d@[j as int]));
            return None;
        }
        proof {
            assert(d@.take(j + 1).drop_last() =~= d@.take(j as int));
            assert(all_digits(d@.take(j as int)));
            lemma_digits_nonneg(d@.take(j as int));
        }
        if !big {
            v = v * 10 + (u - 48) as i128;
            if v >= cap {
                big = true;
                v = cap;
            }
        }
        j = j + 1;
    }
    assert(d@.take(d@.len() as int) =~= d@);
    Some(v)
}

/// `millionths(d, point)`, computed.
fn round_millionths(d: &Vec<char>, point: i128) -> (r: i128)
    requires
        all_digits(d@),
        -0x1_0000_0000_0000_0000_0000 <= point <= 0x1_0000_0000_0000_0000_0000,
        point + 6 <= 3 * d@.len() + 100,
    ensures
        r == millionths(d@, point as int),
        0 <= r <= NUMBER_CAP,
{
    let big: i128 = 10000000000;
    let n: i128 = point + 6;
    let mut acc: i128 = 0;
    let mut i: i128 = 0;
    while i < n
        invariant
            all_digits(d@),
            n == point + 6,
            0 <= i,
            i <= n || i == 0,
            big == 10000000000,
            acc == if prefix_value(d@, i as int) < big {
                prefix_value(d@, i as int)
            } else {
                big as int
            },
        decreases n - i,
    {
        let dig: i128 = if i < d.len() as i128 {
            proof {
                assert(is_digit(d@[i as int]));
            }
            (d[i as usize] as u32 - 48) as i128
        } else {
            0
        };
        proof {
            lemma_prefix_nonneg(d@, i as int);
            assert(dig == digit_at(d@, i as int));
            assert(prefix_value(d@, i + 1) == prefix_value(d@, i as int) * 10 + dig);
        }
        if acc < big {
            acc = acc * 10 + dig;
            if acc >= big {
                acc = big;
            }
        }
        i = i + 1;
    }
    proof {
        if n <= 0 {
            assert(prefix_value(d@, n as int) == 0);
        } else {
            assert(i == n);
        }
    }
    let rd: i128 = if 0 <= n && n < d.len() as i128 {
        proof {
            assert(is_digit(d@[n as int]));
        }
        if (d[n as usize] as u32) >= 53 {
            1
        } else {
            0
        }
    } else {
        0
    };
    proof {
        lemma_prefix_nonneg(d@, n as int);
    }
    let v: i128 = acc + rd;
    if v > NUMBER_CAP {
        NUMBER_CAP
    } else {
        v
    }
}

/// Reads the exponent `s[from..]` (see `exponent_of`), held within `cap`
/// either way.
fn read_exponent(s: &Vec<char>, from: usize, cap: i128) -> (r: Option<i128>)
    requires
        from <= s@.len(),
        0 < cap <= 0x1_0000_0000_0000_0000_0000_0000,
    ensures
        r is Some <==> exponent_of(s@.subrange(from as int, s@.len() as int)) is Some,
        r is Some ==> {
            let x = exponent_of(s@.subrange(from as int, s@.len() as int))->0;
            ||| r->0 == x && -cap < x < cap
            ||| r->0 == cap && x >= cap
            ||| r->0 == -cap && x <= -cap
        },
{
    let ghost ex = s@.subrange(from as int, s@.len() as int);
    let signed = from < s.len() && (s[from] == '-' || s[from] == '+');
    let es: usize = if signed {
        from + 1
    } else {
        from
    };
    let mut edigs: Vec<char> = Vec::new();
    let mut k: usize = es;
    while k < s.len()
        invariant
            es <= k <= s@.len(),
            edigs@ == s@.subrange(es as int, k as int),
        decreases s@.len() - k,
    {
        edigs.push(s[k]);
        k = k + 1;
    }
    let ghost ds = if ex.len() > 0 && (ex[0] == '-' || ex[0] == '+') {
        ex.drop_first()
    } else {
        ex
    };
    assert(edigs@ =~= ds);
    if edigs.len() == 0 {
        return None;
    }
    match read_capped(&edigs, cap) {
        None => None,
        Some(x) => {
            proof {
                lemma_digits_nonneg(ds);
            }
            if s[from] == '-' {
                Some(-x)
            } else {
                Some(x)
            }
        },
    }
}

/// The digits of the mantissa `m = s[st..ei]` on both sides of its first
/// point, and how many stand before it; `None` where either side holds
/// anything but digits or both are empty.
fn mantissa_digits(s: &Vec<char>, st: usize, ei: usize) -> (r: Option<(Vec<char>, usize)>)
    requires
        st <= ei <= s@.len(),
    ensures
        ({
            let m = s@.subrange(st as int, ei as int);
            let p = dot_index(m);
            let ip = m.take(p);
            let fp = if p < m.len() {
                m.skip(p + 1)
            } else {
                Seq::<char>::empty()
            };
            &&& r is Some <==> all_digits(ip) && all_digits(fp) && ip.len() + fp.len() > 0
            &&& match r {
                Some((digits, before)) => digits@ == ip + fp && before == ip.len(),
                None => true,
            }
        }),
{
    let ghost mant = s@.subrange(st as int, ei as int);
    let mut p: usize = st;
    while p < ei && s[p] != '.'
        invariant
            st <= p <= ei <= s@.len(),
            forall|k: int| st <= k < p ==> s@[k] != '.',
        decreases ei - p,
    {
        p = p + 1;
    }
    proof {
        lemma_dot_index(mant, p - st);
    }
    let ghost ip = mant.take(p - st);
    let ghost fp = if p < ei {
        mant.skip(p - st + 1)
    } else {
        Seq::<char>::empty()
    };
    let mut digs: Vec<char> = Vec::new();
    let mut i: usize = st;
    while i < ei
        invariant
            st <= i <= ei,
            st <= p <= ei <= s@.len(),
            i <= p ==> digs@ == s@.subrange(st as int, i as int),
            i > p ==> digs@ == s@.subrange(st as int, p as int) + s@.subrange(p + 1, i as int),
        decreases ei - i,
    {
        if i != p {
            digs.push(s[i]);
        }
        i = i + 1;
    }
    assert(digs@ =~= ip + fp);
    if digs.len() == 0 {
        return None;
    }
    if read_capped(&digs, 1).is_none() {
        proof {
            let k = choose|k: int| 0 <= k < digs@.len() && !is_digit(#[trigger] digs@[k]);
            if k < ip.len() {
                assert(ip[k] == digs@[k]);
            } else {
                assert(fp[k - ip.len()] == digs@[k]);
            }
        }
        return None;
    }
    proof {
        assert forall|k: int| 0 <= k < ip.len() implies is_digit(#[trigger] ip[k]) by {
            assert(digs@[k] == ip[k]);
        }
        assert forall|k: int| 0 <= k < fp.len() implies is_digit(#[trigger] fp[k]) by {
            assert(digs@[ip.len() + k] == fp[k]);
        }
    }
    Some((digs, p - st))
}

/// Reads a number in the notation of `decimal_of`.
#[verifier::rlimit(50)]
pub fn parse_decimal(s: &Vec<char>) -> (r: Option<Ratio>)
    ensures
        match decimal_of(s@) {
            Some(v) => r is Some && r->0.num == v.0 && r->0.den == v.1 && r->0.small() && r->0.den
                <= 1000000,
            None => r is None,
        },
{
    let ghost signed = s@.len() > 0 && (s@[0] == '-' || s@[0] == '+');
    let st: usize = if s.len() > 0 && (s[0] == '-' || s[0] == '+') {
        1
    } else {
        0
    };
    let ghost body = s@.skip(st as int);
    assert(body =~= if signed {
        s@.drop_first()
    } else {
        s@
    });
    // locate the exponent mark
    let mut ei: usize = st;
    while ei < s.len() && s[ei] != 'e' && s[ei] != 'E'
        invariant
            st <= ei <= s@.len(),
            forall|k: int| st <= k < ei ==> s@[k] != 'e' && s@[k] != 'E',
        decreases s@.len() - ei,
    {
        ei = ei + 1;
    }
    proof {
        lemma_exp_index(body, ei - st);
    }
    let ghost mant = body.take(ei - st);
    assert(mant =~= s@.subrange(st as int, ei as int));
    let (digs, ipl) = match mantissa_digits(s, st, ei) {
        Some(m) => m,
        None => {
            return None;
        },
    };
    let ghost p = st + dot_index(mant);
    let ghost ip = mant.take(p - st);
    let ghost fp = if p < ei {
        mant.skip(p - st + 1)
    } else {
        Seq::<char>::empty()
    };
    // the exponent, held at a bound past which the value no longer changes
    let cap: i128 = digs.len() as i128 + 20;
    let ghost ex = body.skip(ei - st + 1);
    let e: i128 = if ei < s.len() {
        assert(ex =~= s@.subrange(ei + 1, s@.len() as int));
        match read_exponent(s, ei + 1, cap) {
            Some(x) => x,
            None => {
                return None;
            },
        }
    } else {
        0
    };
    let ghost exact = if ei < s.len() {
        exponent_of(ex)->0
    } else {
        0int
    };
    let point: i128 = ipl as i128 + e;
    let v = round_millionths(&digs, point);
    proof {
        lemma_capped_exponent(digs@, ipl as int, exact, e as int, cap as int);
    }
    let num: i128 = if s[0] == '-' {
        -v
    } else {
        v
    };
    Some(Ratio { num, den: 1000000 })
}

/// Value of a hexadecimal digit of either case, or -1.
pub open spec fn hex_value(c: char) -> int {
    let u = c as u32;
    if 48 <= u <= 57 {
        u - 48
    } else if 65 <= u <= 70 {
        u - 55
    } else if 97 <= u <= 102 {
        u - 87
    } else {
        -1
    }
}

pub fn hex_digit(c: char) -> (r: Option<u8>)
    ensures
        hex_value(c) < 0 ==> r is None,
        hex_value(c) >= 0 ==> r == Some(hex_value(c) as u8),
{
    let u = c as u32;
    if 48 <= u && u <= 57 {
        Some((u - 48) as u8)
    } else if 65 <= u && u <= 70 {
        Some((u - 55) as u8)
    } else if 97 <= u && u <= 102 {
        Some((u - 87) as u8)
    } else {
        None
    }
}

/// Upper-case hexadecimal digit of `v` (`0 <= v < 16`).
pub open spec fn hex_char(v: int) -> char {
    if v < 10 {
        (v + 48) as char
    } else {
        (v + 55) as char
    }
}

/// Two upper-case hexadecimal digits of a byte.
pub open spec fn hex2(b: int) -> Seq<char> {
    seq![hex_char(b / 16), hex_char(b % 16)]
}

/// Decimal digits of `n`, without leading zeros.
pub open spec fn dec_text(n: nat) -> Seq<char>
    decreases n,
{
    if n < 10 {
        seq![(n + 48) as char]
    } else {
        dec_text(n / 10).push(((n % 10) + 48) as char)
    }
}

/// `v / 100` in decimal, with up to two fractional digits and no trailing
/// zero after the point (`v >= 0`).
pub open spec fn hundredths_text(v: nat) -> Seq<char> {
    let whole = dec_text(v / 100);
    let cents = v % 100;
    if cents == 0 {
        whole
    } else if cents % 10 == 0 {
        whole + seq!['.', ((cents / 10) + 48) as char]
    } else {
        whole + seq!['.', ((cents / 10) + 48) as char, ((cents % 10) + 48) as char]
    }
}

/// `n / d` rounded to the nearest hundredth (halves away from zero).
pub open spec fn round_hundredths(n: int, d: int) -> nat {
    ((200 * abs(n) + d) / (2 * d)) as nat
}

/// The value `n / d` as decimal text, rounded to hundredths, with a `-`
/// where the rounded value is below zero.
pub open spec fn number_text(n: int, d: int) -> Seq<char> {
    let v = round_hundredths(n, d);
    if n < 0 && v > 0 {
        seq!['-'] + hundredths_text(v)
    } else {
        hundredths_text(v)
    }
}

pub fn push_hex2(out: &mut String, b: u8)
    ensures
        final(out)@ == old(out)@ + hex2(b as int),
{
    let hi = b / 16;
    let lo = b % 16;
    let ch = if hi < 10 { (hi + 48) as char } else { (hi + 55) as char };
    let cl = if lo < 10 { (lo + 48) as char } else { (lo + 55) as char };
    push_char(out, ch);
    push_char(out, cl);
    assert(final(out)@ =~= old(out)@ + hex2(b as int));
}

pub fn push_dec(out: &mut String, n: u128)
    ensures
        final(out)@ == old(out)@ + dec_text(n as nat),
    decreases n,
{
    if n >= 10 {
        push_dec(out, n / 10);
    }
    let digit = ((n % 10) as u8 + 48) as char;
    push_char(out, digit);
    assert(final(out)@ =~= old(out)@ + dec_text(n as nat));
}

pub fn push_number(out: &mut String, n: i128, d: i128)
    requires
        0 < d <= 0x80_0000_0000_0000_0000_0000_0000_0000,
        -0x80_0000_0000_0000_0000_0000_0000_0000 <= n <= 0x80_0000_0000_0000_0000_0000_0000_0000,
    ensures
        final(out)@ == old(out)@ + number_text(n as int, d as int),
{
    let a: i128 = if n < 0 { -n } else { n };
    let v: i128 = (200 * a + d) / (2 * d);
    proof {
        vstd::arithmetic::div_mod::lemma_div_pos_is_pos((200 * a + d) as int, (2 * d) as int);
        vstd::arithmetic::div_mod::lemma_div_is_ordered_by_denominator((200 * a + d) as int, 1, (2 * d) as int);
    }
    let ghost before = old(out)@;
    if n < 0 && v > 0 {
        push_char(out, '-');
    }
    let ghost mid = out@;
    let vu = v as u128;
    push_dec(out, vu / 100);
    let cents = vu % 100;
    if cents != 0 {
        push_char(out, '.');
        push_char(out, ((cents / 10) as u8 + 48) as char);
        if cents % 10 != 0 {
            push_char(out, ((cents % 10) as u8 + 48) as char);
        }
    }
    assert(out@ =~= mid + hundredths_text(v as nat));
    assert(out@ =~= before + number_text(n as int, d as int));
}

} // verus!
