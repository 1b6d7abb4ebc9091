use vstd::prelude::*;

verus! {

/// The decimal digit `d` as a character.
pub open spec fn digit_char(d: nat) -> char {
    if d == 0 {
        '0'
    } else if d == 1 {
        '1'
    } else if d == 2 {
        '2'
    } else if d == 3 {
        '3'
    } else if d == 4 {
        '4'
    } else if d == 5 {
        '5'
    } else if d == 6 {
        '6'
    } else if d == 7 {
        '7'
    } else if d == 8 {
        '8'
    } else {
        '9'
    }
}

/// `n` written in decimal, without leading zeros.
pub open spec fn decimal(n: nat) -> Seq<char>
    decreases n,
{
    if n < 10 {
        seq![digit_char(n)]
    } else {
        decimal(n / 10).push(digit_char(n % 10))
    }
}

/// `n` (below 100) as exactly two digits.
pub open spec fn two_digits(n: nat) -> Seq<char> {
    seq![digit_char(n / 10), digit_char(n % 10)]
}

/// `n` (below 1000) as exactly three digits.
pub open spec fn three_digits(n: nat) -> Seq<char> {
    seq![digit_char(n / 100), digit_char((n / 10) % 10), digit_char(n % 10)]
}

/// A count of nanoseconds for a reader: whole nanoseconds below one
/// microsecond; microseconds or milliseconds with two decimals, rounded half
/// up; from one second on, seconds with three decimals, rounded half up.
pub open spec fn duration_text(ns: u64) -> Seq<char> {
    if ns < 1_000 {
        decimal(ns as nat) + "ns"@
    } else if ns < 1_000_000 {
        let h = (ns as nat + 5) / 10;
        decimal(h / 100) + seq!['.'] + two_digits(h % 100) + "\u{b5}s"@
    } else if ns < 1_000_000_000 {
        let h = (ns as nat + 5_000) / 10_000;
        decimal(h / 100) + seq!['.'] + two_digits(h % 100) + "ms"@
    } else {
        let t = (ns as nat + 500_000) / 1_000_000;
        decimal(t / 1000) + seq!['.'] + three_digits(t % 1000) + "s"@
    }
}

/// The value, in nanoseconds, that `duration_text` shows for `ns`: the
/// rounded number times its unit.
pub open spec fn shown_ns(ns: u64) -> nat {
    if ns < 1_000 {
        ns as nat
    } else if ns < 1_000_000 {
        ((ns as nat + 5) / 10) * 10
    } else if ns < 1_000_000_000 {
        ((ns as nat + 5_000) / 10_000) * 10_000
    } else {
        ((ns as nat + 500_000) / 1_000_000) * 1_000_000
    }
}

/// Rounding to a multiple of `u` keeps the order.
proof fn lemma_round_ordered(x: nat, y: nat, u: nat)
    requires
        x <= y,
        u > 0,
    ensures
        ((x + u / 2) / u) * u <= ((y + u / 2) / u) * u,
{
    vstd::arithmetic::div_mod::lemma_div_is_ordered((x + u / 2) as int, (y + u / 2) as int, u as int);
    vstd::arithmetic::mul::lemma_mul_inequality(((x + u / 2) / u) as int, ((y + u / 2) / u) as int, u as int);
}

/// Where each unit's shown values lie: below 1000, then [1000, 10^6], then
/// [10^6, 10^9], then from 10^9 on.
proof fn lemma_shown_bands(ns: u64)
    ensures
        ns < 1_000 ==> shown_ns(ns) < 1_000,
        1_000 <= ns < 1_000_000 ==> 1_000 <= shown_ns(ns) <= 1_000_000,
        1_000_000 <= ns < 1_000_000_000 ==> 1_000_000 <= shown_ns(ns) <= 1_000_000_000,
        1_000_000_000 <= ns ==> 1_000_000_000 <= shown_ns(ns),
{
    if 1_000 <= ns < 1_000_000 {
        lemma_round_ordered(1_000, ns as nat, 10);
        lemma_round_ordered(ns as nat, 999_999, 10);
    } else if 1_000_000 <= ns < 1_000_000_000 {
        lemma_round_ordered(1_000_000, ns as nat, 10_000);
        lemma_round_ordered(ns as nat, 999_999_999, 10_000);
    } else if 1_000_000_000 <= ns {
        lemma_round_ordered(1_000_000_000, ns as nat, 1_000_000);
    }
}

/// A longer duration never shows as a smaller value, across unit boundaries
/// too (999 ns shows as 999, 1000 ns as 1.00 microseconds).
pub proof fn lemma_shown_monotonic(a: u64, b: u64)
    requires
        a <= b,
    ensures
        shown_ns(a) <= shown_ns(b),
{
    lemma_shown_bands(a);
    lemma_shown_bands(b);
    if 1_000 <= a && b < 1_000_000 {
        lemma_round_ordered(a as nat, b as nat, 10);
    } else if 1_000_000 <= a && b < 1_000_000_000 {
        lemma_round_ordered(a as nat, b as nat, 10_000);
    } else if 1_000_000_000 <= a {
        lemma_round_ordered(a as nat, b as nat, 1_000_000);
    }
}

/// The text of a duration is the shown value written in its unit: the whole
/// units, a point, and two (three for seconds) decimals.
pub proof fn lemma_duration_text_shows(ns: u64)
    ensures
        ns < 1_000 ==> duration_text(ns) == decimal(shown_ns(ns)) + "ns"@,
        1_000 <= ns < 1_000_000 ==> duration_text(ns) == decimal(shown_ns(ns) / 1_000) + seq!['.']
            + two_digits((shown_ns(ns) / 10) % 100) + "\u{b5}s"@,
        1_000_000 <= ns < 1_000_000_000 ==> duration_text(ns) == decimal(shown_ns(ns) / 1_000_000)
            + seq!['.'] + two_digits((shown_ns(ns) / 10_000) % 100) + "ms"@,
        1_000_000_000 <= ns ==> duration_text(ns) == decimal(shown_ns(ns) / 1_000_000_000) + seq![
            '.',
        ] + three_digits((shown_ns(ns) / 1_000_000) % 1000) + "s"@,
{
    let h1 = (ns as nat + 5) / 10;
    let h2 = (ns as nat + 5_000) / 10_000;
    let t = (ns as nat + 500_000) / 1_000_000;
    assert((h1 * 10) / 1_000 == h1 / 100 && (h1 * 10) / 10 == h1) by (nonlinear_arith);
    assert((h2 * 10_000) / 1_000_000 == h2 / 100 && (h2 * 10_000) / 10_000 == h2) by (nonlinear_arith);
    assert((t * 1_000_000) / 1_000_000_000 == t / 1000 && (t * 1_000_000) / 1_000_000 == t)
        by (nonlinear_arith);
}

/// What stands in markup for one character: `&`, `<`, `>` and `"` become
/// entities, any other character stays.
pub open spec fn escape_char(c: char) -> Seq<char> {
    if c == '&' {
        "&amp;"@
    } else if c == '<' {
        "&lt;"@
    } else if c == '>' {
        "&gt;"@
    } else if c == '"' {
        "&quot;"@
    } else {
        seq![c]
    }
}

/// `s` with each character replaced by its markup form.
pub open spec fn escaped(s: Seq<char>) -> Seq<char>
    decreases s.len(),
{
    if s.len() == 0 {
        Seq::empty()
    } else {
        escaped(s.drop_last()) + escape_char(s[s.len() - 1])
    }
}

/// A path separator: forward or back slash.
pub open spec fn is_separator(c: char) -> bool {
    c == '/' || c == '\\'
}

/// The position just after the last separator of `p`, or 0 without one.
pub open spec fn base_start(p: Seq<char>) -> int
    decreases p.len(),
{
    if p.len() == 0 {
        0
    } else if is_separator(p[p.len() - 1]) {
        p.len() as int
    } else {
        base_start(p.drop_last())
    }
}

/// The last component of a path: what follows its last separator, or the
/// whole path without one.
pub open spec fn basename(p: Seq<char>) -> Seq<char> {
    p.subrange(base_start(p), p.len() as int)
}

/// Relies on `String::push`: appends one character.
#[verifier::external_body]
pub(crate) fn push_char(s: &mut String, c: char)
    ensures
        final(s)@ == old(s)@.push(c),
{
    s.push(c);
}

fn digit(d: u64) -> (c: char)
    requires
        d < 10,
    ensures
        c == digit_char(d as nat),
{
    if d == 0 {
        '0'
    } else if d == 1 {
        '1'
    } else if d == 2 {
        '2'
    } else if d == 3 {
        '3'
    } else if d == 4 {
        '4'
    } else if d == 5 {
        '5'
    } else if d == 6 {
        '6'
    } else if d == 7 {
        '7'
    } else if d == 8 {
        '8'
    } else {
        '9'
    }
}

/// Appends `n` in decimal.
pub fn push_decimal(out: &mut String, n: u64)
    ensures
        final(out)@ == old(out)@ + decimal(n as nat),
    decreases n,
{
    if n >= 10 {
        push_decimal(out, n / 10);
    }
    push_char(out, digit(n % 10));
    proof {
        if n >= 10 {
            assert(old(out)@ + decimal(n as nat) =~= old(out)@ + decimal((n / 10) as nat) + seq![
                digit_char((n % 10) as nat),
            ]);
        } else {
            assert(old(out)@ + decimal(n as nat) =~= old(out)@.push(digit_char(n as nat)));
        }
    }
}

/// Appends `whole`, a point and `frac` padded to `width` digits (2 or 3).
fn push_fixed(out: &mut String, whole: u64, frac: u64, width: u64)
    requires
        width == 2 && frac < 100 || width == 3 && frac < 1000,
    ensures
        final(out)@ == old(out)@ + decimal(whole as nat) + seq!['.'] + (if width == 2 {
            two_digits(frac as nat)
        } else {
            three_digits(frac as nat)
        }),
{
    push_decimal(out, whole);
    push_char(out, '.');
    if width == 3 {
        push_char(out, digit(frac / 100));
    }
    push_char(out, digit((frac / 10) % 10));
    push_char(out, digit(frac % 10));
    assert(final(out)@ =~= old(out)@ + decimal(whole as nat) + seq!['.'] + (if width == 2 {
        two_digits(frac as nat)
    } else {
        three_digits(frac as nat)
    }));
}

/// A duration or timestamp in nanoseconds, in the unit that suits it.
pub fn format_duration(ns: u64) -> (r: String)
    ensures
        r@ == duration_text(ns),
{
    let mut r = String::new();
    if ns < 1_000 {
        push_decimal(&mut r, ns);
        r.append("ns");
    } else if ns < 1_000_000 {
        let h = (ns + 5) / 10;
        push_fixed(&mut r, h / 100, h % 100, 2);
        r.append("\u{b5}s");
    } else if ns < 1_000_000_000 {
        let h = (ns + 5_000) / 10_000;
        push_fixed(&mut r, h / 100, h % 100, 2);
        r.append("ms");
    } else {
        let t = ns / 1_000_000 + if ns % 1_000_000 >= 500_000 {
            1
        } else {
            0
        };
        assert(t == (ns as nat + 500_000) / 1_000_000);
        push_fixed(&mut r, t / 1000, t % 1000, 3);
        r.append("s");
    }
    assert(r@ =~= duration_text(ns));
    r
}

/// `s` with `&`, `<`, `>` and `"` replaced by their entities.
pub fn html_escape(s: &str) -> (r: String)
    ensures
        r@ == escaped(s@),
{
    let n = s.unicode_len();
    let mut r = String::new();
    let mut i: usize = 0;
    assert(s@.take(0) =~= Seq::<char>::empty());
    while i < n
        invariant
            n == s@.len(),
            i <= n,
            r@ == escaped(s@.take(i as int)),
        decreases n - i,
    {
        let c = s.get_char(i);
        assert(s@.take(i + 1).drop_last() =~= s@.take(i as int));
        if c == '&' {
            r.append("&amp;");
        } else if c == '<' {
            r.append("&lt;");
        } else if c == '>' {
            r.append("&gt;");
        } else if c == '"' {
            r.append("&quot;");
        } else {
            push_char(&mut r, c);
        }
        i += 1;
    }
    assert(s@.take(n as int) =~= s@);
    r
}

fn is_separator_char(c: char) -> (r: bool)
    ensures
        r == is_separator(c),
{
    c == '/' || c == '\\'
}

/// The last component of a file path, after its last forward or back slash;
/// the whole path where it has none.
pub fn short_path(file_path: &str) -> (r: &str)
    ensures
        r@ == basename(file_path@),
{
    let n = file_path.unicode_len();
    let mut k: usize = n;
    assert(file_path@.take(n as int) =~= file_path@);
    while k > 0 && !is_separator_char(file_path.get_char(k - 1))
        invariant
            n == file_path@.len(),
            k <= n,
            base_start(file_path@) == base_start(file_path@.take(k as int)),
        decreases k,
    {
        assert(file_path@.take(k as int).drop_last() =~= file_path@.take(k - 1));
        k -= 1;
    }
    file_path.substring_char(k, n)
}

} // verus!
