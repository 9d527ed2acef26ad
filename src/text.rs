use vstd::prelude::*;
use vstd::string::*;

verus! {

/// The index of the last `c` in `s`, or -1 where there is none.
pub open spec fn last_index_of(s: Seq<char>, c: char) -> int
    decreases s.len(),
{
    if s.len() == 0 {
        -1
    } else if s.last() == c {
        s.len() - 1
    } else {
        last_index_of(s.drop_last(), c)
    }
}

/// The last `c` lies within `s`, and nothing after it is a `c`.
pub proof fn lemma_last_index_of(s: Seq<char>, c: char)
    ensures
        -1 <= last_index_of(s, c) < s.len(),
        last_index_of(s, c) >= 0 ==> s[last_index_of(s, c)] == c,
        forall|j: int| last_index_of(s, c) < j < s.len() ==> s[j] != c,
    decreases s.len(),
{
    if s.len() > 0 && s.last() != c {
        let t = s.drop_last();
        lemma_last_index_of(t, c);
        assert forall|j: int| last_index_of(s, c) < j < s.len() implies s[j] != c by {
            if j < t.len() {
                assert(t[j] == s[j]);
            }
        }
    }
}

/// Finds the last `c` in `s`.
pub fn find_last(s: &str, c: char) -> (r: Option<usize>)
    ensures
        match r {
            Some(i) => last_index_of(s@, c) == i,
            None => last_index_of(s@, c) == -1,
        },
{
    let n = s.unicode_len();
    let mut found: Option<usize> = None;
    let mut i: usize = 0;
    assert(s@.take(0).len() == 0);
    while i < n
        invariant
            i <= n,
            n == s@.len(),
            match found {
                Some(k) => last_index_of(s@.take(i as int), c) == k,
                None => last_index_of(s@.take(i as int), c) == -1,
            },
        decreases n - i,
    {
        assert(s@.take(i + 1).drop_last() =~= s@.take(i as int));
        if s.get_char(i) == c {
            found = Some(i);
        }
        i += 1;
    }
    assert(s@.take(n as int) =~= s@);
    found
}

/// Whether two texts are equal.
pub fn same_text(a: &str, b: &str) -> (r: bool)
    ensures
        r == (a@ == b@),
{
    a.to_owned() == b.to_owned()
}

/// Whether `c` is a decimal digit.
pub open spec fn is_digit(c: char) -> bool {
    '0' <= c <= '9'
}

/// The value of the decimal digit `c`.
pub open spec fn digit_value(c: char) -> nat {
    (c as u32 - '0' as u32) as nat
}

/// Whether `s` is a nonempty run of decimal digits.
pub open spec fn all_digits(s: Seq<char>) -> bool {
    s.len() > 0 && forall|i: int| 0 <= i < s.len() ==> is_digit(#[trigger] s[i])
}

/// The value of the decimal numeral `s`.
pub open spec fn decimal_value(s: Seq<char>) -> nat
    decreases s.len(),
{
    if s.len() == 0 {
        0
    } else {
        decimal_value(s.drop_last()) * 10 + digit_value(s.last())
    }
}

/// Ten to the power of `n`.
pub open spec fn pow10(n: nat) -> nat
    decreases n,
{
    if n == 0 {
        1
    } else {
        10 * pow10((n - 1) as nat)
    }
}

/// The most digits that the whole part of a rating may have.
pub const MAX_WHOLE_DIGITS: usize = 15;

/// Hundredths given by the fraction digits `f`: the first two, the rest dropped.
pub open spec fn hundredths(f: Seq<char>) -> nat {
    if f.len() >= 2 {
        digit_value(f[0]) * 10 + digit_value(f[1])
    } else if f.len() == 1 {
        digit_value(f[0]) * 10
    } else {
        0
    }
}

/// A rating's text read in hundredths: `7`, `7.`, `7.5` and `7.50` give 700,
/// 700, 750 and 750, `.5` gives 50; digits past the second decimal are dropped.
/// Text that is not a decimal numeral (digits with an optional point, at least
/// one digit in all, at most `MAX_WHOLE_DIGITS` before the point) reads as 0,
/// the value of an unrated subtitle.
pub open spec fn rating_of(s: Seq<char>) -> nat {
    let d = last_index_of(s, '.');
    if d < 0 {
        if all_digits(s) && s.len() <= MAX_WHOLE_DIGITS {
            decimal_value(s) * 100
        } else {
            0
        }
    } else {
        let whole = s.take(d);
        let frac = s.skip(d + 1);
        if (whole.len() == 0 || all_digits(whole)) && whole.len() <= MAX_WHOLE_DIGITS && (frac.len()
            == 0 || all_digits(frac)) && whole.len() + frac.len() > 0 {
            decimal_value(whole) * 100 + hundredths(frac)
        } else {
            0
        }
    }
}

/// A numeral of `n` digits is below ten to the `n`.
proof fn lemma_decimal_bound(s: Seq<char>)
    requires
        forall|i: int| 0 <= i < s.len() ==> is_digit(#[trigger] s[i]),
    ensures
        decimal_value(s) < pow10(s.len()),
    decreases s.len(),
{
    if s.len() > 0 {
        let t = s.drop_last();
        assert forall|i: int| 0 <= i < t.len() implies is_digit(#[trigger] t[i]) by {
            assert(t[i] == s[i]);
        }
        lemma_decimal_bound(t);
        assert(is_digit(s[s.len() - 1]));
        assert(digit_value(s.last()) <= 9);
        assert(decimal_value(s) == decimal_value(t) * 10 + digit_value(s.last()));
        assert(pow10(s.len()) == 10 * pow10(t.len()));
    }
}

/// Reads the decimal numeral `s@[from..to]`, of at most `MAX_WHOLE_DIGITS` digits;
/// `None` where it is empty or holds a non-digit.
fn read_decimal(s: &str, from: usize, to: usize) -> (r: Option<u64>)
    requires
        from <= to <= s@.len(),
        to - from <= MAX_WHOLE_DIGITS,
    ensures
        match r {
            Some(v) => all_digits(s@.subrange(from as int, to as int))
                && v == decimal_value(s@.subrange(from as int, to as int))
                && v < pow10(MAX_WHOLE_DIGITS as nat),
            None => !all_digits(s@.subrange(from as int, to as int)),
        },
{
    if from == to {
        return None;
    }
    let mut v: u64 = 0;
    let mut i: usize = from;
    proof {
        reveal_with_fuel(pow10, 16);
    }
    assert(pow10(15) == 1_000_000_000_000_000);
    while i < to
        invariant
            from <= i <= to <= s@.len(),
            to - from <= MAX_WHOLE_DIGITS,
            pow10(15) == 1_000_000_000_000_000,
            forall|k: int| from <= k < i ==> is_digit(#[trigger] s@[k]),
            v == decimal_value(s@.subrange(from as int, i as int)),
        decreases to - i,
    {
        let c = s.get_char(i);
        if !('0' <= c && c <= '9') {
            assert(s@.subrange(from as int, to as int)[i - from] == c);
            return None;
        }
        let ghost prefix = s@.subrange(from as int, i as int);
        proof {
            assert forall|k: int| 0 <= k < prefix.len() implies is_digit(#[trigger] prefix[k]) by {
                assert(prefix[k] == s@[from + k]);
            }
            lemma_decimal_bound(prefix);
            lemma_pow10_monotone(prefix.len(), 14);
            assert(s@.subrange(from as int, i + 1).drop_last() =~= prefix);
        }
        v = v * 10 + (c as u32 - '0' as u32) as u64;
        i += 1;
    }
    proof {
        let all = s@.subrange(from as int, to as int);
        assert forall|k: int| 0 <= k < all.len() implies is_digit(#[trigger] all[k]) by {
            assert(all[k] == s@[from + k]);
        }
        lemma_decimal_bound(all);
        lemma_pow10_monotone(all.len(), 15);
    }
    Some(v)
}

/// Powers of ten grow with the exponent.
proof fn lemma_pow10_monotone(a: nat, b: nat)
    requires
        a <= b,
    ensures
        pow10(a) <= pow10(b),
    decreases b,
{
    if a < b {
        lemma_pow10_monotone(a, (b - 1) as nat);
    }
}

/// Whether `s@[start..]` is a nonempty run of decimal digits.
fn digits_from(s: &str, start: usize) -> (r: bool)
    requires
        start <= s@.len(),
    ensures
        r == all_digits(s@.skip(start as int)),
{
    let n = s.unicode_len();
    if start == n {
        return false;
    }
    let mut i: usize = start;
    while i < n
        invariant
            start <= i <= n,
            n == s@.len(),
            forall|k: int| start <= k < i ==> is_digit(#[trigger] s@[k]),
        decreases n - i,
    {
        let c = s.get_char(i);
        if !('0' <= c && c <= '9') {
            assert(s@.skip(start as int)[i - start] == c);
            return false;
        }
        i += 1;
    }
    let ghost f = s@.skip(start as int);
    assert forall|k: int| 0 <= k < f.len() implies is_digit(#[trigger] f[k]) by {
        assert(f[k] == s@[start + k]);
    }
    true
}

/// Reads a rating's text in hundredths, as `rating_of` says.
pub fn parse_rating(s: &str) -> (r: u64)
    ensures
        r == rating_of(s@),
{
    let n = s.unicode_len();
    let (whole_end, frac) = match find_last(s, '.') {
        Some(d) => (d, true),
        None => (n, false),
    };
    proof {
        lemma_last_index_of(s@, '.');
        reveal_with_fuel(pow10, 16);
    }
    assert(pow10(15) == 1_000_000_000_000_000);
    if whole_end > MAX_WHOLE_DIGITS {
        proof {
            lemma_last_index_of(s@, '.');
        }
        return 0;
    }
    let whole: u64 = if frac && whole_end == 0 {
        assert(s@.take(0) =~= Seq::<char>::empty());
        0
    } else {
        match read_decimal(s, 0, whole_end) {
            Some(v) => v,
            None => {
                proof {
                    assert(s@.subrange(0, whole_end as int) =~= s@.take(whole_end as int));
                    assert(!frac ==> s@.take(whole_end as int) =~= s@);
                }
                return 0;
            },
        }
    };
    proof {
        assert(s@.subrange(0, whole_end as int) =~= s@.take(whole_end as int));
        assert(!frac ==> s@.take(whole_end as int) =~= s@);
    }
    if !frac {
        return whole * 100;
    }
    let start = whole_end + 1;
    if start == n {
        assert(s@.skip(start as int).len() == 0);
        if whole_end == 0 {
            return 0;
        }
        return whole * 100;
    }
    if !digits_from(s, start) {
        return 0;
    }
    let ghost f = s@.skip(start as int);
    assert(f[0] == s@[start as int]);
    assert(is_digit(f[0]));
    let first = (s.get_char(start) as u32 - '0' as u32) as u64;
    let second = if start + 1 < n {
        assert(f[1] == s@[start + 1]);
        assert(is_digit(f[1]));
        (s.get_char(start + 1) as u32 - '0' as u32) as u64
    } else {
        0
    };
    whole * 100 + first * 10 + second
}

} // verus!
